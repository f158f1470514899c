use better_spotlight::results::ResultKind;
use better_spotlight::theme::{fallback_tile_index, file_tile_label, tile_initial};

#[test]
fn result_kinds_have_section_labels() {
    assert_eq!(ResultKind::Calculator.label(), "CALCULATOR");
    assert_eq!(ResultKind::Clipboard.label(), "CLIPBOARD HISTORY");
    assert_eq!(ResultKind::Applications.label(), "APPLICATIONS");
    assert_eq!(ResultKind::Files.label(), "FILES & FOLDERS");
}

#[test]
fn fallback_tile_is_the_byte_hash_modulo_six() {
    // (65 + 66) * 31 = 4061, and 4061 % 6 = 5.
    assert_eq!(fallback_tile_index("AB"), 5);
    assert_eq!(fallback_tile_index(""), 0);
}

#[test]
fn file_tiles_show_the_extension_in_upper_case() {
    assert_eq!(file_tile_label("report.pdf"), "PDF");
    assert_eq!(file_tile_label("/Users/me/notes.markdown"), "MAR");
    assert_eq!(file_tile_label("archive.tar.gz"), "GZ");
    assert_eq!(file_tile_label("Makefile"), "FILE");
    assert_eq!(file_tile_label(".bashrc"), "FILE");
}

#[test]
fn fallback_tiles_show_the_upper_case_initial() {
    assert_eq!(tile_initial("safari"), "S");
    assert_eq!(tile_initial("Zed"), "Z");
    assert_eq!(tile_initial("ßeta"), "SS");
    assert_eq!(tile_initial(""), "?");
}
