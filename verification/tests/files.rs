use better_spotlight::files::{parse_paths, FileEntry, MAX_FILE_RESULTS};

#[test]
fn parses_null_delimited_paths_and_skips_app_contents() {
    let output = b"/Users/me/report.pdf\0/Applications/Notes.app\0/Applications/Notes.app/Contents/Info.plist\0/Users/me/report.pdf\0";
    assert_eq!(
        parse_paths(output, 10),
        vec![FileEntry {
            name: "report.pdf".into(),
            path: "/Users/me/report.pdf".into(),
            parent: "/Users/me".into(),
        }]
    );
}

#[test]
fn respects_result_limit() {
    let output = b"/tmp/one\0/tmp/two\0/tmp/three\0";
    assert_eq!(parse_paths(output, 2).len(), 2);
}

#[test]
fn keeps_order_skips_empty_pieces_and_reads_the_last_piece() {
    let output = b"\0\0/a/b.txt\0/c\0\0/d/e";
    let found = parse_paths(output, MAX_FILE_RESULTS);
    let paths: Vec<&str> = found.iter().map(|f| f.path.as_str()).collect();
    assert_eq!(paths, vec!["/a/b.txt", "/c", "/d/e"]);
    assert_eq!(found[1].parent, "/");
    assert_eq!(found[2].name, "e");
}

#[test]
fn root_has_no_name_and_a_zero_limit_gives_nothing() {
    assert_eq!(parse_paths(b"/\0/x\0", 10).len(), 1);
    assert_eq!(parse_paths(b"/x\0", 0).len(), 0);
}
