use better_spotlight::apps::{
    app_name, bundle_metadata, decode_icon, icon_candidates, is_app_bundle_name, largest_last, order_apps,
};

fn strings(list: &[&str]) -> Vec<String> {
    list.iter().map(|s| s.to_string()).collect()
}

#[test]
fn application_bundles_end_in_app() {
    assert!(is_app_bundle_name("Safari.app"));
    assert!(!is_app_bundle_name("Safari"));
    assert!(!is_app_bundle_name("app"));
}

#[test]
fn names_prefer_bundle_metadata_then_the_file_name() {
    assert_eq!(app_name(Some("Display".into()), Some("Bundle".into()), "File.app"), "Display");
    assert_eq!(app_name(None, Some("Bundle".into()), "File.app"), "Bundle");
    assert_eq!(app_name(None, None, "File.app.app"), "File");
    assert_eq!(app_name(None, None, "File"), "File");
}

#[test]
fn applications_sort_by_name_and_drop_repeated_paths() {
    let names = strings(&["safari", "Mail", "Safari", "mail"]);
    let paths = strings(&["/A/Safari.app", "/A/Mail.app", "/A/Safari.app", "/B/Mail.app"]);
    // sorted: Mail(1), mail(3), safari(0), Safari(2); Safari repeats safari's path.
    assert_eq!(order_apps(&names, &paths), vec![1, 3, 0]);
}

#[test]
fn the_largest_icon_wins_and_ties_go_to_the_last() {
    assert_eq!(largest_last(&[]), None);
    assert_eq!(largest_last(&[3, 9, 2, 9, 1]), Some(3));
    assert_eq!(largest_last(&[5]), Some(0));
}

#[test]
fn icon_candidates_add_the_icns_extension() {
    assert_eq!(
        icon_candidates("/Applications/Foo.app", "AppIcon"),
        (
            "/Applications/Foo.app/Contents/Resources/AppIcon".to_string(),
            "/Applications/Foo.app/Contents/Resources/AppIcon.icns".to_string()
        )
    );
    assert_eq!(
        icon_candidates("/Applications/Foo.app", "AppIcon.icns"),
        (
            "/Applications/Foo.app/Contents/Resources/AppIcon.icns".to_string(),
            "/Applications/Foo.app/Contents/Resources/AppIcon.icns".to_string()
        )
    );
}

fn icns_bytes(sizes: &[(u32, u8)]) -> Vec<u8> {
    let mut family = icns::IconFamily::new();
    for &(size, shade) in sizes {
        let mut image = icns::Image::new(icns::PixelFormat::RGBA, size, size);
        for byte in image.data_mut().iter_mut() {
            *byte = shade;
        }
        let icon_type = if size == 16 {
            icns::IconType::RGB24_16x16
        } else {
            icns::IconType::RGB24_32x32
        };
        family.add_icon_with_type(&image, icon_type).unwrap();
    }
    let mut bytes = Vec::new();
    family.write(&mut bytes).unwrap();
    bytes
}

#[test]
fn the_widest_icon_is_decoded_to_rgba() {
    let (width, height, pixels) = decode_icon(&icns_bytes(&[(16, 10), (32, 20)])).unwrap();
    assert_eq!((width, height), (32, 32));
    assert_eq!(pixels.len(), 32 * 32 * 4);
    assert_eq!(&pixels[0..4], &[20, 20, 20, 20]);

    let (width, _, pixels) = decode_icon(&icns_bytes(&[(32, 30), (16, 10)])).unwrap();
    assert_eq!(width, 32);
    assert_eq!(pixels[0], 30);
}

#[test]
fn bytes_that_are_no_icon_family_decode_to_nothing() {
    assert!(decode_icon(b"not an icon").is_none());
    assert!(decode_icon(&icns_bytes(&[])).is_none());
}

#[test]
fn bundle_metadata_reads_the_three_keys() {
    let plist = br#"<?xml version="1.0" encoding="UTF-8"?>
<!DOCTYPE plist PUBLIC "-//Apple//DTD PLIST 1.0//EN" "http://www.apple.com/DTDs/PropertyList-1.0.dtd">
<plist version="1.0"><dict>
<key>CFBundleName</key><string>Safari</string>
<key>CFBundleIconFile</key><string>AppIcon</string>
<key>CFBundleVersion</key><integer>3</integer>
</dict></plist>"#;
    let metadata = bundle_metadata(plist).unwrap();
    assert_eq!(metadata.display_name, None);
    assert_eq!(metadata.bundle_name.as_deref(), Some("Safari"));
    assert_eq!(metadata.icon_file.as_deref(), Some("AppIcon"));

    let array = br#"<?xml version="1.0" encoding="UTF-8"?>
<plist version="1.0"><array><string>x</string></array></plist>"#;
    assert!(bundle_metadata(array).is_none());
    assert!(bundle_metadata(b"garbage").is_none());
}

#[test]
fn png_icons_decode_and_oversized_headers_are_refused() {
    let mut family = icns::IconFamily::new();
    let image = icns::Image::new(icns::PixelFormat::RGBA, 128, 128);
    family.add_icon_with_type(&image, icns::IconType::RGBA32_128x128).unwrap();
    let mut bytes = Vec::new();
    family.write(&mut bytes).unwrap();
    let (width, height, pixels) = decode_icon(&bytes).unwrap();
    assert_eq!((width, height, pixels.len()), (128, 128, 128 * 128 * 4));

    let mut data = vec![137u8, 80, 78, 71, 13, 10, 26, 10, 0, 0, 0, 13];
    data.extend_from_slice(b"IHDR");
    data.extend_from_slice(&1u32.to_be_bytes());
    data.extend_from_slice(&(1u32 << 30).to_be_bytes());
    data.extend_from_slice(&[8, 6, 0, 0, 0, 0, 0, 0, 0]);
    let mut element = b"ic07".to_vec();
    element.extend_from_slice(&(8 + data.len() as u32).to_be_bytes());
    element.extend_from_slice(&data);
    let mut file = b"icns".to_vec();
    file.extend_from_slice(&(8 + element.len() as u32).to_be_bytes());
    file.extend_from_slice(&element);
    assert!(decode_icon(&file).is_none());
}
