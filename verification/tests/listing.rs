use similar_images::listing::is_image_extension;

#[test]
fn image_extensions_are_recognized() {
    assert!(is_image_extension(b"jpg"));
    assert!(is_image_extension(b"jpeg"));
    assert!(is_image_extension(b"png"));
}

#[test]
fn image_extensions_ignore_case() {
    assert!(is_image_extension(b"JPG"));
    assert!(is_image_extension(b"JpEg"));
    assert!(is_image_extension(b"pNG"));
}

#[test]
fn other_extensions_are_not_images() {
    assert!(!is_image_extension(b""));
    assert!(!is_image_extension(b"gif"));
    assert!(!is_image_extension(b"jp"));
    assert!(!is_image_extension(b"jpgg"));
    assert!(!is_image_extension(b"pn\x47\x47"));
    assert!(!is_image_extension(b"txt"));
    // bytes that differ from the letters by the case bit without being letters
    assert!(!is_image_extension(b"\x0apg"));
    assert!(!is_image_extension(&[106, 112, 103 + 32]));
}
