use atlas_editor::png::Metadata;

fn header(width: u32, height: u32) -> Vec<u8> {
    let mut v = vec![0x89, 0x50, 0x4e, 0x47, 0x0d, 0x0a, 0x1a, 0x0a, 0, 0, 0, 13, b'I', b'H', b'D', b'R'];
    v.extend_from_slice(&width.to_be_bytes());
    v.extend_from_slice(&height.to_be_bytes());
    v
}

#[test]
fn reads_the_size_of_a_png() {
    assert_eq!(Metadata::try_read(&header(640, 480)), Some(Metadata { width: 640, height: 480 }));
    assert_eq!(
        Metadata::try_read(&header(0x0102_0304, 1)),
        Some(Metadata { width: 0x0102_0304, height: 1 })
    );
    let mut longer = header(3, 4);
    longer.extend_from_slice(&[8, 6, 0, 0, 0]);
    assert_eq!(Metadata::try_read(&longer), Some(Metadata { width: 3, height: 4 }));
}

#[test]
fn refuses_what_is_no_png_header() {
    assert_eq!(Metadata::try_read(&[]), None);
    let full = header(1, 1);
    assert_eq!(Metadata::try_read(&full[..23]), None);
    let mut bad_signature = header(1, 1);
    bad_signature[1] = b'Q';
    assert_eq!(Metadata::try_read(&bad_signature), None);
    let mut bad_length = header(1, 1);
    bad_length[11] = 12;
    assert_eq!(Metadata::try_read(&bad_length), None);
    let mut bad_type = header(1, 1);
    bad_type[15] = b'X';
    assert_eq!(Metadata::try_read(&bad_type), None);
    assert_eq!(Metadata::try_read(b"GIF89a..................."), None);
}
