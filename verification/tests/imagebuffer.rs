use sprios::imagebuffer::ImageBuffer;

#[test]
fn push_len_clear() {
    let mut buf = ImageBuffer::new(2, 2, Vec::new());
    assert_eq!(buf.len(), 0);
    buf.push_rgb(1, 2, 3);
    buf.push_rgb(4, 5, 6);
    assert_eq!(buf.len(), 6);
    assert_eq!(buf.as_bytes(), &[1, 2, 3, 4, 5, 6]);
    buf.clear();
    assert_eq!(buf.len(), 0);
}

#[test]
fn ppm_p3_bytes_exactly() {
    let buf = ImageBuffer::new(2, 1, vec![255, 0, 10, 1, 2, 3]);
    let out = buf.to_ppm_p3();
    assert_eq!(out, b"P3\n2 1\n255\n255 0 10\n1 2 3\n".to_vec());
}

#[test]
fn ppm_p6_bytes_exactly() {
    let buf = ImageBuffer::new(2, 1, vec![255, 0, 10, 1, 2, 3]);
    let out = buf.to_ppm_p6();
    assert_eq!(out, b"P6\n2 1\n255\n\xff\x00\x0a\x01\x02\x03".to_vec());
}

#[test]
fn ppm_p3_drops_incomplete_triple() {
    let buf = ImageBuffer::new(1, 1, vec![9, 9, 9, 7]);
    let out = buf.to_ppm_p3();
    assert_eq!(out, b"P3\n1 1\n255\n9 9 9\n".to_vec());
}

#[test]
fn ppm_header_of_wide_image() {
    let buf = ImageBuffer::new(1920, 1080, Vec::new());
    let out = buf.to_ppm_p3();
    assert_eq!(out, b"P3\n1920 1080\n255\n".to_vec());
}
