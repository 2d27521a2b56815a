use sprios::settings::SettingsBuilder;

#[test]
fn builder_defaults() {
    let s = SettingsBuilder::new().build();
    assert_eq!(s.width, 720);
    assert_eq!(s.height, 480);
    assert_eq!(s.bucket, 16);
    assert_eq!(s.samples, 3);
}

#[test]
fn size_derives_height_from_aspect_ratio() {
    let s = SettingsBuilder::new().size(720, None).build();
    assert_eq!(s.width, 720);
    assert_eq!(s.height, 405);
    let s = SettingsBuilder::new().size(300, None).build();
    assert_eq!(s.height, 168);
    let s = SettingsBuilder::new().size(300, Some(200)).build();
    assert_eq!(s.height, 200);
}

#[test]
fn builder_sets_every_field() {
    let s = SettingsBuilder::new()
        .size(640, Some(360))
        .bucket(32)
        .samples(10)
        .build();
    assert_eq!(s.width, 640);
    assert_eq!(s.height, 360);
    assert_eq!(s.bucket, 32);
    assert_eq!(s.samples, 10);
}
