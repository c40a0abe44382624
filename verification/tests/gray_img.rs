use braille_art::commons::gray_img::GrayImg;

#[test]
fn new_image_is_black() {
    let img = GrayImg::new(3, 2);
    assert_eq!(img.width(), 3);
    assert_eq!(img.height(), 2);
    assert_eq!(img.as_raw(), &vec![0u8; 6]);
}

#[test]
fn new_image_may_be_empty() {
    let img = GrayImg::new(0, 7);
    assert_eq!(img.width(), 0);
    assert_eq!(img.height(), 7);
    assert!(img.as_raw().is_empty());
}

#[test]
fn from_raw_takes_exactly_one_sample_per_coordinate() {
    assert!(GrayImg::from_raw(2, 2, vec![1, 2, 3, 4]).is_some());
    assert!(GrayImg::from_raw(2, 2, vec![1, 2, 3]).is_none());
    assert!(GrayImg::from_raw(2, 2, vec![1, 2, 3, 4, 5]).is_none());
    assert!(GrayImg::from_raw(0, 5, vec![]).is_some());
    assert!(GrayImg::from_raw(0, 5, vec![0]).is_none());
}

#[test]
fn from_raw_keeps_raster_order() {
    let img = GrayImg::from_raw(3, 2, vec![10, 20, 30, 40, 50, 60]).unwrap();
    assert_eq!(img.width(), 3);
    assert_eq!(img.height(), 2);
    assert_eq!(img.get_pixel(0, 0), 10);
    assert_eq!(img.get_pixel(2, 0), 30);
    assert_eq!(img.get_pixel(0, 1), 40);
    assert_eq!(img.get_pixel(1, 1), 50);
    assert_eq!(img.get_pixel(2, 1), 60);
}

#[test]
fn put_pixel_changes_one_sample() {
    let mut img = GrayImg::new(3, 3);
    img.put_pixel(1, 2, 200);
    assert_eq!(img.get_pixel(1, 2), 200);
    assert_eq!(img.as_raw(), &vec![0, 0, 0, 0, 0, 0, 0, 200, 0]);
    img.put_pixel(2, 0, 7);
    assert_eq!(img.as_raw(), &vec![0, 0, 7, 0, 0, 0, 0, 200, 0]);
}
