use raytracer::image::RgbImage;

#[test]
fn new_image_is_black() {
    let img = RgbImage::new(3, 2);
    assert_eq!(img.width(), 3);
    assert_eq!(img.height(), 2);
    assert_eq!(img.data().len(), 18);
    assert!(img.data().iter().all(|&b| b == 0));
    assert_eq!(RgbImage::new(0, 5).data().len(), 0);
}

#[test]
fn put_pixel_then_get_pixel() {
    let mut img = RgbImage::new(3, 2);
    img.put_pixel(2, 1, &(1, 2, 3));
    img.put_pixel(0, 0, &(9, 8, 7));
    assert_eq!(img.get_pixel(2, 1), (1, 2, 3));
    assert_eq!(img.get_pixel(0, 0), (9, 8, 7));
    assert_eq!(img.get_pixel(1, 1), (0, 0, 0));
    assert_eq!(img.pixel_index(2, 1), 15);
    assert_eq!(&img.data()[15..18], &[1, 2, 3]);
    assert_eq!(img.into_raw(), vec![9, 8, 7, 0, 0, 0, 0, 0, 0, 0, 0, 0, 0, 0, 0, 1, 2, 3]);
}

#[test]
fn from_raw_cuts_or_pads() {
    let short = RgbImage::from_raw(1, 2, vec![1, 2, 3, 4]);
    assert_eq!(short.data(), &vec![1, 2, 3, 4, 0, 0]);
    let long = RgbImage::from_raw(1, 1, vec![1, 2, 3, 4, 5]);
    assert_eq!(long.data(), &vec![1, 2, 3]);
    assert_eq!(long.get_pixel(0, 0), (1, 2, 3));
    let exact = RgbImage::from_raw(2, 1, vec![1, 2, 3, 4, 5, 6]);
    assert_eq!(exact.get_pixel(1, 0), (4, 5, 6));
}

#[test]
fn column_past_the_row_end_addresses_the_next_row() {
    let img = RgbImage::from_raw(2, 2, vec![1, 2, 3, 4, 5, 6, 7, 8, 9, 10, 11, 12]);
    assert_eq!(img.get_pixel(2, 0), img.get_pixel(0, 1));
}
