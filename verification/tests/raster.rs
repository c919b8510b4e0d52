use derivers::raster::{Color, Raster};

#[test]
fn new_raster_is_transparent() {
    let r = Raster::new(3, 2);
    assert_eq!(r.width(), 3);
    assert_eq!(r.height(), 2);
    assert_eq!(r.as_raw(), &vec![0u8; 24]);
    assert_eq!(r.get_pixel(2, 1), Some(Color { r: 0, g: 0, b: 0, a: 0 }));
    assert_eq!(r.get_pixel(3, 1), None);
    assert_eq!(r.get_pixel(0, 2), None);
}

#[test]
fn from_raw_wants_four_bytes_for_each_pixel() {
    assert!(Raster::from_raw(2, 2, vec![0; 15]).is_none());
    assert!(Raster::from_raw(2, 2, vec![0; 17]).is_none());
    assert!(Raster::from_raw(0, 5, vec![]).is_some());
    let data: Vec<u8> = (0..16).collect();
    let r = Raster::from_raw(2, 2, data.clone()).unwrap();
    assert_eq!(r.get_pixel(0, 0), Some(Color { r: 0, g: 1, b: 2, a: 3 }));
    assert_eq!(r.get_pixel(1, 0), Some(Color { r: 4, g: 5, b: 6, a: 7 }));
    assert_eq!(r.get_pixel(0, 1), Some(Color { r: 8, g: 9, b: 10, a: 11 }));
    assert_eq!(r.get_pixel(1, 1), Some(Color { r: 12, g: 13, b: 14, a: 15 }));
    assert_eq!(r.into_raw(), data);
}
