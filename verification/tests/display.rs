use chaikin::display::{frame_buffer, is_well_formed, new_surface, pack_pixels, Mode, HEIGHT, WIDTH};
use chaikin::geometrical_shapes::{Color, Displayable};
use raster::Image;

#[test]
fn new_surface_is_opaque_black() {
    let image = new_surface(3, 2).unwrap();
    assert_eq!(image.width, 3);
    assert_eq!(image.height, 2);
    assert_eq!(image.bytes.len(), 24);
    for (i, byte) in image.bytes.iter().enumerate() {
        assert_eq!(*byte, if i % 4 == 3 { 255 } else { 0 });
    }
}

#[test]
fn new_surface_refuses_sizes_that_do_not_fit() {
    assert!(new_surface(-1, 4).is_none());
    assert!(new_surface(4, -1).is_none());
    assert!(new_surface(i32::MAX, i32::MAX).is_none());
    // 4 * 46341 * 11586 exceeds i32::MAX by a little.
    assert!(new_surface(46341, 11586).is_none());
    assert!(new_surface(0, 0).is_some());
    assert!(new_surface(0, 1000).is_some());
}

#[test]
fn window_surface_fits() {
    let image = new_surface(WIDTH as i32, HEIGHT as i32).unwrap();
    assert_eq!(image.bytes.len(), 840 * 600 * 4);
    assert!(is_well_formed(&image));
}

#[test]
fn well_formedness_is_about_the_byte_count() {
    let mut image = new_surface(4, 4).unwrap();
    assert!(is_well_formed(&image));
    image.bytes.pop();
    assert!(!is_well_formed(&image));
    let negative = Image { width: -1, height: 1, bytes: Vec::new() };
    assert!(!is_well_formed(&negative));
    let empty = Image { width: 0, height: 7, bytes: Vec::new() };
    assert!(is_well_formed(&empty));
    let short = Image { width: 2, height: 2, bytes: vec![0; 15] };
    assert!(!is_well_formed(&short));
}

#[test]
fn pack_pixels_drops_alpha_and_sets_it_opaque() {
    assert_eq!(pack_pixels(&vec![1, 2, 3, 4]), vec![0xff010203]);
    assert_eq!(pack_pixels(&vec![255, 0, 128, 0, 0, 255, 7, 9]), vec![0xffff0080, 0xff00ff07]);
    assert_eq!(pack_pixels(&Vec::new()), Vec::<u32>::new());
}

#[test]
fn pack_pixels_takes_a_last_group_of_three() {
    assert_eq!(pack_pixels(&vec![1, 2, 3, 4, 5, 6, 7]), vec![0xff010203, 0xff050607]);
    assert_eq!(pack_pixels(&vec![9, 8, 7]), vec![0xff090807]);
}

#[test]
fn frame_buffer_follows_the_rows() {
    let mut image = new_surface(3, 2).unwrap();
    image.display(0, 0, Color::rgb(1, 2, 3));
    image.display(2, 1, Color::rgba(0x10, 0x20, 0x30, 0));
    let buffer = frame_buffer(&image);
    assert_eq!(
        buffer,
        vec![0xff010203, 0xff000000, 0xff000000, 0xff000000, 0xff000000, 0xff102030]
    );
}

#[test]
fn modes_are_distinct() {
    assert_ne!(Mode::Drawing, Mode::Animating);
    assert_eq!(Mode::Drawing, Mode::Drawing);
}

#[test]
fn colours_compare_by_channel() {
    assert_eq!(Color::rgb(1, 2, 3), Color { r: 1, g: 2, b: 3, a: 255 });
    assert_eq!(Color::rgba(1, 2, 3, 4), Color { r: 1, g: 2, b: 3, a: 4 });
    assert_ne!(Color::rgb(1, 2, 3), Color::rgba(1, 2, 3, 254));
}
