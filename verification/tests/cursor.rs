use mudhuts::cursor::{
    cursor_size, fallback_image, frame, nearest_images, Cursor, CursorImage, CursorStatus,
    PointerDraw, PointerElement, DEFAULT_SIZE,
};

fn img(size: u32, width: u32, height: u32, delay: u32) -> CursorImage {
    CursorImage { size, width, height, xhot: 0, yhot: 0, delay, pixels_rgba: Vec::new() }
}

#[test]
fn nearest_images_of_no_images_is_empty() {
    assert!(nearest_images(24, &vec![]).is_empty());
}

#[test]
fn nearest_images_picks_the_closest_size() {
    let images = vec![img(16, 16, 16, 0), img(32, 32, 32, 0), img(48, 48, 48, 0)];
    let nearest = nearest_images(30, &images);
    assert_eq!(nearest.len(), 1);
    assert_eq!(nearest[0], 1);
}

#[test]
fn nearest_images_includes_every_frame_matching_the_nearest_dimensions() {
    let images = vec![img(24, 24, 24, 100), img(24, 24, 24, 100), img(48, 48, 48, 100)];
    assert_eq!(nearest_images(20, &images), vec![0, 1]);
}

#[test]
fn frame_of_no_images_is_none() {
    assert!(frame(0, 24, &vec![]).is_none());
}

#[test]
fn frame_picks_the_candidate_whose_delay_window_contains_the_elapsed_time() {
    let images = vec![img(24, 24, 24, 100), img(24, 24, 24, 100), img(24, 24, 24, 100)];
    assert_eq!(frame(0, 24, &images), Some(0));
    assert_eq!(frame(150, 24, &images), Some(1));
    assert_eq!(frame(250, 24, &images), Some(2));
}

#[test]
fn frame_wraps_around_via_modulo_of_the_total_delay() {
    let images = vec![img(24, 24, 24, 100), img(24, 24, 24, 100)];
    assert_eq!(frame(250, 24, &images), frame(50, 24, &images));
}

#[test]
fn frame_falls_back_to_the_first_candidate_when_total_delay_is_zero() {
    let images = vec![img(24, 24, 24, 0), img(24, 24, 24, 0)];
    assert_eq!(frame(9999, 24, &images), Some(0));
}

#[test]
fn the_size_is_read_from_its_variable() {
    assert_eq!(cursor_size(&Some("32".to_string())), 32);
    assert_eq!(cursor_size(&Some("big".to_string())), DEFAULT_SIZE);
    assert_eq!(cursor_size(&None), DEFAULT_SIZE);
}

fn word(out: &mut Vec<u8>, n: u32) {
    out.extend_from_slice(&n.to_le_bytes());
}

/// A file with one image of one pixel.
fn one_pixel_file(size: u32, delay: u32, argb: u32) -> Vec<u8> {
    let mut out = b"Xcur".to_vec();
    word(&mut out, 16);
    word(&mut out, 0x0001_0000);
    word(&mut out, 1);
    word(&mut out, 0xfffd_0002);
    word(&mut out, size);
    word(&mut out, 28);
    word(&mut out, 36);
    word(&mut out, 0xfffd_0002);
    word(&mut out, size);
    word(&mut out, 1);
    word(&mut out, 1);
    word(&mut out, 1);
    word(&mut out, 0);
    word(&mut out, 0);
    word(&mut out, delay);
    word(&mut out, argb);
    out
}

#[test]
fn a_theme_file_is_parsed_into_its_images() {
    let cursor = Cursor::load(&vec![None, Some(one_pixel_file(24, 50, 0xff80_4020))], 24);
    assert_eq!(cursor.icons.len(), 1);
    assert_eq!((cursor.icons[0].width, cursor.icons[0].height), (1, 1));
    assert_eq!((cursor.icons[0].size, cursor.icons[0].delay), (24, 50));
    assert_eq!(cursor.icons[0].pixels_rgba.len(), 4);
    assert_eq!(cursor.frame(1, 0), Some(0));
    assert_eq!(cursor.frame_if_fit(1, 0), Some(0));
}

#[test]
fn without_a_usable_file_the_built_in_image_is_taken() {
    let cursor = Cursor::load(&vec![Some(b"not a cursor".to_vec()), None], 24);
    let built_in = fallback_image();
    assert_eq!(cursor.icons.len(), 1);
    assert_eq!(cursor.icons[0].width, built_in.width);
    assert_eq!(cursor.icons[0].pixels_rgba, built_in.pixels_rgba);
}

#[test]
fn a_pointer_is_drawn_as_its_status_says() {
    let mut pointer = PointerElement::default();
    assert!(matches!(pointer.draw(), PointerDraw::Nothing));
    pointer.set_buffer();
    assert!(matches!(pointer.draw(), PointerDraw::Theme));
    pointer.set_status(CursorStatus::Surface(3));
    assert!(matches!(pointer.draw(), PointerDraw::Surface(3)));
    pointer.set_status(CursorStatus::Hidden);
    assert!(matches!(pointer.draw(), PointerDraw::Nothing));
}

#[test]
fn a_file_without_images_gives_way_to_the_next_name() {
    let mut empty = b"Xcur".to_vec();
    for word in [16u32, 0x1_0000, 0] {
        empty.extend(word.to_le_bytes());
    }
    let cursor = Cursor::load(&vec![Some(empty.clone()), Some(one_pixel_file(24, 50, 0))], 24);
    assert_eq!(cursor.icons[0].delay, 50);
    let arrow = Cursor::load(&vec![Some(empty)], 24);
    assert_eq!(arrow.icons.len(), 1);
    assert_eq!(arrow.frame(1, 0), Some(0));
}
