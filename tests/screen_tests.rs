use chip8::error::Chip8Error;
use chip8::screen::{pos_to_index, Screen};

#[test]
fn new_screen_is_dark_with_no_key_down() {
    let screen = Screen::new();
    for y in 0..32u8 {
        for x in 0..64u8 {
            assert_eq!(screen.get_pixel(x, y), Ok(false));
        }
    }
    assert!(!screen.any_key_pressed());
    assert!(!screen.closed());
}

#[test]
fn pixels_set_read_and_clear() {
    let mut screen = Screen::new();
    assert_eq!(screen.set_pixel(63, 31, true), Ok(()));
    assert_eq!(screen.set_pixel(0, 0, true), Ok(()));
    assert_eq!(screen.get_pixel(63, 31), Ok(true));
    assert_eq!(screen.get_pixel(0, 0), Ok(true));
    assert_eq!(screen.get_pixel(1, 0), Ok(false));
    assert_eq!(screen.get_pixel(0, 1), Ok(false));
    assert!(!screen.take_frame());
    screen.clear();
    assert!(screen.take_frame());
    assert!(!screen.take_frame());
    assert_eq!(screen.get_pixel(63, 31), Ok(false));
    assert_eq!(screen.get_pixel(0, 0), Ok(false));
}

#[test]
fn pixels_outside_grid_are_refused() {
    let mut screen = Screen::new();
    assert_eq!(screen.get_pixel(64, 0), Err(Chip8Error::InvalidPixelPosition(64, 0)));
    assert_eq!(screen.get_pixel(0, 32), Err(Chip8Error::InvalidPixelPosition(0, 32)));
    assert_eq!(screen.set_pixel(100, 0, true), Err(Chip8Error::InvalidPixelPosition(100, 0)));
    assert_eq!(screen.get_pixel(36, 1), Ok(false));
}

#[test]
fn keys_press_release_and_lowest() {
    let mut screen = Screen::new();
    screen.key_pressed(0xC);
    screen.key_pressed(0x5);
    assert!(screen.any_key_pressed());
    assert_eq!(screen.get_pressed_key(), 0x5);
    assert_eq!(screen.key_state(0x5), Ok(true));
    assert_eq!(screen.key_state(0xC), Ok(true));
    assert_eq!(screen.key_state(0x0), Ok(false));
    screen.key_released(0x5);
    assert_eq!(screen.get_pressed_key(), 0xC);
    assert_eq!(screen.key_state(0x5), Ok(false));
    screen.key_released(0xC);
    assert!(!screen.any_key_pressed());
    screen.key_pressed(0x20);
    assert!(!screen.any_key_pressed());
    screen.key_pressed(0xF);
    assert_eq!(screen.get_pressed_key(), 0xF);
}

#[test]
fn key_ids_above_f_are_refused() {
    let screen = Screen::new();
    assert_eq!(screen.key_state(0x10), Err(Chip8Error::OutOfRangeKey(0x10)));
}

#[test]
fn closing_and_frame_requests() {
    let mut screen = Screen::new();
    screen.close();
    assert!(screen.closed());
    screen.draw();
    assert!(screen.take_frame());
}

#[test]
fn pixel_positions_are_row_major() {
    assert_eq!(pos_to_index(0, 0), 0);
    assert_eq!(pos_to_index(63, 0), 63);
    assert_eq!(pos_to_index(0, 1), 64);
    assert_eq!(pos_to_index(63, 31), 2047);
}
