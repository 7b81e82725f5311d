use game_of_life::screen::{CLEAR_SCREEN, MOVE_CURSOR_TOP_LEFT};
use game_of_life::Screen;

#[test]
fn new_screen_is_empty() {
    assert_eq!(Screen::new().as_str(), "");
}

#[test]
fn update_replaces_the_frame_and_homes_the_cursor() {
    let mut screen = Screen::new();
    screen.update(|buff: &mut String| buff.push_str("first"));
    assert_eq!(screen.as_str(), "first\x1B[H");
    screen.update(|buff: &mut String| {
        assert!(buff.is_empty());
        buff.push_str("second\n");
        buff.push('x');
    });
    assert_eq!(screen.as_str(), "second\nx\x1B[H");
    screen.update(|_buff: &mut String| {});
    assert_eq!(screen.as_str(), MOVE_CURSOR_TOP_LEFT);
}

#[test]
fn escape_sequences() {
    assert_eq!(CLEAR_SCREEN, "\x1B[2J");
    assert_eq!(MOVE_CURSOR_TOP_LEFT, "\x1B[H");
}
