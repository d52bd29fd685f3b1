//! Screens rendered from memory.

use calcite_core::screen::cp437_to_unicode;
use calcite_core::State;

fn state_with_text(cells: &[(u8, u8)]) -> State {
    let mut state = State::new(16);
    for (i, (ch, attr)) in cells.iter().enumerate() {
        state.memory[2 * i] = *ch;
        state.memory[2 * i + 1] = *attr;
    }
    state
}

#[test]
fn code_page_glyphs() {
    assert_eq!(cp437_to_unicode(b'A'), 'A');
    assert_eq!(cp437_to_unicode(0), ' ');
    assert_eq!(cp437_to_unicode(1), '\u{263A}');
    assert_eq!(cp437_to_unicode(0x7F), '\u{2302}');
    assert_eq!(cp437_to_unicode(0x80), '\u{00C7}');
    assert_eq!(cp437_to_unicode(0xDB), '\u{2588}');
    assert_eq!(cp437_to_unicode(0xFF), ' ');
}

#[test]
fn plain_screen_pads_beyond_memory() {
    let state = state_with_text(&[(b'H', 7), (b'i', 7)]);
    assert_eq!(state.render_screen(0, 2, 1), "Hi");
    assert_eq!(state.render_screen(0, 1, 2), "H\ni");
    assert_eq!(state.render_screen(100, 3, 1), "   ");
    assert_eq!(state.render_screen(0, 2, 0), "");
}

#[test]
fn terminal_screen_changes_colours_per_run() {
    let state = state_with_text(&[(b'a', 0x07), (b'b', 0x07), (b'c', 0x1F)]);
    assert_eq!(
        state.render_screen_ansi(0, 3, 1),
        "\x1b[38;2;170;170;170;48;2;0;0;0mab\x1b[38;2;255;255;255;48;2;0;0;170mc\x1b[0m"
    );
}

#[test]
fn markup_screen_escapes() {
    let state = state_with_text(&[(b'<', 0x07), (b'&', 0x07)]);
    assert_eq!(
        state.render_screen_html(0, 1, 2),
        "<span style=\"color:#aaaaaa;background:#000000\">&lt;</span><br>\
         <span style=\"color:#aaaaaa;background:#000000\">&amp;</span>"
    );
    assert_eq!(
        state.render_screen_html(0, 2, 1),
        "<span style=\"color:#aaaaaa;background:#000000\">&lt;&amp;</span>"
    );
}

#[test]
fn framebuffer_uses_text_colours() {
    let mut state = State::new(4);
    state.memory[0] = 1;
    state.memory[1] = 0x14;
    let image = state.render_framebuffer(0, 2, 1);
    assert_eq!(image, b"P6\n2 1\n255\n\x00\x00\xAA\xAA\x00\x00".to_vec());
    assert_eq!(
        state.read_framebuffer_rgba(0, 2, 1),
        vec![0, 0, 0xAA, 255, 0xAA, 0, 0, 255]
    );
}

#[test]
fn framebuffer_uses_palette_once_set() {
    let mut state = State::new(4);
    state.memory[0] = 2;
    state.write_mem(0x100000 + 6, 63);
    state.write_mem(0x100000 + 7, 32);
    state.write_mem(0x100000 + 8, 0);
    assert_eq!(state.read_framebuffer_rgba(0, 1, 1), vec![255, 130, 0, 255]);
    assert_eq!(&state.render_framebuffer(0, 1, 1)[11..], &[0, 0xAA, 0]);
}

#[test]
fn video_memory_holds_characters_only() {
    let state = state_with_text(&[(b'o', 1), (b'k', 2)]);
    assert_eq!(state.read_video_memory(0, 2, 1), vec![b'o', b'k']);
    assert_eq!(state.read_video_memory(14, 2, 1), vec![0, 0]);
}

#[test]
fn frames_may_end_at_the_last_address() {
    let state = State::new(4);
    let last = usize::MAX;
    assert_eq!(state.render_framebuffer(last, 1, 1), b"P6\n1 1\n255\n\0\0\0".to_vec());
    assert_eq!(state.read_framebuffer_rgba(last, 1, 1), vec![0, 0, 0, 255]);
    assert_eq!(state.read_framebuffer_rgba(last, 0, 7), Vec::<u8>::new());
    assert_eq!(state.read_video_memory(last, 1, 1), vec![0]);
    assert_eq!(state.render_screen(last, 1, 1), " ");
    assert_eq!(state.render_screen(last - 2, 1, 2), " \n ");
    assert_eq!(
        state.render_screen_ansi(last - 1, 1, 1),
        "\x1b[38;2;170;170;170;48;2;0;0;0m \x1b[0m"
    );
    assert_eq!(
        state.render_screen_html(last - 1, 1, 1),
        "<span style=\"color:#aaaaaa;background:#000000\"> </span>"
    );
}

#[test]
fn only_blanks_share_a_glyph() {
    for a in 0..=255u8 {
        let c = cp437_to_unicode(a);
        assert!(!c.is_control(), "{a}");
        if (0x20..0x7F).contains(&a) {
            assert_eq!(c, a as char);
        }
        for b in 0..a {
            if cp437_to_unicode(b) == c {
                assert!([0x00, 0x20, 0xFF].contains(&a) && [0x00, 0x20, 0xFF].contains(&b), "{a} {b}");
                assert_eq!(c, ' ');
            }
        }
    }
}
