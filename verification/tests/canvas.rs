use clplot::data::PVec2;
use clplot::plot::Plot;
use clplot::screen::{Command, Screen};

fn full_plot(width: u16, height: u16) -> Plot {
    Plot::new(width, height).0
}

fn apply(screen: &mut Screen, cmds: Vec<Command>) {
    screen.apply_all(&cmds);
}

#[test]
fn clamp_within_range_is_identity() {
    assert_eq!(Plot::clamp(5, 0, 10), 5);
    assert_eq!(Plot::clamp(0, 0, 10), 0);
    assert_eq!(Plot::clamp(10, 0, 10), 10);
}

#[test]
fn clamp_outside_range_returns_nearer_end() {
    assert_eq!(Plot::clamp(15, 2, 10), 10);
    assert_eq!(Plot::clamp(1, 2, 10), 2);
}

#[test]
fn clamp_is_idempotent_on_points() {
    let plot = Plot {
        width: 10,
        height: 10,
        x_min: 2,
        x_max: 8,
        y_min: 1,
        y_max: 9,
    };
    for &(x, y) in &[(0u16, 0u16), (5, 5), (100, 3), (3, 100), (65535, 65535)] {
        let once = plot.clamp_to_plot(&PVec2 { x, y });
        let twice = plot.clamp_to_plot(&once);
        assert_eq!(once.x, twice.x);
        assert_eq!(once.y, twice.y);
    }
}

#[test]
fn clip_cuts_long_lines_only() {
    assert_eq!(Plot::clip("hello", 3), "hel");
    assert_eq!(Plot::clip("hello", 5), "hello");
    assert_eq!(Plot::clip("hello", 9), "hello");
    assert_eq!(Plot::clip("", 4), "");
}

#[test]
fn new_emits_blank_rows_then_saves_anchor() {
    let (plot, cmds) = Plot::new(5, 3);
    assert_eq!(plot.width, 5);
    assert_eq!(plot.height, 3);
    assert_eq!(plot.x_min, 0);
    assert_eq!(plot.x_max, 5);
    assert_eq!(plot.y_min, 0);
    assert_eq!(plot.y_max, 3);
    assert_eq!(cmds.len(), 4);
    assert!(matches!(cmds[0], Command::LineFeed));
    assert!(matches!(cmds[1], Command::LineFeed));
    assert!(matches!(cmds[2], Command::LineFeed));
    assert!(matches!(cmds[3], Command::Save));
}

#[test]
fn resize_consumes_and_reanchors() {
    let plot = full_plot(5, 3);
    let (resized, cmds) = plot.resize(7, 2);
    assert_eq!(resized.width, 7);
    assert_eq!(resized.height, 2);
    assert_eq!(resized.x_max, 7);
    assert_eq!(resized.y_max, 2);
    assert!(matches!(cmds[0], Command::Restore));
    assert!(matches!(cmds[1], Command::Up(3)));
    assert!(matches!(cmds[2], Command::LineFeed));
    assert!(matches!(cmds[3], Command::LineFeed));
    assert!(matches!(cmds[4], Command::Save));
    assert_eq!(cmds.len(), 5);
}

#[test]
fn finish_parks_cursor_below_anchor() {
    let plot = full_plot(4, 4);
    let cmds = plot.finish();
    assert_eq!(cmds.len(), 2);
    assert!(matches!(cmds[0], Command::Restore));
    assert!(matches!(cmds[1], Command::Down(1)));
}

#[test]
fn put_writes_one_character() {
    let plot = full_plot(10, 10);
    let mut screen = Screen::new(10, 10);
    apply(&mut screen, plot.put('b', &PVec2 { x: 3, y: 5 }));
    assert_eq!(screen.get(3, 5), 'b');
    assert_eq!(screen.get(4, 5), ' ');
    assert_eq!(screen.get(3, 4), ' ');
}

#[test]
fn put_clamps_out_of_range_points() {
    let plot = full_plot(10, 10);
    let mut screen = Screen::new(10, 10);
    apply(&mut screen, plot.put('e', &PVec2 { x: 300, y: 20 }));
    assert_eq!(screen.get(10, 10), 'e');
}

#[test]
fn put_str_writes_left_to_right() {
    let plot = full_plot(10, 10);
    let mut screen = Screen::new(10, 10);
    apply(&mut screen, plot.put_str("ha!", &PVec2 { x: 2, y: 1 }));
    assert_eq!(screen.get(2, 1), 'h');
    assert_eq!(screen.get(3, 1), 'a');
    assert_eq!(screen.get(4, 1), '!');
    assert_eq!(screen.get(5, 1), ' ');
}

#[test]
fn put_str_keeps_multiline_text_left_aligned() {
    let plot = full_plot(10, 10);
    let mut screen = Screen::new(10, 10);
    apply(&mut screen, plot.put_str("ab\ncd", &PVec2 { x: 4, y: 2 }));
    assert_eq!(screen.get(4, 2), 'a');
    assert_eq!(screen.get(5, 2), 'b');
    assert_eq!(screen.get(4, 3), 'c');
    assert_eq!(screen.get(5, 3), 'd');
    assert_eq!(screen.get(3, 3), ' ');
}

#[test]
fn put_str_clips_each_line_to_remaining_columns() {
    let plot = full_plot(10, 10);
    let mut screen = Screen::new(10, 10);
    apply(&mut screen, plot.put_str("abcdef\nxy", &PVec2 { x: 8, y: 0 }));
    assert_eq!(screen.get(8, 0), 'a');
    assert_eq!(screen.get(9, 0), 'b');
    assert_eq!(screen.get(10, 0), ' ');
    assert_eq!(screen.get(8, 1), 'x');
    assert_eq!(screen.get(9, 1), 'y');
}

#[test]
fn put_str_overwrites_with_whitespace() {
    let plot = full_plot(10, 10);
    let mut screen = Screen::new(10, 10);
    apply(&mut screen, plot.put_str("AAAA", &PVec2 { x: 0, y: 0 }));
    apply(&mut screen, plot.put_str("B  B", &PVec2 { x: 0, y: 0 }));
    assert_eq!(screen.get(0, 0), 'B');
    assert_eq!(screen.get(1, 0), ' ');
    assert_eq!(screen.get(2, 0), ' ');
    assert_eq!(screen.get(3, 0), 'B');
}

#[test]
fn put_str_transparent_preserves_under_whitespace() {
    let plot = full_plot(10, 10);
    let mut screen = Screen::new(10, 10);
    apply(&mut screen, plot.put_str("AAAA\nAAAA", &PVec2 { x: 0, y: 0 }));
    apply(&mut screen, plot.put_str_transparent("B  B\n BB ", &PVec2 { x: 0, y: 0 }));
    assert_eq!(screen.get(0, 0), 'B');
    assert_eq!(screen.get(1, 0), 'A');
    assert_eq!(screen.get(2, 0), 'A');
    assert_eq!(screen.get(3, 0), 'B');
    assert_eq!(screen.get(0, 1), 'A');
    assert_eq!(screen.get(1, 1), 'B');
    assert_eq!(screen.get(2, 1), 'B');
    assert_eq!(screen.get(3, 1), 'A');
}

#[test]
fn transparent_without_whitespace_matches_put_str() {
    let plot = full_plot(12, 6);
    let mut opaque = Screen::new(12, 6);
    let mut transparent = Screen::new(12, 6);
    apply(&mut opaque, plot.put_str("AAAA", &PVec2 { x: 1, y: 2 }));
    apply(&mut transparent, plot.put_str("AAAA", &PVec2 { x: 1, y: 2 }));
    apply(&mut opaque, plot.put_str("bean", &PVec2 { x: 2, y: 2 }));
    apply(&mut transparent, plot.put_str_transparent("bean", &PVec2 { x: 2, y: 2 }));
    for x in 0..=12 {
        for y in 0..=6 {
            assert_eq!(opaque.get(x, y), transparent.get(x, y));
        }
    }
}

#[test]
fn transparent_all_spaces_leaves_canvas_unchanged() {
    let plot = full_plot(8, 4);
    let mut screen = Screen::new(8, 4);
    for x in 0..=8 {
        for y in 0..=4 {
            apply(&mut screen, plot.put('M', &PVec2 { x, y }));
        }
    }
    apply(&mut screen, plot.put_str_transparent("      ", &PVec2 { x: 1, y: 1 }));
    for x in 0..=8 {
        for y in 0..=4 {
            assert_eq!(screen.get(x, y), 'M');
        }
    }
}

#[test]
fn clear_blanks_the_width_by_height_extent() {
    let plot = full_plot(4, 3);
    let mut screen = Screen::new(4, 3);
    for x in 0..=4 {
        for y in 0..=3 {
            apply(&mut screen, plot.put('Z', &PVec2 { x, y }));
        }
    }
    apply(&mut screen, plot.clear());
    for x in 0..4 {
        for y in 0..3 {
            assert_eq!(screen.get(x, y), ' ');
        }
    }
    // The extra column and row beyond the width x height extent stay as
    // they were.
    for y in 0..=3 {
        assert_eq!(screen.get(4, y), 'Z');
    }
    for x in 0..=4 {
        assert_eq!(screen.get(x, 3), 'Z');
    }
}

#[test]
fn origin_helpers_measure_from_the_edges() {
    let plot = full_plot(20, 10);
    let bl = plot.origin_bl(3, 4);
    assert_eq!(bl.x, 3);
    assert_eq!(bl.y, 6);
    let br = plot.origin_br(3, 4);
    assert_eq!(br.x, 17);
    assert_eq!(br.y, 6);
}
