use clplot::data::{PVec2, Vec2};
use clplot::plot::Plot;
use clplot::screen::Screen;
use clplot::shapes::{Line, Point, Rect, ScaledViewBox, ViewBox};

fn full_plot(width: u16, height: u16) -> Plot {
    Plot::new(width, height).0
}

fn svb(plot: Plot) -> ScaledViewBox {
    ScaledViewBox {
        plot,
        position: PVec2 { x: 2, y: 3 },
        size: PVec2 { x: 10, y: 20 },
        x_min: 0,
        x_max: 100,
        y_min: 0,
        y_max: 50,
    }
}

#[test]
fn translation_vector_leads_to_the_other_point() {
    let a = PVec2 { x: 1, y: 3 };
    let b = PVec2 { x: 2, y: 4 };
    let d = a.to(&b);
    assert_eq!(d.x, 1);
    assert_eq!(d.y, 1);
    let back = a.shifted(&d);
    assert_eq!(back.x, b.x);
    assert_eq!(back.y, b.y);
}

#[test]
fn translation_vector_is_signed() {
    let a = PVec2 { x: 5, y: 1 };
    let b = PVec2 { x: 2, y: 4 };
    let d = a.to(&b);
    assert_eq!(d.x, -3);
    assert_eq!(d.y, 3);
    let back = a.shifted(&d);
    assert_eq!(back.x, 2);
    assert_eq!(back.y, 4);
}

#[test]
fn domain_vector_between_points() {
    let a = Vec2 { x: 1, y: 3 };
    let b = Vec2 { x: 2, y: 4 };
    let d = a.to(&b);
    assert_eq!(d.x, 1);
    assert_eq!(d.y, 1);
}

#[test]
fn point_draws_its_symbol() {
    let plot = full_plot(10, 10);
    let mut screen = Screen::new(10, 10);
    let p = Point::new(PVec2 { x: 7, y: 2 }, 's');
    screen.apply_all(&p.draw(&plot));
    assert_eq!(screen.get(7, 2), 's');
}

#[test]
fn point_in_viewbox_is_translated() {
    let plot = full_plot(20, 20);
    let vb = ViewBox {
        plot,
        position: PVec2 { x: 5, y: 5 },
        size: PVec2 { x: 8, y: 8 },
    };
    let mut screen = Screen::new(20, 20);
    let p = Point::new(PVec2 { x: 2, y: 1 }, 'v');
    screen.apply_all(&p.draw_vb(&vb));
    assert_eq!(screen.get(7, 6), 'v');
}

#[test]
fn horizontal_line_is_one_run() {
    let plot = full_plot(10, 10);
    let mut screen = Screen::new(10, 10);
    let l = Line::new(PVec2 { x: 0, y: 0 }, PVec2 { x: 4, y: 0 }, '*');
    screen.apply_all(&l.draw(&plot));
    for x in 0..4 {
        assert_eq!(screen.get(x, 0), '*');
    }
    assert_eq!(screen.get(4, 0), ' ');
    assert_eq!(screen.get(0, 1), ' ');
}

#[test]
fn vertical_line_is_stacked_rows() {
    let plot = full_plot(10, 10);
    let mut screen = Screen::new(10, 10);
    let l = Line::new(PVec2 { x: 0, y: 0 }, PVec2 { x: 0, y: 4 }, '*');
    screen.apply_all(&l.draw(&plot));
    for y in 0..4 {
        assert_eq!(screen.get(0, y), '*');
        assert_eq!(screen.get(1, y), ' ');
    }
    assert_eq!(screen.get(0, 4), ' ');
}

#[test]
fn unit_diagonal_advances_one_column_per_row() {
    let plot = full_plot(10, 10);
    let mut screen = Screen::new(10, 10);
    let l = Line::new(PVec2 { x: 0, y: 0 }, PVec2 { x: 4, y: 4 }, '#');
    screen.apply_all(&l.draw(&plot));
    for i in 0..4 {
        assert_eq!(screen.get(i, i), '#');
    }
    assert_eq!(screen.get(4, 4), ' ');
    assert_eq!(screen.get(1, 0), ' ');
    assert_eq!(screen.get(0, 1), ' ');
}

#[test]
fn diagonal_padding_is_transparent() {
    let plot = full_plot(10, 10);
    let mut screen = Screen::new(10, 10);
    screen.apply_all(&plot.put('X', &PVec2 { x: 0, y: 1 }));
    let l = Line::new(PVec2 { x: 0, y: 0 }, PVec2 { x: 4, y: 4 }, '#');
    screen.apply_all(&l.draw(&plot));
    // The padding in front of row 1's symbol run skips the drawn cell.
    assert_eq!(screen.get(0, 1), 'X');
    assert_eq!(screen.get(1, 1), '#');
}

#[test]
fn falling_diagonal_steps_back_one_column_per_row() {
    let plot = full_plot(10, 10);
    let mut screen = Screen::new(10, 10);
    let l = Line::new(PVec2 { x: 0, y: 4 }, PVec2 { x: 4, y: 0 }, '#');
    screen.apply_all(&l.draw(&plot));
    assert_eq!(screen.get(3, 0), '#');
    assert_eq!(screen.get(2, 1), '#');
    assert_eq!(screen.get(1, 2), '#');
    assert_eq!(screen.get(0, 3), '#');
}

#[test]
fn shallow_diagonal_covers_rounded_ranges() {
    let plot = full_plot(10, 10);
    let mut screen = Screen::new(10, 10);
    let l = Line::new(PVec2 { x: 0, y: 0 }, PVec2 { x: 2, y: 4 }, '#');
    screen.apply_all(&l.draw(&plot));
    assert_eq!(screen.get(0, 0), '#');
    assert_eq!(screen.get(0, 1), '#');
    assert_eq!(screen.get(1, 2), '#');
    assert_eq!(screen.get(1, 3), '#');
    assert_eq!(screen.get(2, 0), ' ');
    assert_eq!(screen.get(2, 3), ' ');
}

#[test]
fn offset_diagonal_covers_absolute_columns() {
    let plot = full_plot(5, 5);
    let mut screen = Screen::new(5, 5);
    let l = Line::new(PVec2 { x: 1, y: 0 }, PVec2 { x: 3, y: 2 }, '#');
    screen.apply_all(&l.draw(&plot));
    assert_eq!(screen.get(1, 0), '#');
    assert_eq!(screen.get(2, 1), '#');
    assert_eq!(screen.get(0, 0), ' ');
    assert_eq!(screen.get(2, 0), ' ');
    assert_eq!(screen.get(1, 1), ' ');
    assert_eq!(screen.get(3, 1), ' ');
    assert_eq!(screen.get(3, 2), ' ');
}

#[test]
fn diagonal_cells_ignore_endpoint_order() {
    let plot = full_plot(6, 6);
    let mut forward = Screen::new(6, 6);
    let mut backward = Screen::new(6, 6);
    forward.apply_all(&Line::new(PVec2 { x: 0, y: 0 }, PVec2 { x: 2, y: 2 }, '#').draw(&plot));
    backward.apply_all(&Line::new(PVec2 { x: 2, y: 2 }, PVec2 { x: 0, y: 0 }, '#').draw(&plot));
    for x in 0..=6 {
        for y in 0..=6 {
            assert_eq!(forward.get(x, y), backward.get(x, y));
        }
    }
    assert_eq!(forward.get(0, 0), '#');
    assert_eq!(forward.get(1, 1), '#');
    assert_eq!(forward.get(2, 2), ' ');
}

#[test]
fn zero_length_line_is_a_single_point() {
    let plot = full_plot(10, 10);
    let mut screen = Screen::new(10, 10);
    let l = Line::new(PVec2 { x: 3, y: 3 }, PVec2 { x: 3, y: 3 }, '@');
    screen.apply_all(&l.draw(&plot));
    assert_eq!(screen.get(3, 3), '@');
    assert_eq!(screen.get(4, 3), ' ');
    assert_eq!(screen.get(3, 4), ' ');
}

#[test]
fn rect_draws_exactly_the_boundary() {
    let plot = full_plot(10, 8);
    let mut screen = Screen::new(10, 8);
    let r = Rect::new(PVec2 { x: 2, y: 2 }, PVec2 { x: 3, y: 2 }, '#');
    screen.apply_all(&r.draw(&plot));
    for x in 0..=10u16 {
        for y in 0..=8u16 {
            let on_top = y == 2 && (2..5).contains(&x);
            let on_bottom = y == 4 && (2..5).contains(&x);
            let on_left = x == 2 && (2..4).contains(&y);
            let on_right = x == 5 && (2..4).contains(&y);
            let expected = if on_top || on_bottom || on_left || on_right {
                '#'
            } else {
                ' '
            };
            assert_eq!(screen.get(x, y), expected);
        }
    }
}

#[test]
fn rect_does_not_fill_its_interior() {
    let plot = full_plot(12, 12);
    let mut screen = Screen::new(12, 12);
    screen.apply_all(&plot.put('I', &PVec2 { x: 4, y: 4 }));
    let r = Rect::new(PVec2 { x: 2, y: 2 }, PVec2 { x: 5, y: 5 }, '+');
    screen.apply_all(&r.draw(&plot));
    assert_eq!(screen.get(4, 4), 'I');
    assert_eq!(screen.get(2, 2), '+');
    assert_eq!(screen.get(4, 2), '+');
    assert_eq!(screen.get(2, 4), '+');
}

#[test]
fn scaled_viewbox_maps_domain_min_to_origin() {
    let plot = full_plot(40, 40);
    let b = svb(plot);
    let p = b.translate_to_plot(Vec2 { x: 0, y: 0 });
    assert_eq!(p.x, 2);
    assert_eq!(p.y, 3);
}

#[test]
fn scaled_viewbox_maps_domain_max_to_origin_plus_size() {
    let plot = full_plot(40, 40);
    let b = svb(plot);
    let p = b.translate_to_plot(Vec2 { x: 100, y: 50 });
    assert_eq!(p.x, 12);
    assert_eq!(p.y, 23);
}

#[test]
fn scaled_viewbox_scales_interior_values() {
    let plot = full_plot(40, 40);
    let b = svb(plot);
    let p = b.translate_to_plot(Vec2 { x: 50, y: 25 });
    assert_eq!(p.x, 7);
    assert_eq!(p.y, 13);
}

#[test]
fn scaled_viewbox_clamps_domain_overflow() {
    let plot = full_plot(40, 40);
    let b = svb(plot);
    let p = b.translate_to_plot(Vec2 { x: 1000, y: -20 });
    assert_eq!(p.x, 12);
    assert_eq!(p.y, 3);
}

#[test]
fn degenerate_domain_falls_back_to_midpoint() {
    let plot = full_plot(40, 40);
    let b = ScaledViewBox {
        plot,
        position: PVec2 { x: 2, y: 3 },
        size: PVec2 { x: 10, y: 20 },
        x_min: 7,
        x_max: 7,
        y_min: 0,
        y_max: 50,
    };
    let p = b.translate_to_plot(Vec2 { x: 7, y: 0 });
    assert_eq!(p.x, 7);
    assert_eq!(p.y, 3);
}

#[test]
fn viewbox_translates_and_constrains() {
    let plot = full_plot(20, 20);
    let vb = ViewBox {
        plot,
        position: PVec2 { x: 3, y: 3 },
        size: PVec2 { x: 6, y: 6 },
    };
    let inside = vb.translate_to_plot(PVec2 { x: 2, y: 1 });
    assert_eq!(inside.x, 5);
    assert_eq!(inside.y, 4);
    let outside = vb.translate_to_plot(PVec2 { x: 9, y: 9 });
    assert_eq!(outside.x, 6);
    assert_eq!(outside.y, 6);
}

#[test]
fn point_in_scaled_viewbox_lands_on_grid() {
    let plot = full_plot(40, 40);
    let b = svb(plot);
    let p = Point::in_svb(b, Vec2 { x: 100, y: 0 }, 'o');
    let plot2 = full_plot(40, 40);
    let mut screen = Screen::new(40, 40);
    screen.apply_all(&p.draw(&plot2));
    assert_eq!(screen.get(12, 3), 'o');
}
