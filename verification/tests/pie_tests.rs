use pomodoro::phase::Color;
use pomodoro::pie::{effective_offset, glyph_for_offset, Pie, BLOCK_DARK, BLOCK_FULL, BLOCK_LIGHT, BLOCK_MEDIUM};

#[test]
fn glyph_buckets_have_the_fixed_thresholds() {
    assert_eq!(glyph_for_offset(-1), Some(BLOCK_FULL));
    assert_eq!(glyph_for_offset(-29000000), Some(BLOCK_FULL));
    assert_eq!(glyph_for_offset(0), Some(BLOCK_DARK));
    assert_eq!(glyph_for_offset(249), Some(BLOCK_DARK));
    assert_eq!(glyph_for_offset(250), Some(BLOCK_MEDIUM));
    assert_eq!(glyph_for_offset(499), Some(BLOCK_MEDIUM));
    assert_eq!(glyph_for_offset(500), Some(BLOCK_LIGHT));
    assert_eq!(glyph_for_offset(799), Some(BLOCK_LIGHT));
    assert_eq!(glyph_for_offset(800), None);
}

#[test]
fn interior_cells_are_full_blocks() {
    // On the reference 20x10 grid, at fractions 0, 1/2 and 1, every cell
    // whose falloff value is negative carries the full block glyph.
    for fill in [Some(0), Some(500), Some(1000)] {
        let pie = Pie { fill_permille: fill, color: None };
        let frame = pie.render(20, 10);
        for y in 0..10u16 {
            for x in 0..20u16 {
                let off = effective_offset(20, 10, fill, x, y);
                let cell = &frame.rows[y as usize][x as usize];
                assert_eq!(cell.glyph, glyph_for_offset(off));
                if off < 0 {
                    assert_eq!(cell.glyph, Some(BLOCK_FULL));
                }
            }
        }
    }
}

#[test]
fn no_fraction_renders_like_a_full_fraction() {
    let idle = Pie { fill_permille: None, color: None };
    let full = Pie { fill_permille: Some(1000), color: None };
    let over = Pie { fill_permille: Some(1500), color: None };
    assert_eq!(idle.render(20, 10), full.render(20, 10));
    assert_eq!(idle.render(20, 10), over.render(20, 10));
    assert_eq!(idle.render(7, 7), full.render(7, 7));
}

#[test]
fn default_widget_is_the_idle_full_disc() {
    let full = Pie { fill_permille: Some(1000), color: None };
    assert_eq!(Pie::default().render(12, 12), full.render(12, 12));
}

#[test]
fn aspect_correction_compresses_the_midline() {
    // The disc interior at the vertical midline: a 20x10 region keeps a
    // true circle by weighting horizontal distance with height/width, so
    // its midline holds more filled columns than the 10x10 region's, in
    // the square-root-of-two proportion the ratio 1/2 gives.
    let pie = Pie { fill_permille: None, color: None };
    let wide = pie.render(20, 10);
    let square = pie.render(10, 10);
    let count_full = |row: &Vec<pomodoro::pie::Cell>| {
        row.iter().filter(|c| c.glyph == Some(BLOCK_FULL)).count()
    };
    let wide_mid = count_full(&wide.rows[5]);
    let square_mid = count_full(&square.rows[5]);
    assert_eq!(wide_mid, 13);
    assert_eq!(square_mid, 9);
    assert!(wide_mid > square_mid);
}

#[test]
fn cells_carry_the_supplied_color_or_red() {
    let default_color = Pie { fill_permille: Some(250), color: None };
    let green = Pie { fill_permille: Some(250), color: Some(Color::Green) };
    let f1 = default_color.render(8, 8);
    let f2 = green.render(8, 8);
    for y in 0..8usize {
        for x in 0..8usize {
            assert_eq!(f1.rows[y][x].color, Color::Red);
            assert_eq!(f2.rows[y][x].color, Color::Green);
        }
    }
}

#[test]
fn zero_sized_regions_yield_empty_frames() {
    let pie = Pie { fill_permille: Some(500), color: None };
    let no_rows = pie.render(4, 0);
    assert_eq!(no_rows.rows.len(), 0);
    let empty_rows = pie.render(0, 3);
    assert_eq!(empty_rows.rows.len(), 3);
    for row in &empty_rows.rows {
        assert_eq!(row.len(), 0);
    }
}

#[test]
fn zero_fraction_leaves_a_sliver_at_twelve_o_clock() {
    // The literal boundary behavior of the formula: at fraction 0 the only
    // shaded cells sit just clockwise of the 12-o'clock direction.
    let pie = Pie { fill_permille: Some(0), color: None };
    let frame = pie.render(20, 10);
    let shaded: usize = frame
        .rows
        .iter()
        .map(|row| row.iter().filter(|c| c.glyph.is_some()).count())
        .sum();
    assert!(shaded > 0);
    // No cell is a full block: nothing has a negative falloff at fraction 0.
    for row in &frame.rows {
        for c in row {
            assert_ne!(c.glyph, Some(BLOCK_FULL));
        }
    }
}
