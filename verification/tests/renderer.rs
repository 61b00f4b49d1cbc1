//! Renderer tests against table-backed evaluators, where every expected
//! value is known in advance.

use boundary_trace::CalcInfo;
use boundary_trace::TableEval;
use boundary_trace::calc_rect;

fn table(w: u16, h: u16, cells: Vec<u16>, outside: u16) -> TableEval {
    assert_eq!(cells.len(), w as usize * h as usize);
    TableEval { width: w, height: h, cells, outside }
}

fn render_table(w: u16, h: u16, cells: Vec<u16>, max_itr: u16) -> Vec<u16> {
    let eval = table(w, h, cells, 0);
    calc_rect(CalcInfo::new(0, 0, w as u32, h as u32, max_itr, eval))
}

#[test]
fn constant_tile_renders_flat() {
    let out = render_table(6, 5, vec![7u16; 30], 10);
    assert_eq!(out, vec![7u16; 30]);
}

#[test]
fn vertical_split_is_reproduced_exactly() {
    let w = 8u16;
    let h = 6u16;
    let mut cells = Vec::new();
    for _y in 0..h {
        for x in 0..w {
            cells.push(if x < 4 { 2u16 } else { 5u16 });
        }
    }
    let out = render_table(w, h, cells.clone(), 9);
    assert_eq!(out, cells);
}

#[test]
fn horizontal_split_is_reproduced_exactly() {
    let w = 7u16;
    let h = 7u16;
    let mut cells = Vec::new();
    for y in 0..h {
        for _x in 0..w {
            cells.push(if y < 3 { 1u16 } else { 4u16 });
        }
    }
    let out = render_table(w, h, cells.clone(), 9);
    assert_eq!(out, cells);
}

#[test]
fn ring_cells_equal_direct_evaluation() {
    let w = 9u16;
    let h = 7u16;
    let mut cells = Vec::new();
    for y in 0..h as usize {
        for x in 0..w as usize {
            cells.push((((x * 7) + (y * 13) + 3) % 11) as u16);
        }
    }
    let out = render_table(w, h, cells.clone(), 11);
    for y in 0..h as usize {
        for x in 0..w as usize {
            if x == 0 || x == w as usize - 1 || y == 0 || y == h as usize - 1 {
                assert_eq!(out[y * w as usize + x], cells[y * w as usize + x]);
            }
        }
    }
}

#[test]
fn identical_requests_render_identically() {
    let w = 9u16;
    let h = 8u16;
    let mut cells = Vec::new();
    for y in 0..h as usize {
        for x in 0..w as usize {
            cells.push(((x * x + y * 3) % 6) as u16);
        }
    }
    let a = render_table(w, h, cells.clone(), 6);
    let b = render_table(w, h, cells, 6);
    assert_eq!(a, b);
}

#[test]
fn degenerate_width_one_is_exact() {
    let cells = vec![3u16, 1, 4, 1, 5];
    let out = render_table(1, 5, cells.clone(), 6);
    assert_eq!(out, cells);
}

#[test]
fn degenerate_height_one_is_exact() {
    let cells = vec![9u16, 2, 6, 5, 3, 5];
    let out = render_table(6, 1, cells.clone(), 9);
    assert_eq!(out, cells);
}

#[test]
fn single_pixel_tile_is_exact() {
    let out = render_table(1, 1, vec![8u16], 8);
    assert_eq!(out, vec![8u16]);
}

#[test]
fn hidden_interior_island_is_filled_over() {
    // An island of different values strictly inside a flat region never
    // touches a ring discontinuity, so the tracer never finds it and the
    // filler reconstructs the surrounding flat value instead.
    let w = 7u16;
    let h = 7u16;
    let mut cells = vec![1u16; 49];
    cells[3 * 7 + 3] = 9;
    let out = render_table(w, h, cells, 9);
    assert_eq!(out, vec![1u16; 49]);
}

#[test]
fn every_output_entry_is_a_table_value() {
    let w = 8u16;
    let h = 8u16;
    let mut cells = Vec::new();
    for y in 0..h as usize {
        for x in 0..w as usize {
            cells.push(((x + 2 * y) % 5) as u16 * 2);
        }
    }
    let out = render_table(w, h, cells.clone(), 8);
    assert_eq!(out.len(), 64);
    for v in &out {
        assert!(cells.contains(v));
        assert!(*v <= 8);
    }
}

#[test]
fn tile_origin_offsets_the_lookup() {
    // With a nonzero origin the evaluator is sampled at absolute pixel
    // coordinates; a table evaluator anchored at the origin then shows a
    // shifted window of its contents.
    let mut cells = Vec::new();
    for y in 0..6u16 {
        for x in 0..6u16 {
            cells.push(y * 6 + x);
        }
    }
    let eval = table(6, 6, cells, 0);
    let out = calc_rect(CalcInfo::new(2, 3, 3, 2, 40, eval));
    assert_eq!(out, vec![3 * 6 + 2, 3 * 6 + 3, 3 * 6 + 4, 4 * 6 + 2, 4 * 6 + 3, 4 * 6 + 4]);
}

#[test]
fn table_outside_value_fills_unmapped_pixels() {
    let eval = table(2, 2, vec![1, 2, 3, 4], 6);
    let out = calc_rect(CalcInfo::new(10, 10, 3, 3, 6, eval));
    assert_eq!(out, vec![6u16; 9]);
}

#[test]
fn incoherent_table_dimensions_fall_back_to_outside() {
    let eval = TableEval { width: 4, height: 4, cells: vec![5u16; 3], outside: 2 };
    let out = calc_rect(CalcInfo::new(0, 0, 3, 3, 5, eval));
    assert_eq!(out, vec![2u16; 9]);
}
