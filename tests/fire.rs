use fire_sim::color_maps::{to_colors, ColorMap, GrayColorMap, ListedColorMap, Rgba, ValueToColor};
use fire_sim::cooling_maps::update_cooling_map;
use fire_sim::engine::{check_configs, ConfigError, FireEngine};
use fire_sim::fire_handler::{seed_fire, smooth_and_cool};
use fire_sim::fire_mask::{fire_mask_from_draws, generate_fire_mask};
use std::collections::VecDeque;

fn expected_cell(orig: &[u8], cooling: &[u8], w: usize, h: usize, fire_height: usize, x: usize, y: usize) -> u8 {
    let sum = orig[x + (y - 1) * w] as u32
        + orig[x + (y + 1) * w] as u32
        + orig[x - 1 + y * w] as u32
        + orig[x + 1 + y * w] as u32;
    let avg = sum / 4;
    if y < h - fire_height {
        avg.saturating_sub(cooling[x + y * w] as u32) as u8
    } else {
        avg as u8
    }
}

fn pattern(n: usize, mul: usize, add: usize) -> Vec<u8> {
    (0..n).map(|i| ((i * mul + add) % 256) as u8).collect()
}

#[test]
fn seed_fire_lights_bottom_rows() {
    let (w, h) = (4, 3);
    let mut buf = vec![7u8; w * h];
    let mask = vec![true, false, true, false, false, true, false, false];
    seed_fire(&mut buf, w, h, &mask);
    assert_eq!(buf, vec![7, 7, 7, 7, 7, 255, 7, 7, 255, 7, 255, 7]);
}

#[test]
fn seed_fire_ignores_partial_mask_row() {
    let (w, h) = (3, 3);
    let mut buf = vec![0u8; w * h];
    seed_fire(&mut buf, w, h, &[true, true, true, true]);
    assert_eq!(buf, vec![0, 0, 0, 0, 0, 0, 255, 255, 255]);
}

#[test]
fn seed_fire_twice_changes_nothing() {
    let (w, h) = (5, 4);
    let mut buf = pattern(w * h, 37, 11);
    let mask = vec![true, false, false, true, true, false, true, false, true, false];
    seed_fire(&mut buf, w, h, &mask);
    let once = buf.clone();
    seed_fire(&mut buf, w, h, &mask);
    assert_eq!(buf, once);
}

#[test]
fn smooth_and_cool_follows_formula() {
    let (w, h) = (6, 5);
    let orig = pattern(w * h, 53, 9);
    let cooling = pattern(w * h, 17, 3);
    let prev = pattern(w * h, 7, 200);
    for &(yshift, fire_height) in &[(0usize, 0usize), (1, 1), (1, 2), (2, 5), (0, 3)] {
        let mut new = prev.clone();
        let field: VecDeque<u8> = cooling.iter().copied().collect();
        smooth_and_cool(&orig, &mut new, w, h, yshift, &field, fire_height);
        for y in 0..h {
            for x in 0..w {
                let src = y + yshift;
                let want = if x >= 1 && x + 1 < w && src >= 1 && src + 1 < h {
                    expected_cell(&orig, &cooling, w, h, fire_height, x, src)
                } else {
                    prev[x + y * w]
                };
                assert_eq!(new[x + y * w], want, "x={x} y={y} yshift={yshift} fh={fire_height}");
            }
        }
    }
}

#[test]
fn smooth_and_cool_saturates_at_zero() {
    let (w, h) = (3, 3);
    let orig = vec![0, 100, 0, 40, 0, 40, 0, 100, 0];
    let mut new = vec![9u8; 9];
    let field: VecDeque<u8> = vec![255u8; 9].into_iter().collect();
    smooth_and_cool(&orig, &mut new, w, h, 0, &field, 0);
    assert_eq!(new[4], 0);
    let field: VecDeque<u8> = vec![10u8; 9].into_iter().collect();
    smooth_and_cool(&orig, &mut new, w, h, 0, &field, 0);
    assert_eq!(new[4], 70 - 10);
    smooth_and_cool(&orig, &mut new, w, h, 0, &field, 3);
    assert_eq!(new[4], 70);
    assert_eq!(new[0], 9);
}

#[test]
fn end_to_end_five_by_five() {
    let (w, h) = (5, 5);
    let mut buf = vec![0u8; w * h];
    seed_fire(&mut buf, w, h, &vec![true; w]);
    assert_eq!(&buf[20..25], &[255, 255, 255, 255, 255]);
    let field: VecDeque<u8> = vec![0u8; w * h].into_iter().collect();
    let mut next = vec![0u8; w * h];
    smooth_and_cool(&buf, &mut next, w, h, 1, &field, 1);
    let zeros = vec![0u8; w * h];
    for x in 1..4 {
        let want = expected_cell(&buf, &zeros, w, h, 1, x, h - 2);
        assert_eq!(want, (0 + 255 + 0 + 0) / 4);
        assert_eq!(next[x + (h - 3) * w], want);
    }
    assert_eq!(next[0 + 2 * w], 0);
    assert_eq!(next[4 + 2 * w], 0);
}

#[test]
fn full_mask_and_empty_mask() {
    let m = generate_fire_mask(40, 100, 2);
    assert_eq!(m.len(), 80);
    assert!(m.iter().all(|&b| b));
    let m = generate_fire_mask(40, 0, 1);
    assert_eq!(m.len(), 40);
    assert!(m.iter().all(|&b| !b));
}

#[test]
fn generated_mask_rows_repeat() {
    let m = generate_fire_mask(30, 50, 3);
    assert_eq!(m.len(), 90);
    for i in 0..90 {
        assert_eq!(m[i], m[i % 30]);
    }
}

#[test]
fn mask_from_draws_compares_with_fill() {
    let m = fire_mask_from_draws(&[0, 49, 50, 99], 50, 2);
    assert_eq!(m, vec![true, true, false, false, true, true, false, false]);
    assert!(fire_mask_from_draws(&[3, 4], 9, 0).is_empty());
}

#[test]
fn cooling_update_scrolls_one_row() {
    let (w, h) = (3, 2);
    let mut field: VecDeque<u8> = (1..=6).collect();
    update_cooling_map(&mut field, w, h, &[7, 8, 9]);
    assert_eq!(field.len(), w * h);
    assert_eq!(field.iter().copied().collect::<Vec<u8>>(), vec![4, 5, 6, 7, 8, 9]);
}

#[test]
fn cooling_full_scroll_replaces_every_cell() {
    let (w, h) = (4, 3);
    let mut field: VecDeque<u8> = vec![0xAA; w * h].into_iter().collect();
    let rows: Vec<Vec<u8>> = (0..h).map(|r| (0..w).map(|x| (r * 10 + x) as u8).collect()).collect();
    for row in &rows {
        update_cooling_map(&mut field, w, h, row);
        assert_eq!(field.len(), w * h);
    }
    let want: Vec<u8> = rows.concat();
    assert_eq!(field.iter().copied().collect::<Vec<u8>>(), want);
    assert!(field.iter().all(|&v| v != 0xAA));
}

#[test]
fn config_errors() {
    assert_eq!(check_configs(2, 10, 50, 1), Err(ConfigError::ViewportTooSmall));
    assert_eq!(check_configs(10, 0, 50, 1), Err(ConfigError::ViewportTooSmall));
    assert_eq!(check_configs(usize::MAX, 3, 50, 1), Err(ConfigError::ViewportTooLarge));
    assert_eq!(check_configs(10, 10, 101, 1), Err(ConfigError::FillPercentageOutOfRange));
    assert_eq!(check_configs(10, 10, 100, 11), Err(ConfigError::BaseHeightTooLarge));
    assert_eq!(check_configs(10, 10, 100, 10), Ok(()));
    assert_eq!(check_configs(3, 3, 0, 0), Ok(()));
}

#[test]
fn engine_frame_matches_parts() {
    let (w, h) = (6, 5);
    let mask = vec![true, false, true, true, false, true];
    let cooling = pattern(w * h, 3, 1);
    let mut engine = FireEngine::new(w, h, 1, 1, mask.clone(), cooling.iter().copied().collect());
    assert_eq!(engine.scroll_position(), 0);

    let mut current = vec![0u8; w * h];
    let mut scratch = vec![0u8; w * h];
    seed_fire(&mut current, w, h, &mask);
    assert_eq!(engine.heat(), current.as_slice());
    let mut field: VecDeque<u8> = cooling.iter().copied().collect();

    for frame in 0..4u8 {
        let row: Vec<u8> = (0..w as u8).map(|x| x + frame).collect();
        engine.frame(&row);
        smooth_and_cool(&current, &mut scratch, w, h, 1, &field, 1);
        seed_fire(&mut scratch, w, h, &mask);
        update_cooling_map(&mut field, w, h, &row);
        current.copy_from_slice(&scratch);
        assert_eq!(engine.heat(), current.as_slice());
        assert_eq!(engine.cooling_field(), &field);
        assert_eq!(engine.scroll_position(), frame as u64 + 1);
    }
}

#[test]
fn engine_runs_are_deterministic() {
    let (w, h) = (8, 6);
    let mask = fire_mask_from_draws(&[1, 60, 20, 90, 5, 45, 70, 10], 50, 2);
    let cooling = pattern(w * h, 11, 4);
    let mut a = FireEngine::new(w, h, 1, 2, mask.clone(), cooling.iter().copied().collect());
    let mut b = FireEngine::new(w, h, 1, 2, mask, cooling.iter().copied().collect());
    for frame in 0..10usize {
        let row = pattern(w, 5, frame);
        a.frame(&row);
        b.frame(&row);
        assert_eq!(a.heat(), b.heat());
    }
}

#[test]
fn gray_map_repeats_value() {
    let m = GrayColorMap::new();
    assert_eq!(m.value_to_color(77, None), Rgba { r: 77, g: 77, b: 77, a: 255 });
    assert_eq!(m.value_to_color(0, Some(12)), Rgba { r: 0, g: 0, b: 0, a: 12 });
}

#[test]
fn listed_map_reads_table() {
    let mut lut = [[0u8; 3]; 256];
    for (i, e) in lut.iter_mut().enumerate() {
        *e = [i as u8, (255 - i) as u8, (i / 2) as u8];
    }
    let m = ListedColorMap::new(lut);
    assert_eq!(m.value_to_color(10, None), Rgba { r: 10, g: 245, b: 5, a: 255 });
    assert_eq!(m.value_to_color(255, Some(1)), Rgba { r: 255, g: 0, b: 127, a: 1 });
    let any = ColorMap::Listed(ListedColorMap::new(lut));
    assert_eq!(to_colors(&any, &[0, 200]), vec![
        Rgba { r: 0, g: 255, b: 0, a: 255 },
        Rgba { r: 200, g: 55, b: 100, a: 255 },
    ]);
    let gray = ColorMap::Gray(GrayColorMap::new());
    assert_eq!(to_colors(&gray, &[5]), vec![Rgba { r: 5, g: 5, b: 5, a: 255 }]);
}
