use mslicer::raster::{outline_crossings, rasterize_layer, Crossing};
use mslicer::rle::{decode_layer_pixels, Run};

fn c(position: u64, facing: bool, intensity: u8) -> Crossing {
    Crossing { position, facing, intensity }
}

fn run(length: u64, value: u8) -> Run {
    Run { length, value }
}

#[test]
fn outline_drops_crossings_inside_overlapping_solids() {
    // `<- <- -> ->` becomes `<- ->`
    let row = vec![c(1, true, 10), c(2, true, 20), c(5, false, 20), c(7, false, 10)];
    assert_eq!(outline_crossings(&row), vec![c(1, true, 10), c(7, false, 10)]);
}

#[test]
fn outline_keeps_separate_solids() {
    let row = vec![c(1, true, 1), c(3, false, 1), c(5, true, 2), c(6, false, 2)];
    assert_eq!(outline_crossings(&row), row);
}

#[test]
fn outline_of_inward_facing_outline() {
    // a cavity seen from outside: depth goes negative and back
    let row = vec![c(1, false, 1), c(4, true, 1)];
    assert_eq!(outline_crossings(&row), row);
}

#[test]
fn outline_of_empty_row() {
    assert_eq!(outline_crossings(&Vec::new()), Vec::<Crossing>::new());
}

#[test]
fn rasterize_single_span() {
    let rows = vec![vec![c(1, true, 200), c(3, false, 200)]];
    let (runs, voxels) = rasterize_layer(5, &rows);
    assert_eq!(runs, vec![run(1, 0), run(2, 200), run(2, 0)]);
    assert_eq!(voxels, 2);
}

#[test]
fn rasterize_pads_empty_layer() {
    let rows = vec![Vec::new(), Vec::new(), Vec::new()];
    let (runs, voxels) = rasterize_layer(4, &rows);
    assert_eq!(runs, vec![run(12, 0)]);
    assert_eq!(voxels, 0);
}

#[test]
fn rasterize_no_pixels() {
    let (runs, voxels) = rasterize_layer(0, &vec![Vec::new()]);
    assert!(runs.is_empty());
    assert_eq!(voxels, 0);
}

#[test]
fn rasterize_spans_across_rows() {
    // row 0 lit up to its end, row 1 lit from its start: the gap run joins them
    let rows = vec![
        vec![c(2, true, 9), c(4, false, 9)],
        vec![c(0, true, 9), c(1, false, 9)],
    ];
    let (runs, voxels) = rasterize_layer(4, &rows);
    assert_eq!(runs, vec![run(2, 0), run(2, 9), run(1, 9), run(3, 0)]);
    assert_eq!(voxels, 3);
}

#[test]
fn rasterize_full_layer_needs_no_padding() {
    let rows = vec![vec![c(0, true, 1), c(3, false, 1)], vec![c(0, true, 2), c(3, false, 2)]];
    let (runs, voxels) = rasterize_layer(3, &rows);
    assert_eq!(runs, vec![run(3, 1), run(3, 2)]);
    assert_eq!(voxels, 6);
}

#[test]
fn rasterize_skips_empty_spans_and_unpaired_crossing() {
    // a zero-width span lights nothing; a lone last crossing is ignored
    let rows = vec![vec![c(2, true, 5), c(2, false, 5), c(3, true, 7)]];
    let (runs, voxels) = rasterize_layer(6, &rows);
    assert_eq!(runs, vec![run(6, 0)]);
    assert_eq!(voxels, 0);
}

#[test]
fn rasterize_merges_overlapping_models() {
    let rows = vec![vec![c(1, true, 100), c(2, true, 50), c(4, false, 50), c(6, false, 100)]];
    let (runs, voxels) = rasterize_layer(8, &rows);
    assert_eq!(runs, vec![run(1, 0), run(5, 100), run(2, 0)]);
    assert_eq!(voxels, 5);
    assert!(runs.iter().all(|r| r.length > 0));
}

#[test]
fn rasterize_two_spans_in_a_row() {
    let rows = vec![vec![c(0, true, 3), c(2, false, 3), c(2, true, 4), c(5, false, 4)]];
    let (runs, voxels) = rasterize_layer(6, &rows);
    assert_eq!(runs, vec![run(2, 3), run(3, 4), run(1, 0)]);
    assert_eq!(voxels, 5);
}

#[test]
fn decoding_a_rasterized_layer_gives_the_image() {
    let rows = vec![
        vec![c(1, true, 8), c(3, false, 8)],
        Vec::new(),
        vec![c(0, true, 2), c(1, false, 2), c(2, true, 6), c(4, false, 6)],
    ];
    let (runs, _) = rasterize_layer(4, &rows);
    let pixels = decode_layer_pixels(&runs, 4, 3);
    assert_eq!(pixels, vec![0, 8, 8, 0, 0, 0, 0, 0, 2, 0, 6, 6]);
}

#[test]
fn outline_twice_is_outline_once() {
    let row = vec![
        c(0, false, 1),
        c(1, false, 1),
        c(2, true, 1),
        c(3, true, 1),
        c(4, true, 2),
        c(6, false, 2),
    ];
    let once = outline_crossings(&row);
    assert_eq!(once, vec![c(0, false, 1), c(3, true, 1), c(4, true, 2), c(6, false, 2)]);
    assert_eq!(outline_crossings(&once), once);
}

#[test]
fn balanced_row_keeps_an_even_number_of_crossings() {
    let row = vec![c(0, true, 1), c(1, true, 1), c(2, false, 1), c(3, true, 1), c(4, false, 1), c(5, false, 1)];
    assert_eq!(outline_crossings(&row).len() % 2, 0);
    let unbalanced = vec![c(0, true, 1), c(1, true, 1), c(2, false, 1)];
    assert_eq!(outline_crossings(&unbalanced).len() % 2, 1);
}

fn lit_pixels(runs: &[Run]) -> Vec<bool> {
    runs.iter().flat_map(|r| std::iter::repeat(r.value != 0).take(r.length as usize)).collect()
}

#[test]
fn two_models_light_the_union() {
    // model a lit on [1, 4), model b on [3, 6), both at full intensity
    let a = vec![c(1, true, 255), c(4, false, 255)];
    let b = vec![c(3, true, 255), c(6, false, 255)];
    let both = vec![c(1, true, 255), c(3, true, 255), c(4, false, 255), c(6, false, 255)];
    let (ra, va) = rasterize_layer(8, &vec![a]);
    let (rb, vb) = rasterize_layer(8, &vec![b]);
    let (rm, vm) = rasterize_layer(8, &vec![both]);
    let (la, lb, lm) = (lit_pixels(&ra), lit_pixels(&rb), lit_pixels(&rm));
    for x in 0..8 {
        assert_eq!(lm[x], la[x] || lb[x]);
    }
    assert!(va.max(vb) <= vm && vm <= va + vb);
    assert_eq!(vm, 5);
}

#[test]
fn duplicated_model_lights_the_same_pixels() {
    // a row that leaves and re-enters the model at column 3
    let a = vec![c(1, true, 255), c(3, false, 255), c(3, true, 255), c(5, false, 255)];
    let twice = vec![
        c(1, true, 255),
        c(1, true, 255),
        c(3, false, 255),
        c(3, true, 255),
        c(3, false, 255),
        c(3, true, 255),
        c(5, false, 255),
        c(5, false, 255),
    ];
    let (ra, va) = rasterize_layer(6, &vec![a]);
    let (rm, vm) = rasterize_layer(6, &vec![twice]);
    // the runs differ (two spans against one), the lit pixels do not
    assert_eq!(ra, vec![run(1, 0), run(2, 255), run(2, 255), run(1, 0)]);
    assert_eq!(rm, vec![run(1, 0), run(4, 255), run(1, 0)]);
    assert_eq!(lit_pixels(&ra), lit_pixels(&rm));
    assert_eq!(va, vm);
}

#[test]
fn two_inward_facing_models_light_the_union() {
    // faces pointing the other way: the depth goes below zero inside each model
    let a = vec![c(1, false, 255), c(4, true, 255)];
    let b = vec![c(3, false, 255), c(6, true, 255)];
    let both = vec![c(1, false, 255), c(3, false, 255), c(4, true, 255), c(6, true, 255)];
    let (ra, va) = rasterize_layer(8, &vec![a]);
    let (rb, vb) = rasterize_layer(8, &vec![b]);
    let (rm, vm) = rasterize_layer(8, &vec![both]);
    let (la, lb, lm) = (lit_pixels(&ra), lit_pixels(&rb), lit_pixels(&rm));
    for x in 0..8 {
        assert_eq!(lm[x], la[x] || lb[x]);
    }
    assert_eq!(rm, vec![run(1, 0), run(5, 255), run(2, 0)]);
    assert!(va.max(vb) <= vm && vm <= va + vb);
}
