//! Engine structure: chunk planning, assembly, dispatch, re-iteration.

use jset_desk::iter::{ChunkRecipe, DispatchStep, Dispatcher, IterMap, IterMapChunk};
use jset_desk::rgb::{ColorMap, ColorMapSpec, GradientSpec, RGB};
use jset_desk::EngineError;

fn spans(v: &[ChunkRecipe]) -> Vec<(usize, usize)> {
    v.iter().map(|c| (c.y_start, c.n_rows)).collect()
}

#[test]
fn plan_even_split() {
    let r = jset_desk::iter::plan_chunks(600, 4);
    assert_eq!(spans(&r), (0..8).map(|i| (i * 75, 75)).collect::<Vec<_>>());
}

#[test]
fn plan_with_remainder() {
    let r = jset_desk::iter::plan_chunks(11, 1);
    assert_eq!(spans(&r), vec![(0, 5), (5, 5), (10, 1)]);
}

#[test]
fn plan_fewer_rows_than_chunks() {
    let r = jset_desk::iter::plan_chunks(10, 16);
    assert_eq!(spans(&r), vec![(0, 10)]);
}

#[test]
fn plan_for_machine_covers_all_rows() {
    let r = jset_desk::iter::plan_chunks_for_machine(123);
    assert!(!r.is_empty());
    assert_eq!(r[0].y_start, 0);
    let mut next = 0;
    for c in &r {
        assert_eq!(c.y_start, next);
        assert!(c.n_rows >= 1);
        next += c.n_rows;
    }
    assert_eq!(next, 123);
}

/// A color map whose first `len` shades are distinct, so counts can be
/// read back out of a colored image.
fn probe_map(len: usize) -> ColorMap {
    let spec = ColorMapSpec::new(
        vec![GradientSpec::new(RGB::black(), RGB::black(), len)],
        RGB::new(9999, 9999, 9999),
    );
    let shades: Vec<RGB> = (0..len).map(|i| RGB::new(i as u32, 0, 0)).collect();
    ColorMap::make(&spec, shades).unwrap()
}

fn counts_of(map: &IterMap, cmap: &ColorMap) -> Vec<u32> {
    let img = map.color(cmap);
    img.to_data().iter().map(|p| p.r).collect()
}

#[test]
fn compile_stitches_in_row_order() {
    let top = IterMapChunk { y_start: 0, n_rows: 1, data: vec![0, 1, 2] };
    let bottom = IterMapChunk { y_start: 1, n_rows: 1, data: vec![3, 4, 5] };
    let m = IterMap::compile(3, 2, 9, vec![bottom, top]).unwrap();
    assert_eq!(m.width(), 3);
    assert_eq!(m.height(), 2);
    assert_eq!(m.limit(), 9);
    let cmap = probe_map(9);
    assert_eq!(counts_of(&m, &cmap), vec![0, 1, 2, 3, 4, 5]);
}

#[test]
fn compile_is_order_independent() {
    let mk = |o: [usize; 3]| {
        let c = |i: usize| IterMapChunk {
            y_start: i,
            n_rows: 1,
            data: vec![i, i + 1],
        };
        IterMap::compile(2, 3, 9, vec![c(o[0]), c(o[1]), c(o[2])]).unwrap()
    };
    let cmap = probe_map(9);
    let a = counts_of(&mk([0, 1, 2]), &cmap);
    let b = counts_of(&mk([2, 0, 1]), &cmap);
    let c = counts_of(&mk([1, 2, 0]), &cmap);
    assert_eq!(a, b);
    assert_eq!(a, c);
}

#[test]
fn compile_rejects_bad_chunk_sets() {
    let c = |y: usize, rows: usize, data: Vec<usize>| IterMapChunk {
        y_start: y,
        n_rows: rows,
        data,
    };
    // A gap: rows [0,1) and [2,3) but nothing covers row 1.
    assert_eq!(
        IterMap::compile(2, 3, 5, vec![c(0, 1, vec![0, 0]), c(2, 1, vec![0, 0])]).err(),
        Some(EngineError::BadChunks)
    );
    // Overlap: both chunks claim row 0.
    assert_eq!(
        IterMap::compile(2, 2, 5, vec![c(0, 1, vec![0, 0]), c(0, 1, vec![0, 0])]).err(),
        Some(EngineError::BadChunks)
    );
    // Wrong payload length.
    assert_eq!(
        IterMap::compile(2, 1, 5, vec![c(0, 1, vec![0, 0, 0])]).err(),
        Some(EngineError::BadChunks)
    );
    // A count above the limit.
    assert_eq!(
        IterMap::compile(2, 1, 5, vec![c(0, 1, vec![0, 6])]).err(),
        Some(EngineError::BadChunks)
    );
    // Degenerate dimensions.
    assert_eq!(IterMap::compile(0, 1, 5, vec![]).err(), Some(EngineError::BadChunks));
    // The happy case for contrast.
    assert!(IterMap::compile(2, 1, 5, vec![c(0, 1, vec![0, 5])]).is_ok());
}

fn two_by_two(counts: [usize; 4], limit: usize) -> IterMap {
    let chunk = IterMapChunk { y_start: 0, n_rows: 2, data: counts.to_vec() };
    IterMap::compile(2, 2, limit, vec![chunk]).unwrap()
}

#[test]
fn pending_points_lists_alive_pixels() {
    let m = two_by_two([0, 3, 2, 3], 3);
    assert_eq!(m.pending_points(), vec![(1, 0), (1, 1)]);
    let none = two_by_two([0, 1, 2, 1], 3);
    assert_eq!(none.pending_points(), vec![]);
}

#[test]
fn reiterate_extends_only_pending_pixels() {
    let mut m = two_by_two([0, 3, 2, 3], 3);
    let cmap = probe_map(9);
    assert_eq!(m.reiterate_with(5, &vec![4, 5]), Ok(()));
    assert_eq!(m.limit(), 5);
    assert_eq!(counts_of(&m, &cmap), vec![0, 4, 2, 5]);
}

#[test]
fn reiterate_to_lower_limit_is_a_no_op() {
    let mut m = two_by_two([0, 3, 2, 3], 3);
    let cmap = probe_map(9);
    assert_eq!(m.reiterate_with(3, &vec![]), Ok(()));
    assert_eq!(m.reiterate_with(2, &vec![]), Ok(()));
    assert_eq!(m.limit(), 3);
    assert_eq!(counts_of(&m, &cmap), vec![0, 3, 2, 3]);
}

#[test]
fn reiterate_rejects_wrong_fresh_batches() {
    let mut m = two_by_two([0, 3, 2, 3], 3);
    // One fresh value for two pending pixels.
    assert_eq!(m.reiterate_with(5, &vec![4]), Err(EngineError::BadFreshCounts));
    // A fresh value above the new limit.
    assert_eq!(m.reiterate_with(5, &vec![4, 6]), Err(EngineError::BadFreshCounts));
    // The map is untouched by the failures.
    let cmap = probe_map(9);
    assert_eq!(m.limit(), 3);
    assert_eq!(counts_of(&m, &cmap), vec![0, 3, 2, 3]);
}

#[test]
fn dispatcher_keeps_at_most_workers_in_flight() {
    let jobs = vec![
        ChunkRecipe { y_start: 0, n_rows: 2 },
        ChunkRecipe { y_start: 2, n_rows: 2 },
        ChunkRecipe { y_start: 4, n_rows: 1 },
    ];
    let mut d = Dispatcher::new(jobs, 2);
    // Two slots: two dispatches, then it must wait.
    let s1 = d.next();
    assert!(matches!(s1, DispatchStep::Dispatch(j) if j.y_start == 4));
    let s2 = d.next();
    assert!(matches!(s2, DispatchStep::Dispatch(j) if j.y_start == 2));
    assert!(matches!(d.next(), DispatchStep::Await));
    // A completion frees a slot for the last job.
    assert!(d.completed());
    let s3 = d.next();
    assert!(matches!(s3, DispatchStep::Dispatch(j) if j.y_start == 0));
    // No work left, two in flight: wait, wait, done.
    assert!(matches!(d.next(), DispatchStep::Await));
    assert!(d.completed());
    assert!(matches!(d.next(), DispatchStep::Await));
    assert!(d.completed());
    assert!(matches!(d.next(), DispatchStep::Finished));
    assert!(!d.completed());
}
