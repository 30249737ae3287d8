//! The tiled renderer and the compute driver: decomposition, ordering,
//! coverage, determinism, cancellation and resumption.

use std::sync::atomic::{AtomicUsize, Ordering};

use disson::cache::file::{FileCache, FileCacheEntry};
use disson::cache::CacheKey;
use disson::cancel::CancelToken;
use disson::map::{compute, partition_records, CacheKey as MapCacheKey, CacheValue as MapCacheValue, Config, DissonMap, GridPoint, ViewTransform};
use disson::tile_renderer::{
    sort_tile_order, tiles_for, BackBuffer, TileRange, TileRenderFunction, TileRenderer, Vec2u,
};

/// A deterministic toy kernel: each cell gets a value derived from its
/// absolute coordinates. It also counts its invocations and can trip a
/// cancellation token after a set number of tiles.
struct TestKernel<'a> {
    calls: AtomicUsize,
    cancel_after: usize,
    token: Option<&'a CancelToken>,
}

impl<'a> TestKernel<'a> {
    fn new() -> Self {
        TestKernel { calls: AtomicUsize::new(0), cancel_after: usize::MAX, token: None }
    }

    fn cancelling(token: &'a CancelToken, after: usize) -> Self {
        TestKernel { calls: AtomicUsize::new(0), cancel_after: after, token: Some(token) }
    }

    fn calls(&self) -> usize {
        self.calls.load(Ordering::SeqCst)
    }
}

fn cell_value(x: u64, y: u64) -> u64 {
    y.wrapping_mul(100003).wrapping_add(x).wrapping_mul(2654435761)
}

impl<'a> TileRenderFunction for TestKernel<'a> {
    fn process(&self, _size: Vec2u, range: TileRange, _input: &Vec<GridPoint>, out: &mut Vec<u64>) {
        for r in 0..range.size.y as u64 {
            for c in 0..range.size.x as u64 {
                out.push(cell_value(range.pos.x as u64 + c, range.pos.y as u64 + r));
            }
        }
        let n = self.calls.fetch_add(1, Ordering::SeqCst) + 1;
        if n >= self.cancel_after {
            if let Some(t) = self.token {
                t.set();
            }
        }
    }
}

fn grid(size: Vec2u) -> Vec<GridPoint> {
    (0..(size.x as u64 * size.y as u64)).map(|i| GridPoint { x_bits: i, y_bits: i }).collect()
}

fn expected_map(size: Vec2u) -> Vec<u64> {
    let mut out = Vec::new();
    for y in 0..size.y as u64 {
        for x in 0..size.x as u64 {
            out.push(cell_value(x, y));
        }
    }
    out
}

fn test_key() -> CacheKey {
    let cfg = Config {
        size: Vec2u { x: 256, y: 256 },
        view: ViewTransform::identity(),
        base_hz_bits: 440.0f64.to_bits(),
        pitch: disson::algo::PitchCurve::Erb,
        overlap: disson::algo::OverlapCurve::ExpDiss,
    };
    CacheKey::MapDomain(MapCacheKey(cfg))
}

fn entry() -> FileCacheEntry {
    FileCache(None).entry(&test_key(), b"1.0.0".to_vec())
}

fn config(w: u32, h: u32) -> Config {
    Config {
        size: Vec2u { x: w, y: h },
        view: ViewTransform::identity(),
        base_hz_bits: 440.0f64.to_bits(),
        pitch: disson::algo::PitchCurve::Erb,
        overlap: disson::algo::OverlapCurve::ExpDiss,
    }
}

#[test]
fn decomposition_covers_256_by_256_in_four_tiles() {
    let size = Vec2u { x: 256, y: 256 };
    let tiles = tiles_for(size);
    assert_eq!(tiles.len(), 4);
    assert_eq!(tiles[0], TileRange { pos: Vec2u { x: 0, y: 0 }, size: Vec2u { x: 128, y: 128 } });
    assert_eq!(tiles[1], TileRange { pos: Vec2u { x: 128, y: 0 }, size: Vec2u { x: 128, y: 128 } });
    assert_eq!(tiles[2], TileRange { pos: Vec2u { x: 0, y: 128 }, size: Vec2u { x: 128, y: 128 } });
    assert_eq!(tiles[3], TileRange {
        pos: Vec2u { x: 128, y: 128 },
        size: Vec2u { x: 128, y: 128 },
    });
}

#[test]
fn decomposition_clips_the_edges() {
    let size = Vec2u { x: 300, y: 100 };
    let tiles = tiles_for(size);
    assert_eq!(tiles.len(), 3);
    assert_eq!(tiles[2], TileRange { pos: Vec2u { x: 256, y: 0 }, size: Vec2u { x: 44, y: 100 } });
}

#[test]
fn order_is_center_out_with_row_major_ties() {
    // 256×256: all four tile centers are equidistant from the output
    // center, so ties break row-major.
    let order = sort_tile_order(Vec2u { x: 256, y: 256 }, 4);
    assert_eq!(order, vec![0, 1, 2, 3]);
    // 300×100: the middle tile is nearest the center, the clipped right
    // tile farthest.
    let order2 = sort_tile_order(Vec2u { x: 300, y: 100 }, 3);
    assert_eq!(order2, vec![1, 0, 2]);
}

#[test]
fn blit_writes_exactly_the_tile_cells() {
    let mut buf = BackBuffer::new(Vec2u { x: 4, y: 3 });
    let tile = vec![1u64, 2, 3, 4];
    buf.blit(
        &TileRange { pos: Vec2u { x: 1, y: 1 }, size: Vec2u { x: 2, y: 2 } },
        tile.as_slice(),
    );
    let data = buf.into_inner();
    assert_eq!(data, vec![0, 0, 0, 0, 0, 1, 2, 0, 0, 3, 4, 0]);
}

#[test]
fn run_fills_every_cell_once() {
    let size = Vec2u { x: 300, y: 100 };
    let kernel = TestKernel::new();
    let input = grid(size);
    let renderer = TileRenderer::new(kernel);
    let out = renderer.run(size, &input, &Vec::new(), &CancelToken::new()).ok().unwrap();
    assert_eq!(out, expected_map(size));
    assert_eq!(renderer.f.calls(), 3);
}

#[test]
fn run_is_order_independent_and_preload_independent() {
    let size = Vec2u { x: 256, y: 256 };
    let input = grid(size);
    let full = TileRenderer::new(TestKernel::new())
        .run(size, &input, &Vec::new(), &CancelToken::new())
        .ok()
        .unwrap();

    // Preload one tile with exactly the kernel's payload for it: the result
    // must be bit-identical, with one kernel call saved.
    let tiles = tiles_for(size);
    let pre_range = tiles[2];
    let mut payload = Vec::new();
    for r in 0..pre_range.size.y as u64 {
        for c in 0..pre_range.size.x as u64 {
            payload.push(cell_value(pre_range.pos.x as u64 + c, pre_range.pos.y as u64 + r));
        }
    }
    let renderer = TileRenderer::new(TestKernel::new());
    let preloads = vec![(pre_range, payload)];
    let partial = renderer.run(size, &input, &preloads, &CancelToken::new()).ok().unwrap();
    assert_eq!(partial, full);
    assert_eq!(renderer.f.calls(), 3);
}

#[test]
fn run_honors_a_pre_set_token() {
    let size = Vec2u { x: 256, y: 256 };
    let token = CancelToken::new();
    token.set();
    let renderer = TileRenderer::new(TestKernel::new());
    let r = renderer.run(size, &grid(size), &Vec::new(), &token);
    assert!(r.is_err());
}

#[test]
fn compute_renders_and_caches_blocks_then_histogram() {
    // A full pass on an empty cache: four blocks, then one histogram.
    let size = Vec2u { x: 256, y: 256 };
    let cfg = config(256, 256);
    let input = grid(size);
    let mut e = entry();
    let kernel = TestKernel::new();
    let map = compute(&mut e, &cfg, &input, &kernel, &CancelToken::new()).ok().unwrap();
    assert_eq!(map.size, size);
    assert_eq!(map.data, expected_map(size));
    assert_eq!(kernel.calls(), 4);
    let image = e.finish().unwrap();

    let mut check = entry();
    check.open(image.clone()).unwrap();
    let vals = check.read();
    assert_eq!(vals.len(), 5);
    let hist_count = vals
        .iter()
        .filter(|v| matches!(v, disson::cache::CacheValue::MapDomain(MapCacheValue::Histogram)))
        .count();
    assert_eq!(hist_count, 1);

    // A second pass over the same cache renders nothing and appends one
    // more histogram; the map is bit-identical.
    let mut e2 = entry();
    e2.open(image).unwrap();
    let kernel2 = TestKernel::new();
    let map2: DissonMap = compute(&mut e2, &cfg, &input, &kernel2, &CancelToken::new())
        .ok()
        .unwrap();
    assert_eq!(map2.data, map.data);
    assert_eq!(kernel2.calls(), 0);
    let image2 = e2.finish().unwrap();
    let mut check2 = entry();
    check2.open(image2).unwrap();
    let vals2 = check2.read();
    assert_eq!(vals2.len(), 6);
}

#[test]
fn cancelled_pass_keeps_its_blocks_and_resumes_to_the_same_map() {
    // Cancel after two tiles: the runner sees a clean cancellation, the
    // cache keeps exactly the two blocks and no histogram, and a resumed
    // pass renders only the remaining two tiles, ending with the same map
    // an uninterrupted pass computes.
    let size = Vec2u { x: 256, y: 256 };
    let cfg = config(256, 256);
    let input = grid(size);
    let token = CancelToken::new();
    let mut e = entry();
    let kernel = TestKernel::cancelling(&token, 2);
    let r = compute(&mut e, &cfg, &input, &kernel, &token);
    assert!(r.is_err());
    assert_eq!(kernel.calls(), 2);
    let image = e.finish().unwrap();

    let mut check = entry();
    check.open(image.clone()).unwrap();
    let vals = check.read();
    assert_eq!(vals.len(), 2);
    assert!(vals.iter().all(|v| matches!(
        v,
        disson::cache::CacheValue::MapDomain(MapCacheValue::Block(_, _))
    )));

    let mut e2 = entry();
    e2.open(image).unwrap();
    let kernel2 = TestKernel::new();
    let map2 = compute(&mut e2, &cfg, &input, &kernel2, &CancelToken::new()).ok().unwrap();
    assert_eq!(kernel2.calls(), 2);
    assert_eq!(map2.data, expected_map(size));
}

#[test]
fn partition_keeps_the_last_block_per_range_and_filters_bad_sizes() {
    let r1 = TileRange { pos: Vec2u { x: 0, y: 0 }, size: Vec2u { x: 2, y: 1 } };
    let vals = vec![
        disson::cache::CacheValue::MapDomain(MapCacheValue::Block(r1, vec![1, 2])),
        disson::cache::CacheValue::MapDomain(MapCacheValue::Histogram),
        disson::cache::CacheValue::MapDomain(MapCacheValue::Block(r1, vec![3, 4])),
        // Wrong payload size for its range: filtered out.
        disson::cache::CacheValue::MapDomain(MapCacheValue::Block(
            TileRange { pos: Vec2u { x: 9, y: 9 }, size: Vec2u { x: 2, y: 2 } },
            vec![5],
        )),
    ];
    let (preloads, hist) = partition_records(vals);
    assert!(hist);
    assert_eq!(preloads.len(), 1);
    assert_eq!(preloads[0].0, r1);
    assert_eq!(preloads[0].1, vec![3, 4]);
}
