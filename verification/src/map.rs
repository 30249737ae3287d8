//! The dissonance-map compute domain: its job configuration (whose canonical
//! serialization keys the cache), the records it persists, and the compute
//! driver that ties cache, renderer and kernel together.

use vstd::prelude::*;

use crate::algo::{OverlapCurve, PitchCurve};
use crate::tile_renderer::{TileRange, Vec2u};

verus! {

/// One input cell of the render grid: the two pitch coordinates, carried as
/// IEEE 754 bit patterns. The library never interprets them numerically.
#[derive(Clone, Copy, PartialEq, Eq, Structural, Debug)]
pub struct GridPoint {
    pub x_bits: u64,
    pub y_bits: u64,
}

/// A 2-D affine view transform over the logical unit square: a row-major
/// 3×3 matrix of IEEE 754 bit patterns. The driver currently always uses the
/// identity.
#[derive(Clone, Copy, PartialEq, Eq, Structural, Debug)]
pub struct ViewTransform {
    pub m00: u64,
    pub m01: u64,
    pub m02: u64,
    pub m10: u64,
    pub m11: u64,
    pub m12: u64,
    pub m20: u64,
    pub m21: u64,
    pub m22: u64,
}

/// The bit pattern of the floating-point value one.
pub const F64_ONE_BITS: u64 = 0x3FF0000000000000;

impl ViewTransform {
    /// The matrix entries in row-major order.
    pub open spec fn entries(self) -> Seq<u64> {
        seq![self.m00, self.m01, self.m02, self.m10, self.m11, self.m12, self.m20, self.m21, self.m22]
    }

    pub open spec fn is_identity(self) -> bool {
        self == ViewTransform::identity_spec()
    }

    pub open spec fn identity_spec() -> Self {
        ViewTransform {
            m00: F64_ONE_BITS,
            m01: 0u64,
            m02: 0u64,
            m10: 0u64,
            m11: F64_ONE_BITS,
            m12: 0u64,
            m20: 0u64,
            m21: 0u64,
            m22: F64_ONE_BITS,
        }
    }

    /// The identity transform.
    pub fn identity() -> (r: Self)
        ensures
            r.is_identity(),
    {
        ViewTransform {
            m00: F64_ONE_BITS,
            m01: 0,
            m02: 0,
            m10: 0,
            m11: F64_ONE_BITS,
            m12: 0,
            m20: 0,
            m21: 0,
            m22: F64_ONE_BITS,
        }
    }
}

/// The fingerprinted job configuration for one compute pass.
#[derive(Clone, Copy, PartialEq, Eq, Structural, Debug)]
pub struct Config {
    /// Output size `(W, H)`.
    pub size: Vec2u,
    /// View transform over the logical unit square.
    pub view: ViewTransform,
    /// Base frequency in Hz, as an IEEE 754 bit pattern.
    pub base_hz_bits: u64,
    /// Selected pitch curve.
    pub pitch: PitchCurve,
    /// Selected overlap curve.
    pub overlap: OverlapCurve,
}

impl Config {
    /// Builds the compute configuration for a generate pass: the configured
    /// size and curves, the identity view, and the configured base frequency.
    pub fn for_generate(cfg: &crate::config::MapConfig) -> (r: Self)
        ensures
            r.size == (Vec2u { x: cfg.width, y: cfg.height }),
            r.view.is_identity(),
            r.base_hz_bits == cfg.base_frequency_bits,
            r.pitch == cfg.pitch_curve,
            r.overlap == cfg.overlap_curve,
    {
        Config {
            size: Vec2u { x: cfg.width, y: cfg.height },
            view: ViewTransform::identity(),
            base_hz_bits: cfg.base_frequency_bits,
            pitch: cfg.pitch_curve,
            overlap: cfg.overlap_curve,
        }
    }
}

/// The cache key of the map domain: the full job configuration.
#[derive(Clone, Copy, Debug)]
pub struct CacheKey(pub Config);

/// One record of the map domain's cache stream: either a rendered tile block
/// (range plus row-major payload of sample bit patterns), or the terminating
/// histogram marker that a completed, uncancelled pass appends last.
#[derive(Clone, Debug)]
pub enum CacheValue {
    Block(TileRange, Vec<u64>),
    Histogram,
}

/// Mathematical image of a map-domain cache record.
pub enum CacheValueV {
    Block(TileRange, Seq<u64>),
    Histogram,
}

impl View for CacheValue {
    type V = CacheValueV;

    open spec fn view(&self) -> CacheValueV {
        match self {
            CacheValue::Block(range, data) => CacheValueV::Block(*range, data@),
            CacheValue::Histogram => CacheValueV::Histogram,
        }
    }
}

/// A rendered map: its size and the row-major samples, as bit patterns.
pub struct DissonMap {
    pub size: Vec2u,
    pub data: Vec<u64>,
}

/// The payload of the last well-sized block record for `range`, if any:
/// later records shadow earlier ones, and a block whose payload does not
/// match its range's area is filtered out by this read path.
pub open spec fn last_block(vs: Seq<crate::cache::CacheValueV>, range: TileRange) -> Option<
    Seq<u64>,
>
    decreases vs.len(),
{
    if vs.len() == 0 {
        None
    } else {
        match vs.last() {
            crate::cache::CacheValueV::MapDomain(CacheValueV::Block(r, d)) => if r == range
                && d.len() == r.area() {
                Some(d)
            } else {
                last_block(vs.drop_last(), range)
            },
            _ => last_block(vs.drop_last(), range),
        }
    }
}

/// The block records a pass appends while processing the first `upto`
/// tiles of `order`: one per tile that had no preload, carrying exactly the
/// kernel's payload for it.
pub open spec fn rendered_blocks<F: crate::tile_renderer::TileRenderFunction>(
    f: F,
    size: Vec2u,
    input: Seq<GridPoint>,
    pl: Seq<(TileRange, Seq<u64>)>,
    order: Seq<usize>,
    upto: int,
) -> Seq<crate::cache::CacheValueV>
    decreases upto,
{
    if upto <= 0 {
        Seq::empty()
    } else {
        let pre = rendered_blocks(f, size, input, pl, order, upto - 1);
        let t = crate::tile_renderer::tile_spec(size, order[upto - 1] as int);
        if crate::tile_renderer::preload_lookup(pl, t) is None {
            pre.push(
                crate::cache::CacheValueV::MapDomain(
                    CacheValueV::Block(t, f.out_spec(size, t, input)),
                ),
            )
        } else {
            pre
        }
    }
}

/// Whether any record of the stream is a histogram marker.
pub open spec fn has_histogram(vs: Seq<crate::cache::CacheValueV>) -> bool
    decreases vs.len(),
{
    if vs.len() == 0 {
        false
    } else {
        (match vs.last() {
            crate::cache::CacheValueV::MapDomain(mv) => mv is Histogram,
        }) || has_histogram(vs.drop_last())
    }
}

/// The first pair whose key is `range` yields the lookup result.
proof fn lemma_lookup_at(pl: Seq<(TileRange, Seq<u64>)>, range: TileRange, j: int)
    requires
        0 <= j < pl.len(),
        pl[j].0 == range,
        forall|m: int| 0 <= m < j ==> (#[trigger] pl[m]).0 != range,
    ensures
        crate::tile_renderer::preload_lookup(pl, range) == Some(pl[j].1),
    decreases j,
{
    if j == 0 {
    } else {
        assert(pl[0].0 != range);
        lemma_lookup_at(pl.drop_first(), range, j - 1);
        assert(pl.drop_first()[j - 1] == pl[j]);
    }
}

/// With no pair keyed by `range`, the lookup yields nothing.
proof fn lemma_lookup_absent(pl: Seq<(TileRange, Seq<u64>)>, range: TileRange)
    requires
        forall|m: int| 0 <= m < pl.len() ==> (#[trigger] pl[m]).0 != range,
    ensures
        crate::tile_renderer::preload_lookup(pl, range) is None,
    decreases pl.len(),
{
    if pl.len() > 0 {
        lemma_lookup_absent(pl.drop_first(), range);
    }
}

/// Replacing the payload at one key leaves other keys' lookups unchanged.
proof fn lemma_lookup_update(
    pl: Seq<(TileRange, Seq<u64>)>,
    j: int,
    d2: Seq<u64>,
    range2: TileRange,
)
    requires
        0 <= j < pl.len(),
        range2 != pl[j].0,
    ensures
        crate::tile_renderer::preload_lookup(pl.update(j, (pl[j].0, d2)), range2)
            == crate::tile_renderer::preload_lookup(pl, range2),
    decreases j,
{
    let pl2 = pl.update(j, (pl[j].0, d2));
    if j == 0 {
        assert(pl2[0].0 == pl[0].0);
        assert(pl2.drop_first() =~= pl.drop_first());
    } else {
        assert(pl2[0] == pl[0]);
        if pl[0].0 != range2 {
            assert(pl2.drop_first() =~= pl.drop_first().update(j - 1, (pl[j].0, d2)));
            assert(pl.drop_first()[j - 1] == pl[j]);
            lemma_lookup_update(pl.drop_first(), j - 1, d2, range2);
        }
    }
}

/// Appending a pair only affects the lookup of its own key, and only when
/// that key was absent.
proof fn lemma_lookup_push(
    pl: Seq<(TileRange, Seq<u64>)>,
    p: (TileRange, Seq<u64>),
    range2: TileRange,
)
    ensures
        crate::tile_renderer::preload_lookup(pl.push(p), range2) == (
        match crate::tile_renderer::preload_lookup(pl, range2) {
            Some(d) => Some(d),
            None => if p.0 == range2 {
                Some(p.1)
            } else {
                None
            },
        }),
    decreases pl.len(),
{
    if pl.len() == 0 {
        assert(pl.push(p)[0] == p);
        assert(pl.push(p).drop_first() =~= Seq::<(TileRange, Seq<u64>)>::empty());
        assert(crate::tile_renderer::preload_lookup(
            Seq::<(TileRange, Seq<u64>)>::empty(),
            range2,
        ) is None);
    } else {
        assert(pl.push(p)[0] == pl[0]);
        assert(pl.push(p).drop_first() =~= pl.drop_first().push(p));
        lemma_lookup_push(pl.drop_first(), p, range2);
    }
}

/// Splits decoded cache records into tile preloads and the histogram flag.
/// Later blocks for the same range shadow earlier ones; blocks whose
/// payload length does not match their range are dropped here, before the
/// renderer ever sees them. The second result reports whether any
/// histogram record was present (a completed earlier pass).
pub fn partition_records(vals: Vec<crate::cache::CacheValue>) -> (r: (
    Vec<(TileRange, Vec<u64>)>,
    bool,
))
    ensures
        forall|range: TileRange|
            crate::tile_renderer::preload_lookup(
                crate::tile_renderer::pl_views(r.0@),
                range,
            ) == last_block(crate::cache::file::seq_views(vals@), range),
        forall|i: int| 0 <= i < r.0@.len() ==> (#[trigger] r.0@[i]).1@.len() == r.0@[i].0.area(),
        r.1 == has_histogram(crate::cache::file::seq_views(vals@)),
{
    let mut vals = vals;
    let ghost all = crate::cache::file::seq_views(vals@);
    let mut acc: Vec<(TileRange, Vec<u64>)> = Vec::new();
    let mut hist = false;
    let ghost mut i: int = 0;
    while vals.len() > 0
        invariant
            0 <= i <= all.len(),
            i + vals@.len() == all.len(),
            crate::cache::file::seq_views(vals@) == all.skip(i),
            forall|a: int, b: int| 0 <= a < b < acc@.len() ==> (#[trigger] acc@[a]).0 != (
            #[trigger] acc@[b]).0,
            forall|m: int| 0 <= m < acc@.len() ==> (#[trigger] acc@[m]).1@.len() == acc@[m].0.area(),
            forall|range: TileRange|
                crate::tile_renderer::preload_lookup(
                    crate::tile_renderer::pl_views(acc@),
                    range,
                ) == last_block(all.take(i), range),
            hist == has_histogram(all.take(i)),
        decreases vals@.len(),
    {
        let ghost vals_pre = vals@;
        let v = vals.remove(0);
        proof {
            assert(v@ == all[i]) by {
                assert(crate::cache::file::seq_views(vals_pre)[0] == vals_pre[0]@);
            }
            assert(vals@ =~= vals_pre.drop_first());
            assert forall|m: int|
                0 <= m < vals@.len() implies crate::cache::file::seq_views(vals@)[m] == all.skip(
                i + 1,
            )[m] by {
                assert(crate::cache::file::seq_views(vals@)[m] == vals@[m]@);
                assert(crate::cache::file::seq_views(vals_pre)[m + 1] == vals_pre[m + 1]@);
                assert(all.skip(i)[m + 1] == all[i + 1 + m]);
                assert(all.skip(i + 1)[m] == all[i + 1 + m]);
            }
            assert(crate::cache::file::seq_views(vals@) =~= all.skip(i + 1));
            assert(all.take(i + 1).last() == all[i]);
            assert(all.take(i + 1).drop_last() =~= all.take(i));
        }
        let ghost acc_pre = acc@;
        match v {
            crate::cache::CacheValue::MapDomain(mv) => match mv {
                CacheValue::Block(range, data) => {
                    proof {
                        assert((range.size.x as u64) * (range.size.y as u64) <= u64::MAX
                            && (range.size.x as u64) * (range.size.y as u64) == range.area())
                            by (nonlinear_arith)
                            requires
                                (range.size.x as u64) < 0x1_0000_0000u64,
                                (range.size.y as u64) < 0x1_0000_0000u64,
                        ;
                    }
                    let area: u64 = (range.size.x as u64) * (range.size.y as u64);
                    if data.len() as u64 == area {
                        // Well-sized block: keep it, shadowing any earlier
                        // block of the same range.
                        let mut j: usize = 0;
                        while j < acc.len()
                            invariant
                                j <= acc@.len(),
                                acc@ == acc_pre,
                                forall|m: int| 0 <= m < j ==> (#[trigger] acc@[m]).0 != range,
                            ensures
                                j <= acc@.len(),
                                acc@ == acc_pre,
                                forall|m: int| 0 <= m < j ==> (#[trigger] acc@[m]).0 != range,
                                j < acc@.len() ==> acc@[j as int].0 == range,
                            decreases acc@.len() - j,
                        {
                            if crate::tile_renderer::ranges_eq(&acc[j].0, &range) {
                                break ;
                            }
                            j = j + 1;
                        }
                        if j < acc.len() {
                            acc.set(j, (range, data));
                            proof {
                                let plv = crate::tile_renderer::pl_views(acc_pre);
                                let plv2 = crate::tile_renderer::pl_views(acc@);
                                assert(plv2 =~= plv.update(j as int, (range, all_block_data(
                                    all[i],
                                ))));
                                assert forall|range2: TileRange|
                                    crate::tile_renderer::preload_lookup(plv2, range2)
                                        == last_block(all.take(i + 1), range2) by {
                                    if range2 == range {
                                        lemma_lookup_at(plv2, range2, j as int);
                                    } else {
                                        assert(plv[j as int].0 == range);
                                        lemma_lookup_update(
                                            plv,
                                            j as int,
                                            all_block_data(all[i]),
                                            range2,
                                        );
                                    }
                                }
                            }
                        } else {
                            acc.push((range, data));
                            proof {
                                let plv = crate::tile_renderer::pl_views(acc_pre);
                                let plv2 = crate::tile_renderer::pl_views(acc@);
                                assert(plv2 =~= plv.push((range, all_block_data(all[i]))));
                                assert forall|range2: TileRange|
                                    crate::tile_renderer::preload_lookup(plv2, range2)
                                        == last_block(all.take(i + 1), range2) by {
                                    lemma_lookup_push(
                                        plv,
                                        (range, all_block_data(all[i])),
                                        range2,
                                    );
                                    if range2 == range {
                                        lemma_lookup_absent(plv, range2);
                                    }
                                }
                            }
                        }
                    } else {
                        // Mis-sized block: filtered out on the read path.
                    }
                },
                CacheValue::Histogram => {
                    hist = true;
                },
            },
        }
        proof {
            i = i + 1;
        }
    }
    proof {
        assert(all.take(all.len() as int) == all);
    }
    (acc, hist)
}

/// The payload carried by a block record.
pub open spec fn all_block_data(v: crate::cache::CacheValueV) -> Seq<u64> {
    match v {
        crate::cache::CacheValueV::MapDomain(CacheValueV::Block(_, d)) => d,
        _ => Seq::empty(),
    }
}

/// The preload association matching a record stream: lookups agree with
/// `last_block` at every range, and every payload is well-sized.
pub open spec fn pl_matches(
    vs: Seq<crate::cache::CacheValueV>,
    pl: Seq<(TileRange, Seq<u64>)>,
) -> bool {
    &&& forall|range: TileRange|
        crate::tile_renderer::preload_lookup(pl, range) == last_block(vs, range)
    &&& forall|i: int| 0 <= i < pl.len() ==> (#[trigger] pl[i]).1.len() == pl[i].0.area()
}

/// The records one read of this entry hands the driver.
pub open spec fn read_records_of(e: crate::cache::file::FileCacheEntry) -> Seq<
    crate::cache::CacheValueV,
> {
    if e.is_open() {
        crate::cache::file::dec_payload(e.payload()).records
    } else {
        Seq::empty()
    }
}

/// A processing order: some permutation of the decomposition tiles.
pub open spec fn valid_order(order: Seq<usize>, size: Vec2u) -> bool {
    &&& order.len() == crate::tile_renderer::tile_count(size)
    &&& (forall|j: int| 0 <= j < order.len() ==> (#[trigger] order[j]) < order.len())
    &&& order.no_duplicates()
}

/// Cancellation is monotone: the blocks of a pass cancelled after `u1`
/// tiles are a prefix of those of any longer (or complete) pass — once the
/// token is observed, no later tile's block ever appears.
pub proof fn lemma_rendered_blocks_prefix<F: crate::tile_renderer::TileRenderFunction>(
    f: F,
    size: Vec2u,
    input: Seq<GridPoint>,
    pl: Seq<(TileRange, Seq<u64>)>,
    order: Seq<usize>,
    u1: int,
    u2: int,
)
    requires
        u1 <= u2,
    ensures
        rendered_blocks(f, size, input, pl, order, u1).is_prefix_of(
            rendered_blocks(f, size, input, pl, order, u2),
        ),
    decreases u2 - u1,
{
    if u1 < u2 {
        lemma_rendered_blocks_prefix(f, size, input, pl, order, u1, u2 - 1);
    }
}

/// Every well-sized block a pass appends carries exactly the kernel's
/// payload for its own tile: whatever `last_block` recovers from such a
/// stream is a kernel output.
pub proof fn lemma_last_block_of_rendered<F: crate::tile_renderer::TileRenderFunction>(
    f: F,
    size: Vec2u,
    input: Seq<GridPoint>,
    pl: Seq<(TileRange, Seq<u64>)>,
    order: Seq<usize>,
    upto: int,
    t: TileRange,
)
    ensures
        last_block(rendered_blocks(f, size, input, pl, order, upto), t) matches Some(p) ==> p
            == f.out_spec(size, t, input),
    decreases upto,
{
    if upto > 0 {
        let pre = rendered_blocks(f, size, input, pl, order, upto - 1);
        let cur = rendered_blocks(f, size, input, pl, order, upto);
        let tj = crate::tile_renderer::tile_spec(size, order[upto - 1] as int);
        lemma_last_block_of_rendered(f, size, input, pl, order, upto - 1, t);
        if crate::tile_renderer::preload_lookup(pl, tj) is None {
            assert(cur.last() == crate::cache::CacheValueV::MapDomain(
                CacheValueV::Block(tj, f.out_spec(size, tj, input)),
            ));
            assert(cur.drop_last() =~= pre);
        } else {
            assert(cur == pre);
        }
    }
}

/// A trailing histogram marker never changes which block is recovered: a
/// completed pass's records preload exactly like a cancelled one's.
pub proof fn lemma_last_block_skips_histogram(vs: Seq<crate::cache::CacheValueV>, t: TileRange)
    ensures
        last_block(
            vs.push(crate::cache::CacheValueV::MapDomain(CacheValueV::Histogram)),
            t,
        ) == last_block(vs, t),
{
    let vs2 = vs.push(crate::cache::CacheValueV::MapDomain(CacheValueV::Histogram));
    assert(vs2.last() == crate::cache::CacheValueV::MapDomain(CacheValueV::Histogram));
    assert(vs2.drop_last() =~= vs);
}

/// Resume: a pass preloaded with exactly the blocks an earlier pass left
/// behind — cancelled or not — ends with the same map an uninterrupted
/// pass computes, cell for cell.
pub proof fn lemma_resume_from_cancelled<F: crate::tile_renderer::TileRenderFunction>(
    f: F,
    size: Vec2u,
    input: Seq<GridPoint>,
    order: Seq<usize>,
    upto: int,
    pl2: Seq<(TileRange, Seq<u64>)>,
)
    requires
        pl_matches(
            rendered_blocks(
                f,
                size,
                input,
                Seq::<(TileRange, Seq<u64>)>::empty(),
                order,
                upto,
            ),
            pl2,
        ),
    ensures
        forall|x: int, y: int|
            0 <= x < size.x && 0 <= y < size.y ==> #[trigger] crate::tile_renderer::cell_spec(
                f,
                size,
                input,
                pl2,
                x,
                y,
            ) == crate::tile_renderer::cell_spec(
                f,
                size,
                input,
                Seq::<(TileRange, Seq<u64>)>::empty(),
                x,
                y,
            ),
{
    assert forall|t: TileRange| (match #[trigger] crate::tile_renderer::preload_lookup(pl2, t) {
        Some(p) => p == f.out_spec(size, t, input),
        None => true,
    }) by {
        lemma_last_block_of_rendered(
            f,
            size,
            input,
            Seq::<(TileRange, Seq<u64>)>::empty(),
            order,
            upto,
            t,
        );
    }
    crate::tile_renderer::lemma_resume_equivalence(f, size, input, pl2);
}

/// Runs one compute pass over a cache entry: reads and partitions the
/// entry's records, renders the map center-out with tiles preloaded from
/// the cache, appends each freshly rendered tile block to the entry as soon
/// as it is filled, and finally — only if the pass was not cancelled —
/// appends the terminating histogram record.
///
/// On success the returned map is pointwise `cell_spec` over preloads that
/// match (via `last_block`) exactly the records read back, so the map is a
/// pure function of kernel, size, grid and the blocks already cached; and
/// the entry gained exactly the freshly rendered blocks, in processing
/// order, plus the histogram. On cancellation no histogram is appended and
/// the blocks appended so far form a prefix of the processing order, so a
/// resumed pass preloads exactly them.
#[verifier::rlimit(100)]
pub fn compute<F: crate::tile_renderer::TileRenderFunction>(
    entry: &mut crate::cache::file::FileCacheEntry,
    cfg: &Config,
    input: &Vec<GridPoint>,
    kernel: &F,
    cancel: &crate::cancel::CancelToken,
) -> (r: crate::cancel::CancelResult<DissonMap>)
    requires
        old(entry).wf(),
        old(entry).is_open() || old(entry).is_unopened(),
        cfg.size.x > 0,
        cfg.size.y > 0,
        cfg.size.area() <= usize::MAX,
        crate::tile_renderer::tile_count(cfg.size) <= usize::MAX,
        input@.len() == cfg.size.area(),
    ensures
        final(entry).wf(),
        !final(entry).is_closed(),
        final(entry).version() == old(entry).version(),
        final(entry).key_bytes() == old(entry).key_bytes(),
        r matches Err(e) ==> e is Cancelled,
        r matches Ok(map) ==> map.size == cfg.size && map.data@.len() == cfg.size.area() && (
        exists|pl: Seq<(TileRange, Seq<u64>)>|
            #[trigger] pl_matches(read_records_of(*old(entry)), pl) && (forall|x: int, y: int|
                0 <= x < cfg.size.x && 0 <= y < cfg.size.y ==> #[trigger] map.data@[y * cfg.size.x
                    + x] == crate::tile_renderer::cell_spec(*kernel, cfg.size, input@, pl, x, y))),
        (old(entry).is_unopened() || crate::cache::file::dec_payload(
            old(entry).payload(),
        ).clean) ==> (exists|pl: Seq<(TileRange, Seq<u64>)>, order: Seq<usize>, upto: int|
            pl_matches(read_records_of(*old(entry)), pl) && valid_order(
                order,
                cfg.size,
            ) && 0 <= upto <= order.len() && (r is Ok ==> upto == order.len()) && final(entry).records() == read_records_of(*old(entry)) + #[trigger] rendered_blocks(
                *kernel,
                cfg.size,
                input@,
                pl,
                order,
                upto,
            ) + (if r is Ok {
                seq![crate::cache::CacheValueV::MapDomain(CacheValueV::Histogram)]
            } else {
                Seq::empty()
            })),
{
    let size = cfg.size;
    proof {
        old(entry).lemma_state();
        entry.lemma_state();
    }
    // Read what earlier passes left behind, and partition it.
    let vals = entry.read();
    proof {
        entry.lemma_state();
    }
    let ghost read_records = crate::cache::file::seq_views(vals@);
    let (preloads, _hist) = partition_records(vals);
    let ghost plv = crate::tile_renderer::pl_views(preloads@);
    let ghost base = entry.records();
    proof {
        assert(pl_matches(read_records, plv));
        if old(entry).is_unopened() {
            assert(read_records =~= read_records_of(*old(entry)));
            assert(base =~= Seq::<crate::cache::CacheValueV>::empty());
        } else {
            assert(read_records == read_records_of(*old(entry)));
            if crate::cache::file::dec_payload(old(entry).payload()).clean {
                assert(base == read_records_of(*old(entry)));
            }
        }
        assert(!entry.is_closed());
    }
    // The input grid is already materialized; honor a cancellation that
    // arrived while it was being prepared.
    let early_cancel = match cancel.try_strong() {
        Ok(()) => false,
        Err(_) => true,
    };
    let n: usize = crate::tile_renderer::tile_total(size);
    let order = crate::tile_renderer::sort_tile_order(size, n);
    if early_cancel {
        proof {
            assert(valid_order(order@, size));
            assert(base + rendered_blocks(*kernel, size, input@, plv, order@, 0)
                + Seq::<crate::cache::CacheValueV>::empty() =~= base);
        }
        return Err(crate::cancel::CancelError::Cancelled);
    }
    let mut buf = crate::tile_renderer::BackBuffer::new(size);
    proof {
        assert forall|x: int, y: int|
            0 <= x < size.x && 0 <= y < size.y implies #[trigger] buf.data@[y * size.x + x]
            == 0u64 by {
            crate::tile_renderer::lemma_row_major(size.x as int, x, y, x, y);
            assert(0 <= y * size.x + x < size.area()) by (nonlinear_arith)
                requires
                    0 <= x < size.x,
                    0 <= y < size.y,
            ;
        }
    }
    let mut done: usize = 0;
    let mut cancelled = false;
    while done < n && !cancelled
        invariant
            done <= n,
            size == cfg.size,
            size.x > 0,
            size.y > 0,
            size.area() <= usize::MAX,
            n == crate::tile_renderer::tile_count(size),
            input@.len() == size.area(),
            plv == crate::tile_renderer::pl_views(preloads@),
            forall|i: int| 0 <= i < plv.len() ==> (#[trigger] plv[i]).1.len() == plv[i].0.area(),
            order@.len() == n,
            forall|j: int| 0 <= j < order@.len() ==> (#[trigger] order@[j]) < n,
            buf.wf(),
            buf.size == size,
            entry.wf(),
            !entry.is_closed(),
            entry.version() == old(entry).version(),
            entry.key_bytes() == old(entry).key_bytes(),
            entry.records() == base + rendered_blocks(
                *kernel,
                size,
                input@,
                plv,
                order@,
                done as int,
            ),
            forall|x: int, y: int|
                0 <= x < size.x && 0 <= y < size.y ==> #[trigger] buf.data@[y * size.x + x] == (
                if crate::tile_renderer::covered(size, order@, done as int, x, y) {
                    crate::tile_renderer::cell_spec(*kernel, size, input@, plv, x, y)
                } else {
                    0u64
                }),
        decreases n - done,
    {
        let k = order[done];
        proof {
            crate::tile_renderer::lemma_tile_wf(size, k as int);
        }
        let range = crate::tile_renderer::tile_at(size, k);
        let ghost pre_data = buf.data@;
        let ghost pre_records = entry.records();
        match crate::tile_renderer::find_preload(&preloads, &range) {
            Some(i) => {
                proof {
                    assert(plv[i as int] == (preloads@[i as int].0, preloads@[i as int].1@));
                }
                buf.blit(&range, preloads[i].1.as_slice());
            },
            None => {
                let mut out: Vec<u64> = Vec::new();
                kernel.process(size, range, input, &mut out);
                buf.blit(&range, out.as_slice());
                proof {
                    assert(out@.len() <= 16384) by (nonlinear_arith)
                        requires
                            out@.len() == range.size.x * range.size.y,
                            0 < range.size.x <= 128,
                            0 < range.size.y <= 128,
                    ;
                }
                let v = crate::cache::CacheValue::MapDomain(CacheValue::Block(range, out));
                proof {
                    assert(crate::codec::wf_value(v@));
                }
                entry.append(&v);
                proof {
                    entry.lemma_state();
                }
            },
        }
        done = done + 1;
        match cancel.try_weak() {
            Ok(()) => {},
            Err(_) => {
                cancelled = true;
            },
        }
        proof {
            assert(rendered_blocks(*kernel, size, input@, plv, order@, done as int) == (
            if crate::tile_renderer::preload_lookup(
                plv,
                crate::tile_renderer::tile_spec(size, order@[done - 1] as int),
            ) is None {
                rendered_blocks(*kernel, size, input@, plv, order@, done - 1).push(
                    crate::cache::CacheValueV::MapDomain(
                        CacheValueV::Block(
                            crate::tile_renderer::tile_spec(size, order@[done - 1] as int),
                            kernel.out_spec(
                                size,
                                crate::tile_renderer::tile_spec(size, order@[done - 1] as int),
                                input@,
                            ),
                        ),
                    ),
                )
            } else {
                rendered_blocks(*kernel, size, input@, plv, order@, done - 1)
            }));
            assert(entry.records() == base + rendered_blocks(
                *kernel,
                size,
                input@,
                plv,
                order@,
                done as int,
            )) by {
                if crate::tile_renderer::preload_lookup(
                    plv,
                    crate::tile_renderer::tile_spec(size, order@[done - 1] as int),
                ) is None {
                    assert(entry.records() =~= base + rendered_blocks(
                        *kernel,
                        size,
                        input@,
                        plv,
                        order@,
                        done as int,
                    ));
                }
            }
            assert forall|x: int, y: int|
                0 <= x < size.x && 0 <= y < size.y implies #[trigger] buf.data@[y * size.x + x]
                == (if crate::tile_renderer::covered(size, order@, done as int, x, y) {
                crate::tile_renderer::cell_spec(*kernel, size, input@, plv, x, y)
            } else {
                0u64
            }) by {
                let range2 = crate::tile_renderer::tile_spec(size, k as int);
                if range2.contains(x, y) {
                    crate::tile_renderer::lemma_tile_in_bounds_pub(size, k as int, x, y);
                    crate::tile_renderer::lemma_tile_cover(size, x, y);
                    assert(crate::tile_renderer::tile_index_of(size, x, y) == k);
                    assert(crate::tile_renderer::covered(size, order@, done as int, x, y)) by {
                        assert(crate::tile_renderer::tile_spec(
                            size,
                            (order@[done - 1]) as int,
                        ).contains(x, y));
                    }
                } else {
                    assert(buf.data@[y * size.x + x] == pre_data[y * size.x + x]);
                    assert(crate::tile_renderer::covered(size, order@, done as int, x, y)
                        == crate::tile_renderer::covered(size, order@, done - 1, x, y)) by {
                        if crate::tile_renderer::covered(size, order@, done as int, x, y) {
                            let j = choose|j: int|
                                0 <= j < done && crate::tile_renderer::tile_spec(
                                    size,
                                    (#[trigger] order@[j]) as int,
                                ).contains(x, y);
                            if j == done - 1 {
                                assert(false);
                            } else {
                                assert(crate::tile_renderer::covered(
                                    size,
                                    order@,
                                    done - 1,
                                    x,
                                    y,
                                ));
                            }
                        }
                    }
                }
            }
        }
    }
    if cancelled {
        proof {
            assert(valid_order(order@, size));
        }
        return Err(crate::cancel::CancelError::Cancelled);
    }
    match cancel.try_strong() {
        Ok(()) => {},
        Err(_) => {
            proof {
                assert(valid_order(order@, size));
            }
            return Err(crate::cancel::CancelError::Cancelled);
        },
    }
    let v = crate::cache::CacheValue::MapDomain(CacheValue::Histogram);
    entry.append(&v);
    proof {
        entry.lemma_state();
        assert(entry.records() =~= base + rendered_blocks(
            *kernel,
            size,
            input@,
            plv,
            order@,
            n as int,
        ) + seq![crate::cache::CacheValueV::MapDomain(CacheValueV::Histogram)]);
        assert forall|x: int, y: int|
            0 <= x < size.x && 0 <= y < size.y implies crate::tile_renderer::covered(
            size,
            order@,
            n as int,
            x,
            y,
        ) by {
            crate::tile_renderer::lemma_tile_cover(size, x, y);
            let kc = crate::tile_renderer::tile_index_of(size, x, y);
            assert(order@.contains(kc as usize));
            let j = choose|j: int| 0 <= j < order@.len() && order@[j] == kc as usize;
            assert(crate::tile_renderer::tile_spec(size, (order@[j]) as int).contains(x, y));
        }
    }
    Ok(DissonMap { size, data: buf.into_inner() })
}

} // verus!
