//! Judging a canvas: how visible its seams are, what it repeats, and how sharp it is.

use vstd::prelude::*;

use crate::boundary::{
    count_pair_risk, countable, distinct_assigned_sources, handoffs, occurrences, on_boundary,
    risky_pairs, risky_pairs_are_handoffs, single_source_has_no_boundary, source_boundary_map,
    tally, tally_counts_every_pair, tally_keeps_the_order_of_first_meetings, SourcePairCount,
};
use crate::buffers::RgbImage;
use crate::canvas::same_size;
use crate::components::{
    are_components, components_come_largest_first, gives_mean, groups, large_groups,
    risky_components, takes_values, RiskyComponent,
};
use crate::duplicates::{
    detect_duplicates, is_duplicate_report, takes_feature, takes_features, takes_rects,
    DuplicateReport,
};
use crate::grid::{
    count_where, lemma_count_as_set, lemma_count_bound, lemma_count_zero,
};
use crate::order::{all_indices, is_sorting, stable_order};
use crate::single::Single;
use crate::source_map::SourceMap;

verus! {

/// What a canvas may show and still pass.
#[derive(Debug, Clone, Copy)]
pub struct EvalThresholds {
    pub max_high_risk_boundary_pixels: u32,
    pub max_largest_risky_component_area: u32,
    pub max_duplicate_bands: usize,
    pub max_duplicate_patches: usize,
    /// The least mean of the gradients. Zero asks for nothing.
    pub min_mean_gradient: Single,
    /// The least 95th percentile of the gradients. Zero asks for nothing.
    pub min_p95_gradient: Single,
}

impl Default for EvalThresholds {
    /// At most 250 visible boundary pixels, no group of more than 300 of them, and nothing that
    /// occurs twice.
    fn default() -> (t: EvalThresholds)
        ensures
            t == (EvalThresholds {
                max_high_risk_boundary_pixels: 250,
                max_largest_risky_component_area: 300,
                max_duplicate_bands: 0,
                max_duplicate_patches: 0,
                min_mean_gradient: Single { bits: 0 },
                min_p95_gradient: Single { bits: 0 },
            }),
    {
        EvalThresholds {
            max_high_risk_boundary_pixels: 250,
            max_largest_risky_component_area: 300,
            max_duplicate_bands: 0,
            max_duplicate_patches: 0,
            min_mean_gradient: Single::zero(),
            min_p95_gradient: Single::zero(),
        }
    }
}

/// How often two frames meet, and how often one of the two pixels is at risk.
#[derive(Debug, Clone, Copy)]
pub struct HandoffPairReport {
    pub sources: [u8; 2],
    pub boundary_px: u32,
    pub risk_px: u32,
}

/// A limit that a canvas exceeds.
#[allow(inconsistent_fields)]
#[derive(Debug, Clone, Copy)]
pub enum EvalFailure {
    HighRiskBoundaryPixels { found: u32, limit: u32 },
    LargestRiskyComponentArea { found: u32, limit: u32 },
    DuplicateBands { found: usize, limit: usize },
    DuplicatePatches { found: usize, limit: usize },
    MeanGradient { found: Single, limit: Single },
    P95Gradient { found: Single, limit: Single },
}

impl EvalFailure {
    /// The name of what was measured.
    pub fn metric(&self) -> (name: &'static str)
        ensures
            name@ == match self {
                EvalFailure::HighRiskBoundaryPixels { .. } => "high_risk_boundary_pixels"@,
                EvalFailure::LargestRiskyComponentArea { .. } => "largest_risky_component_area"@,
                EvalFailure::DuplicateBands { .. } => "duplicate_bands"@,
                EvalFailure::DuplicatePatches { .. } => "duplicate_patches"@,
                EvalFailure::MeanGradient { .. } => "mean_gradient"@,
                EvalFailure::P95Gradient { .. } => "p95_gradient"@,
            },
    {
        match self {
            EvalFailure::HighRiskBoundaryPixels { .. } => "high_risk_boundary_pixels",
            EvalFailure::LargestRiskyComponentArea { .. } => "largest_risky_component_area",
            EvalFailure::DuplicateBands { .. } => "duplicate_bands",
            EvalFailure::DuplicatePatches { .. } => "duplicate_patches",
            EvalFailure::MeanGradient { .. } => "mean_gradient",
            EvalFailure::P95Gradient { .. } => "p95_gradient",
        }
    }
}

/// What was found out about a canvas.
#[derive(Debug, Clone)]
pub struct EvaluationReport {
    pub passed: bool,
    pub image_size: [u32; 2],
    pub boundary_pixels: u32,
    pub high_risk_boundary_pixels: u32,
    pub largest_risky_component_area: u32,
    pub high_risk_components: Vec<RiskyComponent>,
    pub handoff_pairs: Vec<HandoffPairReport>,
    pub duplicate_report: DuplicateReport,
    pub thresholds: EvalThresholds,
    pub source_map_distinct_sources: usize,
    pub source_coord_checked_pixels: u32,
    pub source_coord_mismatched_pixels: u32,
    pub source_coord_out_of_bounds_pixels: u32,
    pub mean_gradient: Single,
    pub p95_gradient: Single,
    pub failures: Vec<EvalFailure>,
}

/// Whether a step in the picture is visible: the gradient is above twenty-eight, or it is more
/// than eighteen above the gradients around it.
pub open spec fn stands_out(grad: Seq<Single>, contrast: Seq<Single>, k: int) -> bool {
    (Single { bits: 0x41e0_0000 }).lt(grad[k]) || (Single { bits: 0x4190_0000 }).lt(contrast[k])
}

/// Whether a step in the picture is visible. `contrast` holds how far each gradient is above the
/// gradients around it.
pub fn is_visible(grad: &[Single], contrast: &[Single], k: usize) -> (r: bool)
    requires
        k < grad@.len(),
        k < contrast@.len(),
    ensures
        r == stands_out(grad@, contrast@, k as int),
{
    let high = Single { bits: 0x41e0_0000 };
    let raised = Single { bits: 0x4190_0000 };
    high.is_below(grad[k]) || raised.is_below(contrast[k])
}

/// Keys that sort numbers by the total order.
pub open spec fn rank_keys(values: Seq<Single>) -> Seq<i64> {
    Seq::new(values.len(), |i: int| values[i].total_rank() as i64)
}

/// Whether `v` stands in the place `index` of the values, once they are sorted. Beyond the end it is
/// the last one, and of no values it is zero.
pub open spec fn is_percentile(values: Seq<Single>, index: int, v: Single) -> bool {
    if values.len() == 0 {
        v == (Single { bits: 0 })
    } else {
        exists|order: Seq<usize>|
            {
                &&& #[trigger] is_sorting(rank_keys(values), all_indices(values.len()), order)
                &&& v == values[order[if index < values.len() {
                    index
                } else {
                    values.len() - 1
                }] as int]
            }
    }
}

/// The value in the place `index`, once the values are sorted.
pub fn percentile_gradient(grad: &[Single], index: usize) -> (v: Single)
    ensures
        is_percentile(grad@, index as int, v),
{
    let n: usize = grad.len();
    if n == 0 {
        return Single::zero();
    }
    let mut keys: Vec<i64> = Vec::new();
    for i in 0..n
        invariant
            n == grad@.len(),
            keys@ == rank_keys(grad@).take(i as int),
    {
        keys.push(grad[i].total_order_key());
        assert(keys@ =~= rank_keys(grad@).take(i + 1));
    }
    assert(keys@ =~= rank_keys(grad@));
    let order = stable_order(&keys);
    let at: usize = if index < n {
        index
    } else {
        n - 1
    };
    proof {
        assert(order@.contains(order@[at as int]));
        assert(all_indices(keys@.len()).contains(order@[at as int]));
    }
    grad[order[at]]
}

/// Whether the pixel `k` of the canvas is on a boundary.
pub open spec fn boundary_at(map: SourceMap, k: int) -> bool {
    on_boundary(map, k % map.width as int, k / map.width as int)
}

/// The pixels at risk: those on a boundary where the step is visible.
pub open spec fn risk_flags(
    map: SourceMap,
    grad: Seq<Single>,
    contrast: Seq<Single>,
) -> Seq<bool> {
    Seq::new(
        map.data@.len(),
        |k: int| boundary_at(map, k) && stands_out(grad, contrast, k),
    )
}

/// The pixels at risk, how many there are, and how many pixels are on a boundary.
fn mark_risk(
    map: &SourceMap,
    boundary: &Vec<bool>,
    grad: &[Single],
    contrast: &[Single],
) -> (r: (Vec<bool>, u32, u32))
    requires
        map.wf(),
        boundary@.len() == map.data@.len(),
        forall|k: int|
            0 <= k < boundary@.len() ==> #[trigger] boundary@[k] == on_boundary(
                *map,
                k % map.width as int,
                k / map.width as int,
            ),
        grad@.len() >= map.data@.len(),
        contrast@.len() >= map.data@.len(),
    ensures
        r.0@ == risk_flags(*map, grad@, contrast@),
        r.1 == count_where(map.data@.len(), |k: int| boundary_at(*map, k)),
        r.2 == count_where(map.data@.len(), |k: int| risk_flags(*map, grad@, contrast@)[k]),
{
    let ghost p = |k: int| boundary_at(*map, k);
    let ghost q = |k: int| risk_flags(*map, grad@, contrast@)[k];
    let n: usize = boundary.len();
    let mut risk: Vec<bool> = Vec::new();
    let mut on: u32 = 0;
    let mut high: u32 = 0;
    for k in 0..n
        invariant
            n == boundary@.len(),
            n == map.data@.len(),
            map.wf(),
            p == (|k: int| boundary_at(*map, k)),
            q == (|k: int| risk_flags(*map, grad@, contrast@)[k]),
            forall|j: int|
                0 <= j < boundary@.len() ==> #[trigger] boundary@[j] == boundary_at(*map, j),
            grad@.len() >= map.data@.len(),
            contrast@.len() >= map.data@.len(),
            risk@ == risk_flags(*map, grad@, contrast@).take(k as int),
            on == count_where(k as nat, p),
            high == count_where(k as nat, q),
    {
        proof {
            lemma_count_bound(k as nat, p);
            lemma_count_bound(k as nat, q);
        }
        let at_risk = boundary[k] && is_visible(grad, contrast, k);
        if boundary[k] {
            on = on + 1;
        }
        if at_risk {
            high = high + 1;
        }
        risk.push(at_risk);
        assert(risk@ =~= risk_flags(*map, grad@, contrast@).take(k + 1));
    }
    assert(risk@ =~= risk_flags(*map, grad@, contrast@));
    (risk, on, high)
}

/// The report on a pair of frames.
pub open spec fn is_pair_report(
    map: SourceMap,
    risk: Seq<bool>,
    c: SourcePairCount,
    r: HandoffPairReport,
) -> bool {
    &&& r.sources[0] == c.0.0
    &&& r.sources[1] == c.0.1
    &&& r.boundary_px == c.1
    &&& r.risk_px == risky_pairs(map, risk, c.0.0, c.0.1, map.data@.len() as int)
}

/// Keys that put the pairs with the most pixels at risk first.
pub open spec fn pair_keys(map: SourceMap, risk: Seq<bool>, counts: Seq<SourcePairCount>) -> Seq<i64> {
    Seq::new(
        counts.len(),
        |i: int|
            -(risky_pairs(
                map,
                risk,
                counts[i].0.0,
                counts[i].0.1,
                map.data@.len() as int,
            ) as int) as i64,
    )
}

/// Whether these are the reports on all pairs of frames that meet, those with the most pixels at
/// risk first, and otherwise in the order in which they first meet.
pub open spec fn are_pair_reports(
    map: SourceMap,
    risk: Seq<bool>,
    pairs: Seq<HandoffPairReport>,
) -> bool {
    let counts = tally(handoffs(map, map.data@.len() as int));
    exists|order: Seq<usize>|
        {
            &&& #[trigger] is_sorting(
                pair_keys(map, risk, counts),
                all_indices(counts.len()),
                order,
            )
            &&& pairs.len() == counts.len()
            &&& forall|i: int|
                0 <= i < pairs.len() ==> is_pair_report(
                    map,
                    risk,
                    counts[order[i] as int],
                    #[trigger] pairs[i],
                )
        }
}

/// Every pair that meets is made of two different frames, the smaller one first.
proof fn lemma_handoff_pairs(map: SourceMap, n: int)
    requires
        0 <= n,
    ensures
        forall|i: int|
            0 <= i < handoffs(map, n).len() ==> {
                let p = #[trigger] handoffs(map, n)[i];
                p.0 < p.1 < SourceMap::UNASSIGNED
            },
    decreases n,
{
    if n > 0 {
        lemma_handoff_pairs(map, n - 1);
        let before = handoffs(map, n - 1);
        let after = handoffs(map, n);
        assert forall|i: int| 0 <= i < after.len() implies {
            let p = #[trigger] after[i];
            p.0 < p.1 < SourceMap::UNASSIGNED
        } by {
            if i < before.len() {
                assert(after[i] == before[i]);
            }
        }
    }
}

fn pair_reports(map: &SourceMap, risk: &Vec<bool>, counts: &Vec<SourcePairCount>) -> (pairs: Vec<
    HandoffPairReport,
>)
    requires
        map.wf(),
        risk@.len() == map.data@.len(),
        countable(handoffs(*map, map.data@.len() as int)),
        counts@ == tally(handoffs(*map, map.data@.len() as int)),
    ensures
        are_pair_reports(*map, risk@, pairs@),
{
    let ghost n = map.data@.len() as int;
    let mut found: Vec<HandoffPairReport> = Vec::new();
    let mut keys: Vec<i64> = Vec::new();
    proof {
        lemma_handoff_pairs(*map, n);
        tally_counts_every_pair(handoffs(*map, n));
    }
    for k in 0..counts.len()
        invariant
            map.wf(),
            n == map.data@.len(),
            risk@.len() == map.data@.len(),
            countable(handoffs(*map, n)),
            counts@ == tally(handoffs(*map, n)),
            forall|i: int|
                0 <= i < handoffs(*map, n).len() ==> {
                    let p = #[trigger] handoffs(*map, n)[i];
                    p.0 < p.1 < SourceMap::UNASSIGNED
                },
            forall|i: int|
                0 <= i < counts@.len() ==> handoffs(*map, n).contains((#[trigger] counts@[i]).0),
            found@.len() == k,
            forall|i: int|
                0 <= i < k ==> is_pair_report(*map, risk@, counts@[i], #[trigger] found@[i]),
            keys@ == pair_keys(*map, risk@, counts@).take(k as int),
    {
        let (pair, boundary_px) = counts[k];
        proof {
            let events = handoffs(*map, n);
            assert(events.contains(counts@[k as int].0));
            let i = choose|i: int| 0 <= i < events.len() && events[i] == pair;
            assert(events[i].0 < events[i].1 < SourceMap::UNASSIGNED);
            risky_pairs_are_handoffs(*map, risk@, pair.0, pair.1, n);
            assert(occurrences(events, pair) <= u32::MAX);
        }
        let risk_px: u32 = count_pair_risk(map, risk, pair.0, pair.1);
        found.push(HandoffPairReport { sources: [pair.0, pair.1], boundary_px, risk_px });
        keys.push(-(risk_px as i64));
        assert(keys@ =~= pair_keys(*map, risk@, counts@).take(k + 1));
    }
    assert(keys@ =~= pair_keys(*map, risk@, counts@));
    let order = stable_order(&keys);
    proof {
        assert forall|i: int| 0 <= i < order@.len() implies #[trigger] order@[i] < found@.len() by {
            assert(order@.contains(order@[i]));
            assert(all_indices(keys@.len()).contains(order@[i]));
        }
    }
    let mut pairs: Vec<HandoffPairReport> = Vec::new();
    for i in 0..order.len()
        invariant
            found@.len() == counts@.len(),
            forall|j: int| 0 <= j < order@.len() ==> #[trigger] order@[j] < found@.len(),
            forall|j: int|
                0 <= j < found@.len() ==> is_pair_report(
                    *map,
                    risk@,
                    counts@[j],
                    #[trigger] found@[j],
                ),
            pairs@.len() == i,
            forall|j: int|
                0 <= j < i ==> is_pair_report(
                    *map,
                    risk@,
                    counts@[order@[j] as int],
                    #[trigger] pairs@[j],
                ),
    {
        pairs.push(found[order[i]]);
    }
    pairs
}

/// A list with one item, or with none.
pub open spec fn one_if(exceeded: bool, f: EvalFailure) -> Seq<EvalFailure> {
    if exceeded {
        seq![f]
    } else {
        Seq::empty()
    }
}

/// The limits that a canvas exceeds.
pub open spec fn failures_of(
    t: EvalThresholds,
    high_risk: u32,
    largest: u32,
    bands: usize,
    patches: usize,
    mean_gradient: Single,
    p95_gradient: Single,
) -> Seq<EvalFailure> {
    one_if(
        high_risk > t.max_high_risk_boundary_pixels,
        EvalFailure::HighRiskBoundaryPixels {
            found: high_risk,
            limit: t.max_high_risk_boundary_pixels,
        },
    ) + one_if(
        largest > t.max_largest_risky_component_area,
        EvalFailure::LargestRiskyComponentArea {
            found: largest,
            limit: t.max_largest_risky_component_area,
        },
    ) + one_if(
        bands > t.max_duplicate_bands,
        EvalFailure::DuplicateBands { found: bands, limit: t.max_duplicate_bands },
    ) + one_if(
        patches > t.max_duplicate_patches,
        EvalFailure::DuplicatePatches { found: patches, limit: t.max_duplicate_patches },
    ) + one_if(
        mean_gradient.lt(t.min_mean_gradient),
        EvalFailure::MeanGradient { found: mean_gradient, limit: t.min_mean_gradient },
    ) + one_if(
        p95_gradient.lt(t.min_p95_gradient),
        EvalFailure::P95Gradient { found: p95_gradient, limit: t.min_p95_gradient },
    )
}

/// The limits that a canvas exceeds.
pub fn exceeded_limits(
    t: EvalThresholds,
    high_risk: u32,
    largest: u32,
    bands: usize,
    patches: usize,
    mean_gradient: Single,
    p95_gradient: Single,
) -> (failures: Vec<EvalFailure>)
    ensures
        failures@ == failures_of(
            t,
            high_risk,
            largest,
            bands,
            patches,
            mean_gradient,
            p95_gradient,
        ),
{
    let mut failures: Vec<EvalFailure> = Vec::new();
    if high_risk > t.max_high_risk_boundary_pixels {
        failures.push(
            EvalFailure::HighRiskBoundaryPixels {
                found: high_risk,
                limit: t.max_high_risk_boundary_pixels,
            },
        );
    }
    if largest > t.max_largest_risky_component_area {
        failures.push(
            EvalFailure::LargestRiskyComponentArea {
                found: largest,
                limit: t.max_largest_risky_component_area,
            },
        );
    }
    if bands > t.max_duplicate_bands {
        failures.push(EvalFailure::DuplicateBands { found: bands, limit: t.max_duplicate_bands });
    }
    if patches > t.max_duplicate_patches {
        failures.push(
            EvalFailure::DuplicatePatches { found: patches, limit: t.max_duplicate_patches },
        );
    }
    if mean_gradient.is_below(t.min_mean_gradient) {
        failures.push(
            EvalFailure::MeanGradient { found: mean_gradient, limit: t.min_mean_gradient },
        );
    }
    if p95_gradient.is_below(t.min_p95_gradient) {
        failures.push(EvalFailure::P95Gradient { found: p95_gradient, limit: t.min_p95_gradient });
    }
    assert(failures@ =~= failures_of(
        t,
        high_risk,
        largest,
        bands,
        patches,
        mean_gradient,
        p95_gradient,
    ));
    failures
}

/// A canvas exceeds no limit exactly where each of the six measures keeps its own.
pub proof fn no_failures_within_the_limits(
    t: EvalThresholds,
    high_risk: u32,
    largest: u32,
    bands: usize,
    patches: usize,
    mean_gradient: Single,
    p95_gradient: Single,
)
    ensures
        failures_of(t, high_risk, largest, bands, patches, mean_gradient, p95_gradient).len() == 0
            <==> {
            &&& high_risk <= t.max_high_risk_boundary_pixels
            &&& largest <= t.max_largest_risky_component_area
            &&& bands <= t.max_duplicate_bands
            &&& patches <= t.max_duplicate_patches
            &&& !mean_gradient.lt(t.min_mean_gradient)
            &&& !p95_gradient.lt(t.min_p95_gradient)
        },
{
}

/// Whether a report tells what a canvas shows.
pub open spec fn is_evaluation<
    M: Fn(&Vec<Single>) -> Single,
    F: Fn(&RgbImage, [u32; 4], u32, u32) -> Vec<Single>,
    E: Fn(&Vec<Single>) -> Single,
    D: Fn(&Vec<Single>, &Vec<Single>) -> Single,
>(
    mean: M,
    feature: F,
    energy: E,
    dot: D,
    stitched: RgbImage,
    map: SourceMap,
    thresholds: EvalThresholds,
    grad: Seq<Single>,
    contrast: Seq<Single>,
    p95_index: int,
    report: EvaluationReport,
) -> bool {
    let n = map.data@.len();
    let risk = risk_flags(map, grad, contrast);
    &&& report.passed == (report.failures@.len() == 0)
    &&& report.image_size[0] == stitched.w()
    &&& report.image_size[1] == stitched.h()
    &&& report.boundary_pixels == count_where(n, |k: int| boundary_at(map, k))
    &&& report.high_risk_boundary_pixels == count_where(
        n,
        |k: int| risk_flags(map, grad, contrast)[k],
    )
    &&& are_components(
        mean,
        risk,
        grad,
        map.width as int,
        map.height as int,
        report.high_risk_components@,
    )
    &&& report.largest_risky_component_area == if report.high_risk_components@.len() > 0 {
        report.high_risk_components@[0].area_px
    } else {
        0
    }
    &&& are_pair_reports(map, risk, report.handoff_pairs@)
    &&& is_duplicate_report(feature, energy, dot, stitched, report.duplicate_report)
    &&& report.thresholds == thresholds
    &&& report.source_map_distinct_sources == count_where(
        255,
        |v: int| map.data@.contains(v as u8),
    )
    &&& report.source_coord_checked_pixels == 0
    &&& report.source_coord_mismatched_pixels == 0
    &&& report.source_coord_out_of_bounds_pixels == 0
    &&& if grad.len() == 0 {
        report.mean_gradient == (Single { bits: 0 })
    } else {
        gives_mean(mean, grad, report.mean_gradient)
    }
    &&& is_percentile(grad, p95_index, report.p95_gradient)
    &&& report.failures@ == failures_of(
        thresholds,
        report.high_risk_boundary_pixels,
        report.largest_risky_component_area,
        report.duplicate_report.band_duplicates@.len() as usize,
        report.duplicate_report.patch_duplicates@.len() as usize,
        report.mean_gradient,
        report.p95_gradient,
    )
}

/// Judges a canvas. `grad` holds the gradient of each pixel, `contrast` how far it is above the
/// gradients around it, and `p95_index` the place of the 95th percentile among the sorted
/// gradients.
pub fn evaluate_stitch<
    M: Fn(&Vec<Single>) -> Single,
    F: Fn(&RgbImage, [u32; 4], u32, u32) -> Vec<Single>,
    E: Fn(&Vec<Single>) -> Single,
    D: Fn(&Vec<Single>, &Vec<Single>) -> Single,
>(
    stitched: &RgbImage,
    source_map: &SourceMap,
    thresholds: EvalThresholds,
    grad: &Vec<Single>,
    contrast: &Vec<Single>,
    p95_index: usize,
    mean: &M,
    feature: &F,
    energy: &E,
    dot: &D,
) -> (report: EvaluationReport)
    requires
        same_size(*stitched, *source_map),
        source_map.width <= i32::MAX,
        source_map.height <= i32::MAX,
        countable(handoffs(*source_map, source_map.data@.len() as int)),
        grad@.len() == source_map.data@.len(),
        contrast@.len() == source_map.data@.len(),
        takes_values(*mean),
        takes_rects(*feature, *stitched),
        takes_feature(*energy),
        takes_features(*dot),
    ensures
        is_evaluation(
            *mean,
            *feature,
            *energy,
            *dot,
            *stitched,
            *source_map,
            thresholds,
            grad@,
            contrast@,
            p95_index as int,
            report,
        ),
{
    let (w, h) = stitched.dimensions();
    let (boundary, counts) = source_boundary_map(source_map);
    let (risk, boundary_pixels, high_risk) = mark_risk(source_map, &boundary, grad, contrast);
    let distinct: usize = distinct_assigned_sources(source_map);
    let mean_gradient = if grad.len() == 0 {
        Single::zero()
    } else {
        let m = mean(grad);
        assert(gives_mean(*mean, grad@, m));
        m
    };
    let p95_gradient = percentile_gradient(grad, p95_index);
    let components = risky_components(&risk, grad, w, h, mean);
    assert(risk@.subrange(0, w * h) =~= risk@);
    let largest: u32 = if components.len() > 0 {
        components[0].area_px
    } else {
        0
    };
    let duplicate_report = detect_duplicates(stitched, feature, energy, dot);
    let handoff_pairs = pair_reports(source_map, &risk, &counts);
    let failures = exceeded_limits(
        thresholds,
        high_risk,
        largest,
        duplicate_report.band_duplicates.len(),
        duplicate_report.patch_duplicates.len(),
        mean_gradient,
        p95_gradient,
    );
    EvaluationReport {
        passed: failures.len() == 0,
        image_size: [w, h],
        boundary_pixels,
        high_risk_boundary_pixels: high_risk,
        largest_risky_component_area: largest,
        high_risk_components: components,
        handoff_pairs,
        duplicate_report,
        thresholds,
        source_map_distinct_sources: distinct,
        source_coord_checked_pixels: 0,
        source_coord_mismatched_pixels: 0,
        source_coord_out_of_bounds_pixels: 0,
        mean_gradient,
        p95_gradient,
        failures,
    }
}

/// A canvas that is taken from a single frame has no boundary, no pixels at risk and no pairs of
/// frames: it fails only for what it repeats, or for being too blurred.
pub proof fn single_source_is_never_at_risk<
    M: Fn(&Vec<Single>) -> Single,
    F: Fn(&RgbImage, [u32; 4], u32, u32) -> Vec<Single>,
    E: Fn(&Vec<Single>) -> Single,
    D: Fn(&Vec<Single>, &Vec<Single>) -> Single,
>(
    mean: M,
    feature: F,
    energy: E,
    dot: D,
    stitched: RgbImage,
    map: SourceMap,
    thresholds: EvalThresholds,
    grad: Seq<Single>,
    contrast: Seq<Single>,
    p95_index: int,
    report: EvaluationReport,
    source: u8,
)
    requires
        map.wf(),
        is_evaluation(
            mean,
            feature,
            energy,
            dot,
            stitched,
            map,
            thresholds,
            grad,
            contrast,
            p95_index,
            report,
        ),
        forall|x: int, y: int|
            map.has(x, y) && map.assigned(x, y) ==> #[trigger] map.at(x, y) == source,
    ensures
        report.boundary_pixels == 0,
        report.high_risk_boundary_pixels == 0,
        report.largest_risky_component_area == 0,
        report.high_risk_components@.len() == 0,
        report.handoff_pairs@.len() == 0,
{
    single_source_has_no_boundary(map, source);
    let n = map.data@.len();
    let risk = risk_flags(map, grad, contrast);
    lemma_count_zero(n, |k: int| boundary_at(map, k));
    lemma_count_zero(n, |k: int| risk_flags(map, grad, contrast)[k]);
    lemma_no_groups(risk, map.width as int, map.height as int, n as int);
    assert(handoffs(map, n as int).len() == 0);
}

proof fn lemma_no_groups(risk: Seq<bool>, w: int, h: int, n: int)
    requires
        0 <= n <= risk.len(),
        forall|k: int| 0 <= k < risk.len() ==> !#[trigger] risk[k],
    ensures
        groups(risk, w, h, n).0.len() == 0,
        large_groups(groups(risk, w, h, n).0).len() == 0,
    decreases n,
{
    if n > 0 {
        lemma_no_groups(risk, w, h, n - 1);
    }
}

/// The reports on pairs of frames come with the most pixels at risk first, no pair is reported
/// twice, and each pair meets at least as often as it is at risk.
pub proof fn pairs_come_riskiest_first(
    map: SourceMap,
    risk: Seq<bool>,
    pairs: Seq<HandoffPairReport>,
)
    requires
        map.wf(),
        countable(handoffs(map, map.data@.len() as int)),
        are_pair_reports(map, risk, pairs),
    ensures
        forall|i: int, j: int|
            0 <= i < j < pairs.len() ==> (#[trigger] pairs[j]).risk_px <= (
            #[trigger] pairs[i]).risk_px && pairs[i].sources != pairs[j].sources,
        forall|i: int|
            0 <= i < pairs.len() ==> 0 < (#[trigger] pairs[i]).boundary_px && pairs[i].risk_px
                <= pairs[i].boundary_px,
{
    let events = handoffs(map, map.data@.len() as int);
    let counts = tally(events);
    tally_counts_every_pair(events);
    let order = choose|order: Seq<usize>|
        {
            &&& #[trigger] is_sorting(
                pair_keys(map, risk, counts),
                all_indices(counts.len()),
                order,
            )
            &&& pairs.len() == counts.len()
            &&& forall|i: int|
                0 <= i < pairs.len() ==> is_pair_report(
                    map,
                    risk,
                    counts[order[i] as int],
                    #[trigger] pairs[i],
                )
        };
    assert forall|i: int| 0 <= i < pairs.len() implies 0 <= order[i] < counts.len()
        && is_pair_report(map, risk, counts[order[i] as int], #[trigger] pairs[i]) by {
        assert(order.contains(order[i]));
        assert(all_indices(counts.len()).contains(order[i]));
    }
    lemma_handoff_pairs(map, map.data@.len() as int);
    assert forall|i: int| 0 <= i < pairs.len() implies 0 < (#[trigger] pairs[i]).boundary_px
        && pairs[i].risk_px <= pairs[i].boundary_px by {
        let c = counts[order[i] as int];
        assert(is_pair_report(map, risk, c, pairs[i]));
        assert(events.contains(c.0));
        let k = choose|k: int| 0 <= k < events.len() && events[k] == c.0;
        assert(events[k].0 < events[k].1 < SourceMap::UNASSIGNED);
        risky_pairs_are_handoffs(map, risk, c.0.0, c.0.1, map.data@.len() as int);
    }
    assert forall|i: int, j: int| 0 <= i < j < pairs.len() implies (#[trigger] pairs[j]).risk_px <= (
    #[trigger] pairs[i]).risk_px && pairs[i].sources != pairs[j].sources by {
        assert(crate::order::before(pair_keys(map, risk, counts), order[i], order[j]));
        let a = order[i] as int;
        let b = order[j] as int;
        assert(is_pair_report(map, risk, counts[a], pairs[i]));
        assert(is_pair_report(map, risk, counts[b], pairs[j]));
        assert(0 <= a < counts.len() && 0 <= b < counts.len() && a != b);
        if a < b {
            assert(tally(events)[a].0 != tally(events)[b].0);
        } else {
            assert(tally(events)[b].0 != tally(events)[a].0);
        }
    }
}

/// A pixel is at risk exactly if it is on a boundary and its gradient is above 28 or its contrast is
/// above 18; each of them alone is enough.
pub proof fn visible_handoffs_are_at_risk(
    map: SourceMap,
    grad: Seq<Single>,
    contrast: Seq<Single>,
    x: int,
    y: int,
)
    requires
        map.wf(),
        map.has(x, y),
    ensures
        ({
            let k = y * map.width + x;
            risk_flags(map, grad, contrast)[k] <==> on_boundary(map, x, y) && (0x41e0_0000
                < grad[k].bits <= 0x7f80_0000 || 0x4190_0000 < contrast[k].bits <= 0x7f80_0000)
        }),
{
    let w = map.width as int;
    crate::grid::lemma_cell_bound(w, map.height as int, x, y);
    crate::grid::lemma_index_of_cell(w, x, y);
}

/// A boundary pixel at risk stays at risk where its gradient or its contrast grows.
pub proof fn risk_grows_with_gradient_and_contrast(
    map: SourceMap,
    grad: Seq<Single>,
    contrast: Seq<Single>,
    more_grad: Seq<Single>,
    more_contrast: Seq<Single>,
    k: int,
)
    requires
        0 <= k < map.data@.len(),
        risk_flags(map, grad, contrast)[k],
        grad[k].le(more_grad[k]),
        contrast[k].le(more_contrast[k]),
    ensures
        risk_flags(map, more_grad, more_contrast)[k],
{
}

/// A percentile is one of the values: with its index, no more values are below it than come before
/// the index, and more than that are not above it. An index beyond the values means the greatest.
pub proof fn percentiles_have_their_rank(values: Seq<Single>, index: int, v: Single)
    requires
        0 < values.len() <= usize::MAX,
        0 <= index,
        is_percentile(values, index, v),
    ensures
        values.contains(v),
        count_where(
            values.len(),
            |i: int| values[i].total_rank() < v.total_rank(),
        ) <= index,
        index < values.len() ==> index < count_where(
            values.len(),
            |i: int| values[i].total_rank() <= v.total_rank(),
        ),
        index >= values.len() ==> forall|i: int|
            0 <= i < values.len() ==> (#[trigger] values[i]).total_rank() <= v.total_rank(),
{
    let n = values.len();
    let keys = rank_keys(values);
    let m = if index < n {
        index
    } else {
        n - 1
    };
    let order = choose|order: Seq<usize>|
        {
            &&& #[trigger] is_sorting(keys, all_indices(n), order)
            &&& v == values[order[if index < values.len() {
                index
            } else {
                values.len() - 1
            }] as int]
        };
    assert(v == values[order[m] as int]);
    assert forall|k: int| 0 <= k < n implies (#[trigger] order[k]) < n by {
        assert(order.contains(order[k]));
        assert(all_indices(n).contains(order[k]));
    }
    let below = |i: int| values[i].total_rank() < v.total_rank();
    let upto = |i: int| values[i].total_rank() <= v.total_rank();
    lemma_count_as_set(n, below);
    lemma_count_as_set(n, upto);
    let b = Set::new(|i: int| 0 <= i < n && below(i));
    let u = Set::new(|i: int| 0 <= i < n && upto(i));
    let places = Seq::new(n, |k: int| order[k] as int);
    assert forall|i: int|
        #![trigger values[i]]
        0 <= i < n implies exists|k: int| 0 <= k < n && #[trigger] order[k] == i by {
        assert(all_indices(n)[i] == i);
        assert(order.contains(i as usize));
    }
    assert forall|i: int, j: int| 0 <= i < j < n implies values[#[trigger] order[i] as int].total_rank()
        <= values[#[trigger] order[j] as int].total_rank() by {
        assert(crate::order::before(keys, order[i], order[j]));
    }
    let head = places.take(m);
    assert(b.subset_of(head.to_set())) by {
        assert forall|i: int| b.contains(i) implies head.to_set().contains(i) by {
            assert(values[i].total_rank() < v.total_rank());
            let k = choose|k: int| 0 <= k < n && #[trigger] order[k] == i;
            assert(k < m);
            assert(head[k] == i);
        }
    }
    vstd::set_lib::lemma_len_subset(b, head.to_set());
    head.lemma_cardinality_of_set();
    let more = places.take(m + 1);
    assert(more.no_duplicates()) by {
        assert forall|i: int, j: int| 0 <= i < more.len() && 0 <= j < more.len() && i
            != j implies more[i] != more[j] by {
            if i < j {
                assert(crate::order::before(keys, order[i], order[j]));
            } else {
                assert(crate::order::before(keys, order[j], order[i]));
            }
        }
    }
    more.unique_seq_to_set();
    assert(more.to_set().subset_of(u)) by {
        assert forall|i: int| more.to_set().contains(i) implies u.contains(i) by {
            let k = choose|k: int| 0 <= k < more.len() && more[k] == i;
            assert(order[k] == i);
        }
    }
    vstd::set_lib::lemma_len_subset(more.to_set(), u);
    assert(values[order[m] as int] == v);
    if index >= n {
        assert forall|i: int| 0 <= i < n implies (#[trigger] values[i]).total_rank()
            <= v.total_rank() by {
            assert(all_indices(n)[i] == i);
            assert(order.contains(i as usize));
            let k = choose|k: int| 0 <= k < order.len() && order[k] == i as usize;
            assert(k <= m);
        }
    }
}

/// Each limit that is exceeded is told once, with what was found and the limit, and nothing else is
/// told.
pub proof fn exceeded_limits_are_told(
    t: EvalThresholds,
    high_risk: u32,
    largest: u32,
    bands: usize,
    patches: usize,
    mean_gradient: Single,
    p95_gradient: Single,
    i: int,
    j: int,
)
    ensures
        ({
            let told = failures_of(
                t,
                high_risk,
                largest,
                bands,
                patches,
                mean_gradient,
                p95_gradient,
            );
            let pixels = EvalFailure::HighRiskBoundaryPixels {
                found: high_risk,
                limit: t.max_high_risk_boundary_pixels,
            };
            let area = EvalFailure::LargestRiskyComponentArea {
                found: largest,
                limit: t.max_largest_risky_component_area,
            };
            let repeated_bands = EvalFailure::DuplicateBands {
                found: bands,
                limit: t.max_duplicate_bands,
            };
            let repeated_patches = EvalFailure::DuplicatePatches {
                found: patches,
                limit: t.max_duplicate_patches,
            };
            let mean = EvalFailure::MeanGradient { found: mean_gradient, limit: t.min_mean_gradient };
            let p95 = EvalFailure::P95Gradient { found: p95_gradient, limit: t.min_p95_gradient };
            &&& told.contains(pixels) <==> high_risk > t.max_high_risk_boundary_pixels
            &&& told.contains(area) <==> largest > t.max_largest_risky_component_area
            &&& told.contains(repeated_bands) <==> bands > t.max_duplicate_bands
            &&& told.contains(repeated_patches) <==> patches > t.max_duplicate_patches
            &&& told.contains(mean) <==> mean_gradient.lt(t.min_mean_gradient)
            &&& told.contains(p95) <==> p95_gradient.lt(t.min_p95_gradient)
            &&& 0 <= i < told.len() ==> told[i] == pixels || told[i] == area || told[i]
                == repeated_bands || told[i] == repeated_patches || told[i] == mean || told[i] == p95
            &&& 0 <= i < j < told.len() ==> told[i] != told[j]
        }),
{
    let a = one_if(
        high_risk > t.max_high_risk_boundary_pixels,
        EvalFailure::HighRiskBoundaryPixels {
            found: high_risk,
            limit: t.max_high_risk_boundary_pixels,
        },
    );
    let b = one_if(
        largest > t.max_largest_risky_component_area,
        EvalFailure::LargestRiskyComponentArea {
            found: largest,
            limit: t.max_largest_risky_component_area,
        },
    );
    let c = one_if(
        bands > t.max_duplicate_bands,
        EvalFailure::DuplicateBands { found: bands, limit: t.max_duplicate_bands },
    );
    let d = one_if(
        patches > t.max_duplicate_patches,
        EvalFailure::DuplicatePatches { found: patches, limit: t.max_duplicate_patches },
    );
    let e = one_if(
        mean_gradient.lt(t.min_mean_gradient),
        EvalFailure::MeanGradient { found: mean_gradient, limit: t.min_mean_gradient },
    );
    let f = one_if(
        p95_gradient.lt(t.min_p95_gradient),
        EvalFailure::P95Gradient { found: p95_gradient, limit: t.min_p95_gradient },
    );
    let told = failures_of(t, high_risk, largest, bands, patches, mean_gradient, p95_gradient);
    assert(told == a + b + c + d + e + f);
    lemma_joined(a, b, c, d, e, f);
    assert forall|v: EvalFailure| #[trigger] told.contains(v) <==> a.contains(v) || b.contains(v)
        || c.contains(v) || d.contains(v) || e.contains(v) || f.contains(v) by {}
    assert forall|v: EvalFailure| #[trigger] told.contains(v) <==> {
        ||| a.len() == 1 && a[0] == v
        ||| b.len() == 1 && b[0] == v
        ||| c.len() == 1 && c[0] == v
        ||| d.len() == 1 && d[0] == v
        ||| e.len() == 1 && e[0] == v
        ||| f.len() == 1 && f[0] == v
    } by {
        lemma_one(a, v);
        lemma_one(b, v);
        lemma_one(c, v);
        lemma_one(d, v);
        lemma_one(e, v);
        lemma_one(f, v);
    }
    if 0 <= i < told.len() {
        assert(told.contains(told[i]));
    }
    lemma_told_once(a, b, c, d, e, f, i, j);
}

proof fn lemma_one(s: Seq<EvalFailure>, v: EvalFailure)
    requires
        s.len() <= 1,
    ensures
        s.contains(v) <==> s.len() == 1 && s[0] == v,
{
    if s.len() == 1 && s[0] == v {
        assert(s.contains(s[0]));
    }
}

spec fn measure(f: EvalFailure) -> int {
    match f {
        EvalFailure::HighRiskBoundaryPixels { .. } => 0,
        EvalFailure::LargestRiskyComponentArea { .. } => 1,
        EvalFailure::DuplicateBands { .. } => 2,
        EvalFailure::DuplicatePatches { .. } => 3,
        EvalFailure::MeanGradient { .. } => 4,
        EvalFailure::P95Gradient { .. } => 5,
    }
}

proof fn lemma_told_once(
    a: Seq<EvalFailure>,
    b: Seq<EvalFailure>,
    c: Seq<EvalFailure>,
    d: Seq<EvalFailure>,
    e: Seq<EvalFailure>,
    f: Seq<EvalFailure>,
    i: int,
    j: int,
)
    requires
        a.len() <= 1 && (a.len() == 1 ==> measure(a[0]) == 0),
        b.len() <= 1 && (b.len() == 1 ==> measure(b[0]) == 1),
        c.len() <= 1 && (c.len() == 1 ==> measure(c[0]) == 2),
        d.len() <= 1 && (d.len() == 1 ==> measure(d[0]) == 3),
        e.len() <= 1 && (e.len() == 1 ==> measure(e[0]) == 4),
        f.len() <= 1 && (f.len() == 1 ==> measure(f[0]) == 5),
    ensures
        ({
            let s = a + b + c + d + e + f;
            0 <= i < j < s.len() ==> measure(s[i]) < measure(s[j])
        }),
{
}

proof fn lemma_joined(
    a: Seq<EvalFailure>,
    b: Seq<EvalFailure>,
    c: Seq<EvalFailure>,
    d: Seq<EvalFailure>,
    e: Seq<EvalFailure>,
    f: Seq<EvalFailure>,
)
    ensures
        forall|v: EvalFailure| #[trigger]
            (a + b + c + d + e + f).contains(v) <==> a.contains(v) || b.contains(v) || c.contains(v)
                || d.contains(v) || e.contains(v) || f.contains(v),
{
    lemma_join(a, b);
    lemma_join(a + b, c);
    lemma_join(a + b + c, d);
    lemma_join(a + b + c + d, e);
    lemma_join(a + b + c + d + e, f);
}

proof fn lemma_join(a: Seq<EvalFailure>, b: Seq<EvalFailure>)
    ensures
        forall|v: EvalFailure| #[trigger]
            (a + b).contains(v) <==> a.contains(v) || b.contains(v),
{
    assert forall|v: EvalFailure| #[trigger] (a + b).contains(v) <==> a.contains(v) || b.contains(
        v,
    ) by {
        if a.contains(v) {
            let i = choose|i: int| 0 <= i < a.len() && a[i] == v;
            assert((a + b)[i] == v);
        }
        if b.contains(v) {
            let i = choose|i: int| 0 <= i < b.len() && b[i] == v;
            assert((a + b)[a.len() + i] == v);
        }
        if (a + b).contains(v) {
            let i = choose|i: int| 0 <= i < (a + b).len() && (a + b)[i] == v;
            if i < a.len() {
                assert(a[i] == v);
            } else {
                assert(b[i - a.len()] == v);
            }
        }
    }
}

/// What an evaluation tells of a canvas: its size; how many pixels are on a boundary, and how many
/// of those stand out; the size of the largest component; and how many frames it shows. It passes
/// exactly if each of the six measures keeps its limit.
pub proof fn evaluations_sum_up_the_canvas<
    M: Fn(&Vec<Single>) -> Single,
    F: Fn(&RgbImage, [u32; 4], u32, u32) -> Vec<Single>,
    E: Fn(&Vec<Single>) -> Single,
    D: Fn(&Vec<Single>, &Vec<Single>) -> Single,
>(
    mean: M,
    feature: F,
    energy: E,
    dot: D,
    stitched: RgbImage,
    map: SourceMap,
    thresholds: EvalThresholds,
    grad: Seq<Single>,
    contrast: Seq<Single>,
    p95_index: int,
    report: EvaluationReport,
    i: int,
    s: u8,
)
    requires
        map.wf(),
        is_evaluation(
            mean,
            feature,
            energy,
            dot,
            stitched,
            map,
            thresholds,
            grad,
            contrast,
            p95_index,
            report,
        ),
    ensures
        ({
            let w = map.width as int;
            let bands = report.duplicate_report.band_duplicates@.len() as usize;
            let patches = report.duplicate_report.patch_duplicates@.len() as usize;
            &&& report.image_size[0] == stitched.w() && report.image_size[1] == stitched.h()
            &&& report.boundary_pixels == count_where(
                map.data@.len(),
                |k: int| on_boundary(map, k % w, k / w),
            )
            &&& report.high_risk_boundary_pixels == count_where(
                map.data@.len(),
                |k: int|
                    on_boundary(map, k % w, k / w) && (0x41e0_0000 < grad[k].bits <= 0x7f80_0000
                        || 0x4190_0000 < contrast[k].bits <= 0x7f80_0000),
            )
            &&& 0 <= i < report.high_risk_components@.len()
                ==> report.high_risk_components@[i].area_px <= report.largest_risky_component_area
            &&& report.largest_risky_component_area == 0 || exists|j: int|
                0 <= j < report.high_risk_components@.len()
                    && #[trigger] report.high_risk_components@[j].area_px
                    == report.largest_risky_component_area
            &&& report.source_map_distinct_sources <= 255
            &&& s < 255 && map.data@.contains(s) ==> report.source_map_distinct_sources > 0
            &&& report.passed <==> {
                &&& report.high_risk_boundary_pixels <= thresholds.max_high_risk_boundary_pixels
                &&& report.largest_risky_component_area
                    <= thresholds.max_largest_risky_component_area
                &&& bands <= thresholds.max_duplicate_bands
                &&& patches <= thresholds.max_duplicate_patches
                &&& !report.mean_gradient.lt(thresholds.min_mean_gradient)
                &&& !report.p95_gradient.lt(thresholds.min_p95_gradient)
            }
        }),
{
    let n = map.data@.len();
    let w = map.width as int;
    crate::grid::lemma_count_same(
        n,
        |k: int| boundary_at(map, k),
        |k: int| on_boundary(map, k % w, k / w),
    );
    crate::grid::lemma_count_same(
        n,
        |k: int| risk_flags(map, grad, contrast)[k],
        |k: int|
            on_boundary(map, k % w, k / w) && (0x41e0_0000 < grad[k].bits <= 0x7f80_0000
                || 0x4190_0000 < contrast[k].bits <= 0x7f80_0000),
    );
    components_come_largest_first(
        mean,
        risk_flags(map, grad, contrast),
        grad,
        w,
        map.height as int,
        report.high_risk_components@,
    );
    let present = |v: int| map.data@.contains(v as u8);
    lemma_count_bound(255, present);
    lemma_count_zero(255, present);
    if s < 255 && map.data@.contains(s) {
        assert(present(s as int));
    }
    no_failures_within_the_limits(
        thresholds,
        report.high_risk_boundary_pixels,
        report.largest_risky_component_area,
        report.duplicate_report.band_duplicates@.len() as usize,
        report.duplicate_report.patch_duplicates@.len() as usize,
        report.mean_gradient,
        report.p95_gradient,
    );
}

/// Every two frames that meet on the canvas are reported, with how often they do.
pub proof fn frames_that_meet_are_reported(
    map: SourceMap,
    risk: Seq<bool>,
    pairs: Seq<HandoffPairReport>,
    a: u8,
    b: u8,
)
    requires
        map.wf(),
        countable(handoffs(map, map.data@.len() as int)),
        are_pair_reports(map, risk, pairs),
        handoffs(map, map.data@.len() as int).contains((a, b)),
    ensures
        exists|i: int|
            {
                &&& 0 <= i < pairs.len()
                &&& (#[trigger] pairs[i]).sources[0] == a
                &&& pairs[i].sources[1] == b
                &&& pairs[i].boundary_px == occurrences(
                    handoffs(map, map.data@.len() as int),
                    (a, b),
                )
                &&& pairs[i].risk_px == risky_pairs(map, risk, a, b, map.data@.len() as int)
            },
{
    let events = handoffs(map, map.data@.len() as int);
    let counts = tally(events);
    tally_counts_every_pair(events);
    lemma_counts_fit(counts);
    let order = choose|order: Seq<usize>|
        {
            &&& #[trigger] is_sorting(
                pair_keys(map, risk, counts),
                all_indices(counts.len()),
                order,
            )
            &&& pairs.len() == counts.len()
            &&& forall|i: int|
                0 <= i < pairs.len() ==> is_pair_report(
                    map,
                    risk,
                    counts[order[i] as int],
                    #[trigger] pairs[i],
                )
        };
    let m = choose|m: int| 0 <= m < events.len() && events[m] == (a, b);
    assert(events[m] == (a, b));
    let t = choose|t: int| 0 <= t < counts.len() && (#[trigger] counts[t]).0 == (a, b);
    assert(all_indices(counts.len())[t] == t as usize);
    assert(order.contains(t as usize));
    let i = choose|i: int| 0 <= i < order.len() && order[i] == t as usize;
    assert(is_pair_report(map, risk, counts[order[i] as int], pairs[i]));
}

proof fn lemma_counts_fit(counts: Seq<SourcePairCount>)
    requires
        forall|j: int, k: int|
            0 <= j < k < counts.len() ==> (#[trigger] counts[j]).0 != (#[trigger] counts[k]).0,
    ensures
        counts.len() <= 65536,
{
    let numbers = Seq::new(counts.len(), |i: int| 256 * counts[i].0.0 + counts[i].0.1);
    assert forall|i: int, j: int| 0 <= i < numbers.len() && 0 <= j < numbers.len() && i
        != j implies numbers[i] != numbers[j] by {
        if i < j {
            assert(counts[i].0 != counts[j].0);
        } else {
            assert(counts[j].0 != counts[i].0);
        }
    }
    assert(numbers.no_duplicates());
    numbers.unique_seq_to_set();
    let all = vstd::set_lib::set_int_range(0, 65536);
    vstd::set_lib::lemma_int_range(0, 65536);
    assert(numbers.to_set().subset_of(all));
    vstd::set_lib::lemma_len_subset(numbers.to_set(), all);
}

/// Of two pairs of frames that are at risk as often, the one that a scan meets first is reported
/// first.
pub proof fn equally_risky_pairs_keep_the_order_of_the_scan(
    map: SourceMap,
    risk: Seq<bool>,
    pairs: Seq<HandoffPairReport>,
    i: int,
    j: int,
)
    requires
        map.wf(),
        countable(handoffs(map, map.data@.len() as int)),
        are_pair_reports(map, risk, pairs),
        0 <= i < j < pairs.len(),
        pairs[i].risk_px == pairs[j].risk_px,
    ensures
        exists|m: int|
            {
                let events = handoffs(map, map.data@.len() as int);
                &&& 0 <= m < events.len()
                &&& #[trigger] handoffs(map, map.data@.len() as int)[m] == (
                    pairs[i].sources[0],
                    pairs[i].sources[1],
                )
                &&& forall|k: int|
                    0 <= k <= m ==> #[trigger] handoffs(map, map.data@.len() as int)[k] != (
                        pairs[j].sources[0],
                        pairs[j].sources[1],
                    )
            },
{
    let events = handoffs(map, map.data@.len() as int);
    let counts = tally(events);
    tally_counts_every_pair(events);
    let order = choose|order: Seq<usize>|
        {
            &&& #[trigger] is_sorting(
                pair_keys(map, risk, counts),
                all_indices(counts.len()),
                order,
            )
            &&& pairs.len() == counts.len()
            &&& forall|i: int|
                0 <= i < pairs.len() ==> is_pair_report(
                    map,
                    risk,
                    counts[order[i] as int],
                    #[trigger] pairs[i],
                )
        };
    assert(order.contains(order[i]) && order.contains(order[j]));
    assert(all_indices(counts.len()).contains(order[i]));
    assert(all_indices(counts.len()).contains(order[j]));
    assert(is_pair_report(map, risk, counts[order[i] as int], pairs[i]));
    assert(is_pair_report(map, risk, counts[order[j] as int], pairs[j]));
    assert(crate::order::before(pair_keys(map, risk, counts), order[i], order[j]));
    tally_keeps_the_order_of_first_meetings(events, order[i] as int, order[j] as int);
    let m = choose|m: int|
        {
            &&& 0 <= m < events.len()
            &&& #[trigger] events[m] == counts[order[i] as int].0
            &&& forall|k: int| 0 <= k <= m ==> #[trigger] events[k] != counts[order[j] as int].0
        };
    assert(handoffs(map, map.data@.len() as int)[m] == counts[order[i] as int].0);
}

} // verus!
