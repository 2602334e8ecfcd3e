//! The statistics and aggregation engine: groups raw benchmark
//! results by operation label, sorts each group by workload size on a
//! copy, and derives exact per-order latency, throughput, efficiency
//! and scalability metrics in integer arithmetic.
//!
//! Every derived quantity is an exact ratio of integers; nothing is
//! rounded inside the engine, so aggregation is a pure function of the
//! result set's contents.

use vstd::prelude::*;

verus! {

/// The largest workload size one result may declare.
pub const MAX_DATA_SIZE: u64 = 1_000_000_000_000;

/// The largest elapsed time, in nanoseconds, one result may declare.
pub const MAX_TIME_NS: u64 = 1_000_000_000_000_000_000;

/// One aggregated measurement: a label for the operation/strategy
/// pair, the declared workload size, and the elapsed time in
/// nanoseconds. The microsecond, millisecond and throughput views are
/// derived on demand, never stored.
#[derive(Debug)]
pub struct BenchmarkResult {
    /// Conventionally `{operation}/{strategy}/{size}`.
    pub name: String,
    /// Human label for the operation/strategy pair; the grouping key.
    pub operation_type: String,
    pub data_size: usize,
    pub time_ns: u64,
}

/// An exact nonnegative rational: `num / den`.
#[derive(Clone, Copy, Debug, PartialEq, Eq, Structural)]
pub struct Ratio {
    pub num: u128,
    pub den: u128,
}

impl Ratio {
    /// A ratio always carries a positive denominator.
    pub open spec fn wf(self) -> bool {
        self.den >= 1
    }
}

impl BenchmarkResult {
    /// Divide-by-zero in the derived metrics is prevented by
    /// construction: sizes and times are positive, and bounded so the
    /// derived ratios stay within exact machine arithmetic.
    pub open spec fn wf(self) -> bool {
        &&& 1 <= self.data_size && self.data_size <= MAX_DATA_SIZE
        &&& 1 <= self.time_ns <= MAX_TIME_NS
    }

    /// Elapsed time in microseconds.
    pub open spec fn spec_time_us(self) -> Ratio {
        Ratio { num: self.time_ns as u128, den: 1000 }
    }

    /// Elapsed time in milliseconds.
    pub open spec fn spec_time_ms(self) -> Ratio {
        Ratio { num: self.time_ns as u128, den: 1000000 }
    }

    /// Throughput in operations per second: size over elapsed seconds.
    pub open spec fn spec_throughput(self) -> Ratio {
        Ratio { num: ((self.data_size as u128) * 1000000000) as u128, den: self.time_ns as u128 }
    }

    /// Per-order latency in nanoseconds.
    pub open spec fn spec_per_order_ns(self) -> Ratio {
        Ratio { num: self.time_ns as u128, den: self.data_size as u128 }
    }

    /// The efficiency score, `1000 / per_order_latency_ns`: a relative
    /// comparison unit, higher is better.
    pub open spec fn spec_efficiency(self) -> Ratio {
        Ratio { num: ((self.data_size as u128) * 1000) as u128, den: self.time_ns as u128 }
    }

    pub fn new(name: String, operation_type: String, data_size: usize, time_ns: u64) -> (r: Self)
        requires
            1 <= data_size && data_size <= MAX_DATA_SIZE,
            1 <= time_ns <= MAX_TIME_NS,
        ensures
            r.name == name,
            r.operation_type == operation_type,
            r.data_size == data_size,
            r.time_ns == time_ns,
            r.wf(),
    {
        BenchmarkResult { name, operation_type, data_size, time_ns }
    }

    pub fn time_us(&self) -> (r: Ratio)
        ensures
            r == self.spec_time_us(),
    {
        Ratio { num: self.time_ns as u128, den: 1000 }
    }

    pub fn time_ms(&self) -> (r: Ratio)
        ensures
            r == self.spec_time_ms(),
    {
        Ratio { num: self.time_ns as u128, den: 1000000 }
    }

    pub fn throughput_ops_per_sec(&self) -> (r: Ratio)
        requires
            self.wf(),
        ensures
            r == self.spec_throughput(),
            r.wf(),
    {
        Ratio { num: (self.data_size as u128) * 1000000000, den: self.time_ns as u128 }
    }

    pub fn per_order_ns(&self) -> (r: Ratio)
        requires
            self.wf(),
        ensures
            r == self.spec_per_order_ns(),
            r.wf(),
    {
        Ratio { num: self.time_ns as u128, den: self.data_size as u128 }
    }

    pub fn efficiency_score(&self) -> (r: Ratio)
        requires
            self.wf(),
        ensures
            r == self.spec_efficiency(),
            r.wf(),
    {
        Ratio { num: (self.data_size as u128) * 1000, den: self.time_ns as u128 }
    }
}

impl Clone for BenchmarkResult {
    fn clone(&self) -> (r: Self)
        ensures
            r == *self,
    {
        BenchmarkResult {
            name: self.name.clone(),
            operation_type: self.operation_type.clone(),
            data_size: self.data_size,
            time_ns: self.time_ns,
        }
    }
}

/// The scalability classification bands. Fixed policy thresholds, in
/// tenths, with no documented derivation; configurable, but the
/// defaults must keep these exact values for report continuity.
#[derive(Clone, Copy, Debug, PartialEq, Eq, Structural)]
pub struct ScalabilityBands {
    /// Below this many tenths the growth is excellent/sub-linear.
    pub excellent_tenths: u128,
    /// Below this many tenths the growth is good/near-linear.
    pub good_tenths: u128,
    /// Below this many tenths the growth is fair/super-linear;
    /// anything above is poor.
    pub fair_tenths: u128,
}

impl ScalabilityBands {
    pub open spec fn wf(self) -> bool {
        1 <= self.excellent_tenths <= self.good_tenths <= self.fair_tenths <= 100
    }

    /// The standard bands: 1.2, 1.5 and 2.0.
    pub fn standard() -> (b: Self)
        ensures
            b == (ScalabilityBands { excellent_tenths: 12, good_tenths: 15, fair_tenths: 20 }),
            b.wf(),
    {
        ScalabilityBands { excellent_tenths: 12, good_tenths: 15, fair_tenths: 20 }
    }
}

impl Default for ScalabilityBands {
    fn default() -> (b: Self)
        ensures
            b == (ScalabilityBands { excellent_tenths: 12, good_tenths: 15, fair_tenths: 20 }),
    {
        ScalabilityBands { excellent_tenths: 12, good_tenths: 15, fair_tenths: 20 }
    }
}

/// How a group's time growth compares to its size growth.
#[derive(Clone, Copy, Debug, PartialEq, Eq, Structural)]
pub enum ScalabilityRating {
    /// Sub-linear growth.
    Excellent,
    /// Near-linear growth.
    Good,
    /// Super-linear growth.
    Fair,
    /// Worse still.
    Poor,
}

/// The rating of a scalability factor `num / den` against the bands.
pub open spec fn spec_rating(num: int, den: int, bands: ScalabilityBands) -> ScalabilityRating {
    if 10 * num < bands.excellent_tenths * den {
        ScalabilityRating::Excellent
    } else if 10 * num < bands.good_tenths * den {
        ScalabilityRating::Good
    } else if 10 * num < bands.fair_tenths * den {
        ScalabilityRating::Fair
    } else {
        ScalabilityRating::Poor
    }
}

/// Classifies a scalability factor by exact cross-multiplication; no
/// rounding can move a factor across a band edge.
pub fn classify(num: u128, den: u128, bands: &ScalabilityBands) -> (r: ScalabilityRating)
    requires
        bands.wf(),
        num <= u128::MAX / 10,
        den <= u128::MAX / 100,
    ensures
        r == spec_rating(num as int, den as int, *bands),
{
    proof {
        assert(bands.excellent_tenths * den <= 100 * den) by (nonlinear_arith)
            requires
                bands.excellent_tenths <= 100,
                den >= 0,
        ;
        assert(bands.good_tenths * den <= 100 * den) by (nonlinear_arith)
            requires
                bands.good_tenths <= 100,
                den >= 0,
        ;
        assert(bands.fair_tenths * den <= 100 * den) by (nonlinear_arith)
            requires
                bands.fair_tenths <= 100,
                den >= 0,
        ;
        assert(100 * (u128::MAX / 100) <= u128::MAX);
        assert(10 * (u128::MAX / 10) <= u128::MAX);
    }
    if 10 * num < bands.excellent_tenths * den {
        ScalabilityRating::Excellent
    } else if 10 * num < bands.good_tenths * den {
        ScalabilityRating::Good
    } else if 10 * num < bands.fair_tenths * den {
        ScalabilityRating::Fair
    } else {
        ScalabilityRating::Poor
    }
}

/// A group's scalability: how time grew against size between the
/// smallest and largest measured workload.
#[derive(Clone, Copy, Debug, PartialEq, Eq, Structural)]
pub struct ScalabilityReport {
    /// Largest size over smallest size.
    pub size_ratio: Ratio,
    /// Time at the largest size over time at the smallest.
    pub time_ratio: Ratio,
    /// `time_ratio / size_ratio`.
    pub factor: Ratio,
    pub rating: ScalabilityRating,
}

/// The scalability of a size-sorted group: derived only when the group
/// measured at least two distinct sizes.
pub open spec fn spec_scalability(
    sorted: Seq<BenchmarkResult>,
    bands: ScalabilityBands,
) -> Option<ScalabilityReport> {
    if sorted.len() >= 2 && sorted.first().data_size < sorted.last().data_size {
        let f = sorted.first();
        let l = sorted.last();
        Some(
            ScalabilityReport {
                size_ratio: Ratio { num: l.data_size as u128, den: f.data_size as u128 },
                time_ratio: Ratio { num: l.time_ns as u128, den: f.time_ns as u128 },
                factor: Ratio {
                    num: ((l.time_ns as u128) * (f.data_size as u128)) as u128,
                    den: ((f.time_ns as u128) * (l.data_size as u128)) as u128,
                },
                rating: spec_rating(
                    (l.time_ns as int) * (f.data_size as int),
                    (f.time_ns as int) * (l.data_size as int),
                    bands,
                ),
            },
        )
    } else {
        None
    }
}

/// One aggregated group: the results that share an operation label,
/// sorted by workload size ascending, with the group's scalability.
#[derive(Debug)]
pub struct GroupStats {
    pub operation_type: String,
    pub results: Vec<BenchmarkResult>,
    pub scalability: Option<ScalabilityReport>,
}

/// The results of `s` that carry this operation label, in input order.
pub open spec fn filter_label(s: Seq<BenchmarkResult>, label: Seq<char>) -> Seq<BenchmarkResult>
    decreases s.len(),
{
    if s.len() == 0 {
        Seq::empty()
    } else {
        let rest = filter_label(s.drop_last(), label);
        if s.last().operation_type@ == label {
            rest.push(s.last())
        } else {
            rest
        }
    }
}

/// The distinct operation labels of `s`, in order of first appearance.
pub open spec fn group_labels(s: Seq<BenchmarkResult>) -> Seq<Seq<char>>
    decreases s.len(),
{
    if s.len() == 0 {
        Seq::empty()
    } else {
        let rest = group_labels(s.drop_last());
        if rest.contains(s.last().operation_type@) {
            rest
        } else {
            rest.push(s.last().operation_type@)
        }
    }
}

/// Where one result lands in a size-sorted sequence: after everything
/// no larger than it, before everything larger, so equal sizes keep
/// their input order.
pub open spec fn insert_sorted(
    sorted: Seq<BenchmarkResult>,
    r: BenchmarkResult,
) -> Seq<BenchmarkResult>
    decreases sorted.len(),
{
    if sorted.len() == 0 {
        seq![r]
    } else if r.data_size < sorted.last().data_size {
        insert_sorted(sorted.drop_last(), r).push(sorted.last())
    } else {
        sorted.push(r)
    }
}

/// The stable sort of a group by workload size, ascending.
pub open spec fn sort_by_size(s: Seq<BenchmarkResult>) -> Seq<BenchmarkResult>
    decreases s.len(),
{
    if s.len() == 0 {
        s
    } else {
        insert_sorted(sort_by_size(s.drop_last()), s.last())
    }
}

/// Nondecreasing workload sizes.
pub open spec fn sorted_by_size(s: Seq<BenchmarkResult>) -> bool {
    forall|i: int, j: int|
        0 <= i < j < s.len() ==> (#[trigger] s[i]).data_size <= (#[trigger] s[j]).data_size
}

/// Inserting keeps a size-sorted sequence sorted and only adds the new
/// element.
pub proof fn lemma_insert_sorted(sorted: Seq<BenchmarkResult>, r: BenchmarkResult)
    requires
        sorted_by_size(sorted),
    ensures
        sorted_by_size(insert_sorted(sorted, r)),
        insert_sorted(sorted, r).to_multiset() == sorted.to_multiset().insert(r),
    decreases sorted.len(),
{
    broadcast use vstd::seq_lib::group_to_multiset_ensures;

    if sorted.len() == 0 {
        assert(seq![r] =~= Seq::<BenchmarkResult>::empty().push(r));
        assert(seq![r].to_multiset() =~= sorted.to_multiset().insert(r));
    } else if r.data_size < sorted.last().data_size {
        assert(sorted_by_size(sorted.drop_last()));
        lemma_insert_sorted(sorted.drop_last(), r);
        let inner = insert_sorted(sorted.drop_last(), r);
        assert forall|i: int, j: int|
            0 <= i < j < inner.push(sorted.last()).len() implies (#[trigger] inner.push(
            sorted.last(),
        )[i]).data_size <= (#[trigger] inner.push(sorted.last())[j]).data_size by {
            if j == inner.len() {
                if i < inner.len() {
                    assert(inner.to_multiset().contains(inner[i]));
                    if inner[i] == r {
                    } else {
                        assert(sorted.drop_last().to_multiset().contains(inner[i]));
                        let w = choose|w: int|
                            0 <= w < sorted.drop_last().len() && sorted.drop_last()[w] == inner[i];
                        assert(sorted[w] == inner[i]);
                        assert(sorted[w].data_size <= sorted.last().data_size);
                    }
                }
            }
        }
        assert(sorted.drop_last().push(sorted.last()) =~= sorted);
        assert(inner.push(sorted.last()).to_multiset() =~= sorted.to_multiset().insert(r));
    } else {
        assert forall|i: int, j: int|
            0 <= i < j < sorted.push(r).len() implies (#[trigger] sorted.push(r)[i]).data_size <= (
            #[trigger] sorted.push(r)[j]).data_size by {}
    }
}

/// The sort really sorts: the output is nondecreasing in size and
/// holds exactly the input results.
pub proof fn lemma_sort_by_size(s: Seq<BenchmarkResult>)
    ensures
        sorted_by_size(sort_by_size(s)),
        sort_by_size(s).to_multiset() == s.to_multiset(),
        sort_by_size(s).len() == s.len(),
    decreases s.len(),
{
    broadcast use vstd::seq_lib::group_to_multiset_ensures;

    if s.len() > 0 {
        lemma_sort_by_size(s.drop_last());
        lemma_insert_sorted(sort_by_size(s.drop_last()), s.last());
        assert(s.drop_last().push(s.last()) =~= s);
        assert(sort_by_size(s).to_multiset().len() == sort_by_size(s).len());
        assert(s.to_multiset().len() == s.len());
    }
}

/// Every element an insertion yields satisfies what the inserted
/// element and the old elements satisfied; here: well-formedness.
pub proof fn lemma_insert_sorted_wf(sorted: Seq<BenchmarkResult>, r: BenchmarkResult)
    requires
        forall|i: int| 0 <= i < sorted.len() ==> (#[trigger] sorted[i]).wf(),
        r.wf(),
    ensures
        forall|i: int|
            0 <= i < insert_sorted(sorted, r).len() ==> (#[trigger] insert_sorted(sorted, r)[
            i]).wf(),
    decreases sorted.len(),
{
    let out = insert_sorted(sorted, r);
    if sorted.len() == 0 {
        assert forall|i: int| 0 <= i < out.len() implies (#[trigger] out[i]).wf() by {
            assert(out[i] == r);
        }
    } else if r.data_size < sorted.last().data_size {
        assert(forall|i: int|
            0 <= i < sorted.drop_last().len() ==> (#[trigger] sorted.drop_last()[i]).wf());
        lemma_insert_sorted_wf(sorted.drop_last(), r);
        let inner = insert_sorted(sorted.drop_last(), r);
        assert forall|i: int| 0 <= i < out.len() implies (#[trigger] out[i]).wf() by {
            if i < inner.len() {
                assert(out[i] == inner[i]);
            } else {
                assert(out[i] == sorted.last());
            }
        }
    } else {
        assert forall|i: int| 0 <= i < out.len() implies (#[trigger] out[i]).wf() by {
            if i < sorted.len() {
                assert(out[i] == sorted[i]);
            } else {
                assert(out[i] == r);
            }
        }
    }
}

/// A sorted group of well-formed results is well-formed throughout.
pub proof fn lemma_sort_by_size_wf(s: Seq<BenchmarkResult>)
    requires
        forall|i: int| 0 <= i < s.len() ==> (#[trigger] s[i]).wf(),
    ensures
        forall|i: int| 0 <= i < sort_by_size(s).len() ==> (#[trigger] sort_by_size(s)[i]).wf(),
    decreases s.len(),
{
    if s.len() > 0 {
        lemma_sort_by_size(s.drop_last());
        lemma_sort_by_size_wf(s.drop_last());
        lemma_insert_sorted_wf(sort_by_size(s.drop_last()), s.last());
    }
}

/// Filtering keeps only well-formed results when the input was
/// well-formed.
pub proof fn lemma_filter_label_wf(s: Seq<BenchmarkResult>, label: Seq<char>)
    requires
        forall|i: int| 0 <= i < s.len() ==> (#[trigger] s[i]).wf(),
    ensures
        forall|i: int|
            0 <= i < filter_label(s, label).len() ==> (#[trigger] filter_label(s, label)[i]).wf(),
    decreases s.len(),
{
    if s.len() > 0 {
        assert(forall|i: int|
            0 <= i < s.drop_last().len() ==> (#[trigger] s.drop_last()[i]).wf());
        lemma_filter_label_wf(s.drop_last(), label);
        let out = filter_label(s, label);
        let rest = filter_label(s.drop_last(), label);
        assert forall|i: int| 0 <= i < out.len() implies (#[trigger] out[i]).wf() by {
            if i < rest.len() {
                assert(out[i] == rest[i]);
            } else {
                assert(out[i] == s.last());
            }
        }
    }
}

/// What `aggregate` promises of its output: one group per distinct
/// label in order of first appearance, each holding the size-sorted
/// results of that label and their scalability.
pub open spec fn aggregate_post(
    rs: Seq<BenchmarkResult>,
    bands: ScalabilityBands,
    out: Seq<GroupStats>,
) -> bool {
    &&& out.len() == group_labels(rs).len()
    &&& forall|g: int|
        0 <= g < out.len() ==> {
            let label = group_labels(rs)[g];
            &&& (#[trigger] out[g]).operation_type@ == label
            &&& out[g].results@ == sort_by_size(filter_label(rs, label))
            &&& out[g].scalability == spec_scalability(sort_by_size(filter_label(rs, label)), bands)
        }
}

/// Aggregation is idempotent: the output is a pure function of the
/// result set's contents and the bands, so two runs over the same
/// results derive identical metrics, group for group.
pub proof fn lemma_aggregate_idempotent(
    rs: Seq<BenchmarkResult>,
    bands: ScalabilityBands,
    a: Seq<GroupStats>,
    b: Seq<GroupStats>,
)
    requires
        aggregate_post(rs, bands, a),
        aggregate_post(rs, bands, b),
    ensures
        a.len() == b.len(),
        forall|g: int|
            0 <= g < a.len() ==> {
                &&& (#[trigger] a[g]).operation_type@ == (#[trigger] b[g]).operation_type@
                &&& a[g].results@ == b[g].results@
                &&& a[g].scalability == b[g].scalability
            },
{
}

fn clone_results(v: &Vec<BenchmarkResult>) -> (r: Vec<BenchmarkResult>)
    ensures
        r@ == v@,
{
    let mut out: Vec<BenchmarkResult> = Vec::new();
    let mut i: usize = 0;
    while i < v.len()
        invariant
            0 <= i <= v@.len(),
            out@ == v@.take(i as int),
        decreases v@.len() - i,
    {
        out.push(v[i].clone());
        proof {
            assert(out@ =~= v@.take(i as int + 1));
        }
        i = i + 1;
    }
    proof {
        assert(v@.take(v@.len() as int) =~= v@);
    }
    out
}

fn insert_one_sorted(out: &mut Vec<BenchmarkResult>, r: BenchmarkResult)
    ensures
        final(out)@ == insert_sorted(old(out)@, r),
    decreases old(out)@.len(),
{
    if out.len() == 0 {
        out.push(r);
        proof {
            assert(final(out)@ =~= seq![r]);
        }
    } else {
        let last_size = out[out.len() - 1].data_size;
        if r.data_size < last_size {
            let tail = out.pop().unwrap();
            insert_one_sorted(out, r);
            out.push(tail);
        } else {
            out.push(r);
        }
    }
}

/// Sorts a copy of one group's results by workload size, ascending and
/// stable.
pub fn sort_results_by_size(v: &Vec<BenchmarkResult>) -> (r: Vec<BenchmarkResult>)
    ensures
        r@ == sort_by_size(v@),
{
    let mut out: Vec<BenchmarkResult> = Vec::new();
    let mut i: usize = 0;
    while i < v.len()
        invariant
            0 <= i <= v@.len(),
            out@ == sort_by_size(v@.take(i as int)),
        decreases v@.len() - i,
    {
        insert_one_sorted(&mut out, v[i].clone());
        proof {
            let pre = v@.take(i as int + 1);
            assert(pre.drop_last() =~= v@.take(i as int));
            assert(pre.last() == v@[i as int]);
        }
        i = i + 1;
    }
    proof {
        assert(v@.take(v@.len() as int) =~= v@);
    }
    out
}

/// Groups the results by operation label (in order of first
/// appearance), sorts each group by workload size on a copy — the
/// input is never reordered — and derives each group's scalability.
pub fn aggregate(results: &Vec<BenchmarkResult>, bands: &ScalabilityBands) -> (groups: Vec<
    GroupStats,
>)
    requires
        bands.wf(),
        forall|i: int| 0 <= i < results@.len() ==> (#[trigger] results@[i]).wf(),
    ensures
        aggregate_post(results@, *bands, groups@),
{
    let n = results.len();
    let mut labels: Vec<String> = Vec::new();
    let mut i: usize = 0;
    while i < n
        invariant
            n == results@.len(),
            0 <= i <= n,
            labels@.len() == group_labels(results@.take(i as int)).len(),
            forall|g: int|
                0 <= g < labels@.len() ==> (#[trigger] labels@[g])@ == group_labels(
                    results@.take(i as int),
                )[g],
        decreases n - i,
    {
        let r = &results[i];
        let mut g: usize = 0;
        let mut found = false;
        while !found && g < labels.len()
            invariant
                0 <= g <= labels@.len(),
                found ==> exists|h: int|
                    0 <= h < labels@.len() && (#[trigger] labels@[h])@ == r.operation_type@,
                !found ==> forall|h: int|
                    0 <= h < g ==> (#[trigger] labels@[h])@ != r.operation_type@,
                r == &results@[i as int],
            decreases labels@.len() - g + (if found { 0int } else { 1int }),
        {
            if labels[g] == r.operation_type {
                found = true;
                proof {
                    assert(labels@[g as int]@ == r.operation_type@);
                }
            } else {
                g = g + 1;
            }
        }
        proof {
            let pre = results@.take(i as int + 1);
            assert(pre.drop_last() =~= results@.take(i as int));
            assert(pre.last() == results@[i as int]);
            let gl = group_labels(results@.take(i as int));
            let cur = results@[i as int].operation_type@;
            if found {
                assert(gl.contains(cur)) by {
                    let h = choose|h: int|
                        0 <= h < labels@.len() && (#[trigger] labels@[h])@ == cur;
                    assert(gl[h] == labels@[h]@);
                }
            } else {
                assert(!gl.contains(cur)) by {
                    if gl.contains(cur) {
                        let h = choose|h: int| 0 <= h < gl.len() && gl[h] == cur;
                        assert(labels@[h]@ == cur);
                    }
                }
            }
        }
        if !found {
            labels.push(r.operation_type.clone());
        }
        i = i + 1;
    }
    proof {
        assert(results@.take(n as int) =~= results@);
    }

    let mut groups: Vec<GroupStats> = Vec::new();
    let mut g: usize = 0;
    while g < labels.len()
        invariant
            labels@.len() == group_labels(results@).len(),
            forall|h: int|
                0 <= h < labels@.len() ==> (#[trigger] labels@[h])@ == group_labels(results@)[h],
            bands.wf(),
            forall|i: int| 0 <= i < results@.len() ==> (#[trigger] results@[i]).wf(),
            0 <= g <= labels@.len(),
            groups@.len() == g,
            forall|h: int|
                0 <= h < g ==> {
                    let label = group_labels(results@)[h];
                    &&& (#[trigger] groups@[h]).operation_type@ == label
                    &&& groups@[h].results@ == sort_by_size(filter_label(results@, label))
                    &&& groups@[h].scalability == spec_scalability(
                        sort_by_size(filter_label(results@, label)),
                        *bands,
                    )
                },
        decreases labels@.len() - g,
    {
        let label = labels[g].clone();
        let mut members: Vec<BenchmarkResult> = Vec::new();
        let mut i: usize = 0;
        while i < results.len()
            invariant
                0 <= g < labels@.len(),
                0 <= i <= results@.len(),
                label@ == labels@[g as int]@,
                members@ == filter_label(results@.take(i as int), label@),
            decreases results@.len() - i,
        {
            let r = &results[i];
            proof {
                let pre = results@.take(i as int + 1);
                assert(pre.drop_last() =~= results@.take(i as int));
                assert(pre.last() == results@[i as int]);
            }
            if r.operation_type == label {
                members.push(r.clone());
            }
            i = i + 1;
        }
        proof {
            assert(results@.take(results@.len() as int) =~= results@);
            lemma_filter_label_wf(results@, label@);
            lemma_sort_by_size_wf(filter_label(results@, label@));
        }
        let sorted = sort_results_by_size(&members);
        let scalability: Option<ScalabilityReport> = if sorted.len() >= 2 {
            let first_size = sorted[0].data_size;
            let first_ns = sorted[0].time_ns;
            let last_size = sorted[sorted.len() - 1].data_size;
            let last_ns = sorted[sorted.len() - 1].time_ns;
            if first_size < last_size {
                proof {
                    assert(sorted@[0].wf() && sorted@[sorted@.len() - 1].wf());
                    assert((last_ns as int) * (first_size as int) <= (MAX_TIME_NS as int) * (
                    MAX_DATA_SIZE as int)) by (nonlinear_arith)
                        requires
                            0 <= last_ns <= MAX_TIME_NS,
                            0 <= first_size as int <= MAX_DATA_SIZE as int,
                    ;
                    assert((first_ns as int) * (last_size as int) <= (MAX_TIME_NS as int) * (
                    MAX_DATA_SIZE as int)) by (nonlinear_arith)
                        requires
                            0 <= first_ns <= MAX_TIME_NS,
                            0 <= last_size as int <= MAX_DATA_SIZE as int,
                    ;
                }
                let factor_num = (last_ns as u128) * (first_size as u128);
                let factor_den = (first_ns as u128) * (last_size as u128);
                let rating = classify(factor_num, factor_den, bands);
                Some(
                    ScalabilityReport {
                        size_ratio: Ratio { num: last_size as u128, den: first_size as u128 },
                        time_ratio: Ratio { num: last_ns as u128, den: first_ns as u128 },
                        factor: Ratio { num: factor_num, den: factor_den },
                        rating,
                    },
                )
            } else {
                None
            }
        } else {
            None
        };
        groups.push(GroupStats { operation_type: label, results: sorted, scalability });
        g = g + 1;
    }
    groups
}

} // verus!
