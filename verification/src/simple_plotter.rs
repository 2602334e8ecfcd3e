//! The result-set holder the reporting sinks consume: an append-only
//! ordered sequence of benchmark results, with the fixed built-in
//! sample set the system falls back to when no external measurements
//! can be read.

use vstd::prelude::*;
use crate::csv::{csv_document, csv_safe, spec_csv_doc};
use crate::stats::{
    BenchmarkResult, GroupStats, ScalabilityBands, aggregate, aggregate_post,
};

verus! {

/// The fixed built-in sample point `j`: its name, operation label,
/// workload size and elapsed nanoseconds.
pub open spec fn sample_entry(j: int) -> (Seq<char>, Seq<char>, int, int) {
    if j == 0 {
        ("sync_order_operations/single_threaded"@, "Sync Single"@, 100, 46500)
    } else if j == 1 {
        ("sync_order_operations/single_threaded"@, "Sync Single"@, 1000, 557000)
    } else if j == 2 {
        ("sync_order_operations/single_threaded"@, "Sync Single"@, 10000, 5870000)
    } else if j == 3 {
        ("sync_order_operations/concurrent"@, "Sync Concurrent"@, 100, 61700)
    } else if j == 4 {
        ("sync_order_operations/concurrent"@, "Sync Concurrent"@, 1000, 580000)
    } else if j == 5 {
        ("sync_order_operations/concurrent"@, "Sync Concurrent"@, 10000, 6000000)
    } else if j == 6 {
        ("async_order_operations/async"@, "Async"@, 100, 105000)
    } else if j == 7 {
        ("async_order_operations/async"@, "Async"@, 1000, 1100000)
    } else {
        ("async_order_operations/async"@, "Async"@, 10000, 11000000)
    }
}

/// An append-only ordered result set; only measurement code appends,
/// and reporting reads it after all trials have finished.
#[derive(Debug)]
pub struct SimplePlotter {
    pub results: Vec<BenchmarkResult>,
}

impl SimplePlotter {
    /// Every held result is well-formed.
    pub open spec fn wf(&self) -> bool {
        forall|i: int| 0 <= i < self.results@.len() ==> (#[trigger] self.results@[i]).wf()
    }

    pub fn new() -> (r: Self)
        ensures
            r.results@ =~= Seq::<BenchmarkResult>::empty(),
            r.wf(),
    {
        SimplePlotter { results: Vec::new() }
    }

    /// Appends one result; nothing already held changes.
    pub fn add_result(&mut self, result: BenchmarkResult)
        ensures
            final(self).results@ == old(self).results@.push(result),
            old(self).wf() && result.wf() ==> final(self).wf(),
    {
        self.results.push(result);
        proof {
            if old(self).wf() && result.wf() {
                assert forall|i: int|
                    0 <= i < final(self).results@.len() implies #[trigger] final(
                    self).results@[i].wf() by {
                    if i < old(self).results@.len() {
                        assert(final(self).results@[i] == old(self).results@[i]);
                    }
                }
            }
        }
    }

    /// Appends the fixed built-in sample set: three sizes for each of
    /// the three strategies, the fallback when no external
    /// measurements can be read.
    pub fn add_sample_results(&mut self)
        ensures
            final(self).results@.len() == old(self).results@.len() + 9,
            final(self).results@.take(old(self).results@.len() as int) == old(self).results@,
            forall|j: int|
                0 <= j < 9 ==> {
                    let r = #[trigger] final(self).results@[old(self).results@.len() + j];
                    &&& r.name@ == sample_entry(j).0
                    &&& r.operation_type@ == sample_entry(j).1
                    &&& r.data_size == sample_entry(j).2
                    &&& r.time_ns == sample_entry(j).3
                    &&& r.wf()
                },
            old(self).wf() ==> final(self).wf(),
    {
        let ghost base = self.results@.len() as int;
        self.push_sample("sync_order_operations/single_threaded", "Sync Single", 100, 46500);
        self.push_sample("sync_order_operations/single_threaded", "Sync Single", 1000, 557000);
        self.push_sample("sync_order_operations/single_threaded", "Sync Single", 10000, 5870000);
        self.push_sample("sync_order_operations/concurrent", "Sync Concurrent", 100, 61700);
        self.push_sample("sync_order_operations/concurrent", "Sync Concurrent", 1000, 580000);
        self.push_sample("sync_order_operations/concurrent", "Sync Concurrent", 10000, 6000000);
        self.push_sample("async_order_operations/async", "Async", 100, 105000);
        self.push_sample("async_order_operations/async", "Async", 1000, 1100000);
        self.push_sample("async_order_operations/async", "Async", 10000, 11000000);
        proof {
            assert(final(self).results@.take(base) =~= old(self).results@);
            if old(self).wf() {
                assert forall|i: int|
                    0 <= i < final(self).results@.len() implies #[trigger] final(
                    self).results@[i].wf() by {
                    if i < base {
                        assert(final(self).results@[i] == old(self).results@[i]);
                    }
                }
            }
        }
    }

    fn push_sample(&mut self, name: &str, operation_type: &str, data_size: usize, time_ns: u64)
        requires
            1 <= data_size && data_size <= crate::stats::MAX_DATA_SIZE,
            1 <= time_ns <= crate::stats::MAX_TIME_NS,
        ensures
            final(self).results@.len() == old(self).results@.len() + 1,
            final(self).results@.take(old(self).results@.len() as int) == old(self).results@,
            ({
                let r = final(self).results@.last();
                &&& r.name@ == name@
                &&& r.operation_type@ == operation_type@
                &&& r.data_size == data_size
                &&& r.time_ns == time_ns
                &&& r.wf()
            }),
    {
        let result = BenchmarkResult::new(
            name.to_owned(),
            operation_type.to_owned(),
            data_size,
            time_ns,
        );
        self.results.push(result);
        proof {
            assert(final(self).results@.take(old(self).results@.len() as int) =~= old(
                self,
            ).results@);
        }
    }

    /// Derives the grouped statistics of the held results.
    pub fn aggregate_stats(&self, bands: &ScalabilityBands) -> (groups: Vec<GroupStats>)
        requires
            self.wf(),
            bands.wf(),
        ensures
            aggregate_post(self.results@, *bands, groups@),
    {
        aggregate(&self.results, bands)
    }

    /// Renders the held results as a CSV document stamped with the
    /// current time.
    pub fn export_csv_document(&self) -> (out: String)
        requires
            self.wf(),
        ensures
            exists|ts: Seq<char>|
                #[trigger] csv_safe(ts) && out@ == spec_csv_doc(ts, self.results@),
    {
        csv_document(&self.results)
    }
}

impl Default for SimplePlotter {
    fn default() -> (r: Self)
        ensures
            r.results@ =~= Seq::<BenchmarkResult>::empty(),
    {
        SimplePlotter { results: Vec::new() }
    }
}

} // verus!
