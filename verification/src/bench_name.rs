//! Parsing of benchmark point names such as
//! `sync_order_operations/single_threaded/100` into a human operation
//! label and a workload size. Names come from an externally readable
//! benchmark-results directory, so nothing about their shape may be
//! assumed: an unknown pair of leading segments falls back to the
//! segments themselves, and a trailing segment that is not a valid
//! size falls back to the literal size one.

use vstd::prelude::*;
use crate::text::{all_digits, dec_value, parse_u64, split_on, split_char, str_eq};

verus! {

/// The human label of a known operation/strategy pair of segments;
/// an unknown pair reads as the two segments joined by one space.
pub open spec fn spec_pair_label(first: Seq<char>, second: Seq<char>) -> Seq<char> {
    if first == "sync_order_operations"@ && second == "single_threaded"@ {
        "Sync Single"@
    } else if first == "sync_order_operations"@ && second == "concurrent"@ {
        "Sync Concurrent"@
    } else if first == "async_order_operations"@ && second == "async"@ {
        "Async"@
    } else if first == "order_flattening"@ && second == "sync"@ {
        "Flatten Sync"@
    } else if first == "order_flattening"@ && second == "async"@ {
        "Flatten Async"@
    } else if first == "hft_order_simulation"@ {
        "HFT Simulation"@
    } else if first == "trillion_scale_orders"@ {
        "Trillion Scale"@
    } else {
        first + " "@ + second
    }
}

/// The operation label a benchmark name parses to: the pair label of
/// its first two slash-separated segments, or, with a single segment,
/// that segment itself.
pub open spec fn spec_operation_label(name: Seq<char>) -> Seq<char> {
    let parts = split_on(name, '/');
    if parts.len() >= 2 {
        spec_pair_label(parts[0], parts[1])
    } else {
        parts[0]
    }
}

/// The workload size a benchmark name parses to: the value of its
/// trailing segment, or the literal size one when that segment is not
/// a valid positive size — empty, non-numeric, zero (sizes are
/// positive by construction), or beyond what the machine can index.
pub open spec fn spec_parsed_size(name: Seq<char>) -> int {
    let last = split_on(name, '/').last();
    if last.len() > 0 && all_digits(last) && 1 <= dec_value(last) <= usize::MAX {
        dec_value(last) as int
    } else {
        1
    }
}

/// Splits a benchmark point name into its human operation label and
/// its declared workload size.
pub fn parse_benchmark_name(name: &str) -> (r: (String, usize))
    ensures
        r.0@ == spec_operation_label(name@),
        r.1 == spec_parsed_size(name@),
        r.1 >= 1,
{
    let parts = split_char(name, '/');
    proof {
        crate::text::lemma_split_on_len(name@, '/');
    }
    let operation_type: String = if parts.len() >= 2 {
        let first = parts[0].as_str();
        let second = parts[1].as_str();
        if str_eq(first, "sync_order_operations") && str_eq(second, "single_threaded") {
            "Sync Single".to_owned()
        } else if str_eq(first, "sync_order_operations") && str_eq(second, "concurrent") {
            "Sync Concurrent".to_owned()
        } else if str_eq(first, "async_order_operations") && str_eq(second, "async") {
            "Async".to_owned()
        } else if str_eq(first, "order_flattening") && str_eq(second, "sync") {
            "Flatten Sync".to_owned()
        } else if str_eq(first, "order_flattening") && str_eq(second, "async") {
            "Flatten Async".to_owned()
        } else if str_eq(first, "hft_order_simulation") {
            "HFT Simulation".to_owned()
        } else if str_eq(first, "trillion_scale_orders") {
            "Trillion Scale".to_owned()
        } else {
            let mut joined = first.to_owned();
            crate::text::push_char(&mut joined, ' ');
            joined.append(second);
            proof {
                reveal_strlit(" ");
                assert(joined@ =~= parts@[0]@ + " "@ + parts@[1]@);
            }
            joined
        }
    } else {
        parts[0].clone()
    };
    let last = parts[parts.len() - 1].as_str();
    proof {
        assert(parts@[parts@.len() - 1]@ == split_on(name@, '/').last());
    }
    let data_size: usize = match parse_u64(last) {
        Some(v) => {
            if 1 <= v && v <= usize::MAX as u64 {
                v as usize
            } else {
                1
            }
        },
        None => 1,
    };
    (operation_type, data_size)
}

} // verus!
