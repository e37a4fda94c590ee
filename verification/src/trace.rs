//! Whether span tracing is switched on, and with which filter.

use vstd::prelude::*;
use crate::recipient::opt_view;
use crate::text::{chars_eq, chars_of};

verus! {

/// Whether the `GIT_SSHRIPPED_TRACE` value turns tracing on.
pub open spec fn trace_enabled(value: Option<Seq<char>>) -> bool {
    match value {
        Some(v) => v == "1"@ || v == "true"@ || v == "on"@,
        None => false,
    }
}

fn is_one_of(v: &[char], word: &str) -> (r: bool)
    ensures
        r == (v@ == word@),
{
    let w = chars_of(word);
    chars_eq(v, w.as_slice())
}

/// Decides the tracing setup from the values of `GIT_SSHRIPPED_TRACE` and
/// `RUST_LOG` (`None` when unset): no tracing unless the first is `1`,
/// `true` or `on`; otherwise the span filter is `RUST_LOG`, or
/// `trace` (every span) when that is unset.
pub fn init_trace(trace_var: Option<&str>, rust_log: Option<&str>) -> (r: Option<String>)
    ensures
        (r is Some) == trace_enabled(opt_view(trace_var)),
        r matches Some(f) ==> f@ == match rust_log {
            Some(l) => l@,
            None => "trace"@,
        },
{
    let enabled = match trace_var {
        Some(t) => {
            let v = chars_of(t);
            is_one_of(v.as_slice(), "1") || is_one_of(v.as_slice(), "true") || is_one_of(
                v.as_slice(),
                "on",
            )
        },
        None => false,
    };
    if !enabled {
        return None;
    }
    match rust_log {
        Some(l) => Some(String::from_str(l)),
        None => Some(String::from_str("trace")),
    }
}

} // verus!
