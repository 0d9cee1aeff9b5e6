//! Telemetry ingestion and aggregation core: payload parsing, a metric store
//! with per-client aggregates and stale-client eviction, and a threshold
//! notifier with cooldown-based rate limiting.

use vstd::prelude::*;

pub mod manager;
pub mod notifier;
pub mod num;
pub mod parse;
pub mod render;
pub mod report;
pub mod store;

verus! {

/// Relies on String::push: appends exactly the given character.
#[verifier::external_body]
pub(crate) fn push_char(s: &mut String, c: char)
    ensures
        final(s)@ == old(s)@.push(c),
{
    s.push(c);
}

} // verus!
