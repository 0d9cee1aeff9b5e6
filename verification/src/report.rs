//! The shape of one ingested submission: a client id, a timestamp, and an
//! ordered list of named metric values.

use vstd::prelude::*;
use crate::num::Dec;

verus! {

/// A metric value: a decimal number, a boolean, or a piece of text.
pub enum MetricValue {
    Num(Dec),
    Bool(bool),
    Text(String),
}

impl MetricValue {
    pub open spec fn wf(self) -> bool {
        match self {
            MetricValue::Num(d) => d.wf(),
            _ => true,
        }
    }

    /// An exact copy.
    pub fn dup(&self) -> (r: Self)
        ensures
            r == *self,
    {
        match self {
            MetricValue::Num(d) => MetricValue::Num(*d),
            MetricValue::Bool(b) => MetricValue::Bool(*b),
            MetricValue::Text(s) => MetricValue::Text(s.clone()),
        }
    }
}

/// One ingestion event, immutable once parsed. The metric list keeps the
/// order in which the pairs appeared in the payload; a repeated name is kept
/// repeated, and merging applies the pairs in order (last write wins).
pub struct Report {
    pub client_id: String,
    pub timestamp: i64,
    pub metrics: Vec<(String, MetricValue)>,
}

impl Report {
    pub open spec fn wf(self) -> bool {
        self.client_id@.len() > 0 && forall|i: int|
            0 <= i < self.metrics@.len() ==> (#[trigger] self.metrics@[i].1).wf()
    }
}

} // verus!
