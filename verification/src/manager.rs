//! The stats manager: wires parser, store and notifier together, and owns
//! both for the process lifetime. Ingestion parses and merges a payload and
//! evaluates the notification rules on the merged record; the read path
//! evicts stale clients and renders a consistent snapshot as JSON.

use vstd::prelude::*;
use vstd::string::StringSliceAdditionalSpecFns;
use crate::store::{
    MetricStore, Snapshot, RecV, store_wf, merge_store, keep_live, rec_at, rec_wf,
};
use crate::notifier::{
    Notifier, NotificationRule, NotificationEvent, NotV, notifier_wf, eval_from, rule_wf,
};
use crate::parse::{parse_report, parse_spec, ParseError};
use crate::render::{render_snapshot, json_of_snapshot, nat_str};

verus! {

pub struct StatsMgr {
    store: MetricStore,
    notifier: Notifier,
    ttl: i64,
}

impl StatsMgr {
    /// The store's records.
    pub closed spec fn store_view(self) -> Seq<RecV> {
        self.store@
    }

    /// The notifier's state.
    pub closed spec fn notifier_view(self) -> NotV {
        self.notifier@
    }

    /// The configured stale-client ttl.
    pub closed spec fn ttl_view(self) -> int {
        self.ttl as int
    }

    pub closed spec fn wf(self) -> bool {
        store_wf(self.store@) && notifier_wf(self.notifier@) && self.ttl >= 0
    }

    /// A manager over the given rules, stale-client ttl and notification
    /// queue bound; refused when the configuration is malformed.
    pub fn new(rules: Vec<NotificationRule>, ttl: i64, queue_cap: usize) -> (r: Option<StatsMgr>)
        ensures
            match r {
                Some(m) => {
                    &&& m.wf()
                    &&& m.store_view() == Seq::<RecV>::empty()
                    &&& m.ttl_view() == ttl as int
                    &&& m.notifier_view().rules == rules@.map_values(|r: NotificationRule| r@)
                    &&& m.notifier_view().queue == Seq::<crate::notifier::EventV>::empty()
                    &&& m.notifier_view().cap == queue_cap as int
                },
                None => ttl < 0 || exists|i: int|
                    0 <= i < rules@.len() && !rule_wf((#[trigger] rules@[i])@),
            },
    {
        if ttl < 0 {
            return None;
        }
        match Notifier::new(rules, queue_cap) {
            Some(n) => Some(StatsMgr { store: MetricStore::new(), notifier: n, ttl }),
            None => None,
        }
    }

    /// Ingest one raw payload: parse it, merge it, evaluate the rules on
    /// the merged record, and return the payload's size in bytes. A payload
    /// that does not parse is rejected and leaves everything unchanged.
    pub fn report(&mut self, raw: &str, now: i64) -> (r: Result<usize, ParseError>)
        requires
            old(self).wf(),
        ensures
            final(self).wf(),
            final(self).ttl_view() == old(self).ttl_view(),
            match parse_spec(raw@, now as int) {
                None => r is Err && final(self).store_view() == old(self).store_view()
                    && final(self).notifier_view() == old(self).notifier_view(),
                Some(rep) => {
                    &&& r is Ok
                    &&& final(self).store_view() == merge_store(old(self).store_view(), rep)
                    &&& final(self).notifier_view().rules == old(self).notifier_view().rules
                    &&& final(self).notifier_view().cap == old(self).notifier_view().cap
                    &&& (final(self).notifier_view().fired, final(self).notifier_view().queue)
                        == eval_from(
                        old(self).notifier_view().rules,
                        0,
                        rec_at(merge_store(old(self).store_view(), rep), rep.client_id),
                        now as int,
                        old(self).notifier_view().fired,
                        old(self).notifier_view().queue,
                        old(self).notifier_view().cap,
                    )
                },
            },
            r is Ok ==> r->Ok_0 == raw.spec_bytes().len() as usize,
    {
        match parse_report(raw, now) {
            Err(e) => Err(e),
            Ok(rep) => {
                let (merged, _out_of_order) = self.store.merge(&rep);
                proof {
                    let rs = self.store@;
                    let i = choose|i: int|
                        0 <= i < rs.len() && (#[trigger] rs[i]).client_id == rep@.client_id;
                    assert(rec_wf(rs[i]));
                    assert(rec_wf(merged@));
                }
                self.notifier.evaluate(&merged, now);
                Ok(raw.len())
            },
        }
    }

    /// Evict clients whose `last_seen` lies before `now - ttl`, then render
    /// a consistent snapshot of what remains.
    pub fn snapshot_json(&mut self, now: i64) -> (r: String)
        requires
            old(self).wf(),
        ensures
            final(self).wf(),
            final(self).ttl_view() == old(self).ttl_view(),
            final(self).notifier_view() == old(self).notifier_view(),
            final(self).store_view() == keep_live(
                old(self).store_view(),
                now as int - old(self).ttl_view(),
            ),
            r@ == json_of_snapshot(final(self).store_view()),
    {
        self.store.evict_stale(now, self.ttl);
        let snap = self.store.snapshot();
        render_snapshot(&snap)
    }

    /// A consistent structured copy of the store (without eviction).
    pub fn snapshot(&self) -> (s: Snapshot)
        requires
            self.wf(),
        ensures
            s@ == self.store_view(),
            store_wf(s@),
    {
        self.store.snapshot()
    }

    /// Replace the store's contents from a persisted snapshot; a malformed
    /// one is refused and changes nothing.
    pub fn reload(&mut self, snap: Snapshot) -> (ok: bool)
        requires
            old(self).wf(),
        ensures
            final(self).wf(),
            ok == store_wf(snap@),
            ok ==> final(self).store_view() == snap@,
            !ok ==> final(self).store_view() == old(self).store_view(),
            final(self).notifier_view() == old(self).notifier_view(),
            final(self).ttl_view() == old(self).ttl_view(),
    {
        self.store.reload(snap)
    }

    /// Evict clients stale at `now`.
    pub fn evict_stale(&mut self, now: i64)
        requires
            old(self).wf(),
        ensures
            final(self).wf(),
            final(self).store_view() == keep_live(
                old(self).store_view(),
                now as int - old(self).ttl_view(),
            ),
            final(self).notifier_view() == old(self).notifier_view(),
            final(self).ttl_view() == old(self).ttl_view(),
    {
        self.store.evict_stale(now, self.ttl);
    }

    /// Hand the oldest pending notification to the delivery side.
    pub fn next_event(&mut self) -> (r: Option<NotificationEvent>)
        requires
            old(self).wf(),
        ensures
            final(self).wf(),
            final(self).store_view() == old(self).store_view(),
            final(self).ttl_view() == old(self).ttl_view(),
            old(self).notifier_view().queue.len() == 0 ==> r is None && final(self).notifier_view()
                == old(self).notifier_view(),
            old(self).notifier_view().queue.len() > 0 ==> r is Some
                && r->0@ == old(self).notifier_view().queue[0]
                && final(self).notifier_view() == (NotV {
                queue: old(self).notifier_view().queue.drop_first(),
                ..old(self).notifier_view()
            }),
    {
        self.notifier.pop_event()
    }
}

/// The ingestion call's reply body for an accepted payload.
pub fn report_response_json(size: usize) -> (r: String)
    ensures
        r@ == "{\"code\":0,\"size\":"@ + nat_str(size as nat) + "}"@,
{
    let mut s = "{\"code\":0,\"size\":".to_owned();
    crate::render::push_u64(&mut s, size as u64);
    s.append("}");
    proof {
        assert(s@ =~= "{\"code\":0,\"size\":"@ + nat_str(size as nat) + "}"@);
    }
    s
}

} // verus!
