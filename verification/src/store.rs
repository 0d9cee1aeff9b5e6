//! The metric store: one aggregate record per client, merge semantics,
//! point-in-time snapshots, stale-client eviction, and snapshot reload.

use vstd::prelude::*;
use crate::num::{Dec, sat_add, dec_scaled, i128_sat_add};
use crate::report::{MetricValue, Report};

verus! {

// ---------------------------------------------------------------------------
// Abstract model
// ---------------------------------------------------------------------------
/// Abstract metric value.
pub enum ValV {
    Num(Dec),
    Bool(bool),
    Text(Seq<char>),
}

pub open spec fn val_wf(v: ValV) -> bool {
    match v {
        ValV::Num(d) => d.wf(),
        _ => true,
    }
}

/// Abstract numeric aggregate.
pub struct NumAggV {
    pub min: Dec,
    pub max: Dec,
    pub sum: int,
}

/// Abstract per-metric aggregate.
pub struct AggV {
    pub last: ValV,
    pub count: nat,
    pub num: Option<NumAggV>,
}

/// Abstract per-client record.
pub struct RecV {
    pub client_id: Seq<char>,
    pub last_seen: int,
    pub metrics: Seq<(Seq<char>, AggV)>,
}

/// Abstract report.
pub struct RepV {
    pub client_id: Seq<char>,
    pub timestamp: int,
    pub metrics: Seq<(Seq<char>, ValV)>,
}

pub open spec fn rep_wf(r: RepV) -> bool {
    r.client_id.len() > 0 && forall|i: int|
        0 <= i < r.metrics.len() ==> val_wf(#[trigger] r.metrics[i].1)
}

/// The aggregate an isolated value starts from: count 1; for a number, min,
/// max and sum all equal to it.
pub open spec fn init_agg(v: ValV) -> AggV {
    AggV {
        last: v,
        count: 1,
        num: match v {
            ValV::Num(d) => Some(NumAggV { min: d, max: d, sum: d.val() }),
            _ => None,
        },
    }
}

/// Merging one more value into an aggregate: last write wins, the count
/// grows (clamped to the counter's range), and a numeric value widens the
/// min/max envelope and joins the running sum.
pub open spec fn upd_agg(a: AggV, v: ValV) -> AggV {
    let count2: nat = if a.count >= u64::MAX { a.count } else { a.count + 1 };
    match v {
        ValV::Num(d) => {
            let na = match a.num {
                Some(n) => NumAggV {
                    min: if d.val() < n.min.val() {
                        d
                    } else {
                        n.min
                    },
                    max: if n.max.val() < d.val() {
                        d
                    } else {
                        n.max
                    },
                    sum: sat_add(n.sum, d.val()),
                },
                None => NumAggV { min: d, max: d, sum: d.val() },
            };
            AggV { last: v, count: count2, num: Some(na) }
        },
        _ => AggV { last: v, count: count2, num: a.num },
    }
}

pub open spec fn agg_wf(a: AggV) -> bool {
    &&& a.count >= 1
    &&& val_wf(a.last)
    &&& match a.num {
        Some(n) => n.min.wf() && n.max.wf() && n.min.val() <= n.max.val(),
        None => true,
    }
    &&& match a.last {
        ValV::Num(d) => a.num is Some && a.num->0.min.val() <= d.val() <= a.num->0.max.val(),
        _ => true,
    }
}

pub open spec fn metrics_has(ms: Seq<(Seq<char>, AggV)>, name: Seq<char>) -> bool {
    exists|i: int| 0 <= i < ms.len() && (#[trigger] ms[i]).0 == name
}

/// The aggregate stored under `name` (meaningful when names are distinct).
pub open spec fn agg_at(ms: Seq<(Seq<char>, AggV)>, name: Seq<char>) -> AggV {
    ms[choose|i: int| 0 <= i < ms.len() && (#[trigger] ms[i]).0 == name].1
}

pub open spec fn metrics_wf(ms: Seq<(Seq<char>, AggV)>) -> bool {
    &&& forall|i: int| 0 <= i < ms.len() ==> agg_wf((#[trigger] ms[i]).1)
    &&& forall|i: int, j: int| 0 <= i < j < ms.len() ==> (#[trigger] ms[i]).0 != (#[trigger] ms[j]).0
}

/// One named value merged into a metric list: update the unique entry with
/// that name, or append a fresh one.
pub open spec fn merge_metric(
    ms: Seq<(Seq<char>, AggV)>,
    name: Seq<char>,
    v: ValV,
) -> Seq<(Seq<char>, AggV)> {
    if metrics_has(ms, name) {
        Seq::new(
            ms.len(),
            |i: int|
                if ms[i].0 == name {
                    (ms[i].0, upd_agg(ms[i].1, v))
                } else {
                    ms[i]
                },
        )
    } else {
        ms.push((name, init_agg(v)))
    }
}

/// A report's metric pairs merged in order (so a repeated name is applied
/// last-write-wins).
pub open spec fn merge_metrics(
    ms: Seq<(Seq<char>, AggV)>,
    pairs: Seq<(Seq<char>, ValV)>,
) -> Seq<(Seq<char>, AggV)>
    decreases pairs.len(),
{
    if pairs.len() == 0 {
        ms
    } else {
        merge_metrics(merge_metric(ms, pairs[0].0, pairs[0].1), pairs.drop_first())
    }
}

pub open spec fn rec_wf(r: RecV) -> bool {
    r.client_id.len() > 0 && metrics_wf(r.metrics)
}

/// A report merged into the record that already holds its client.
pub open spec fn merge_rec(rec: RecV, rep: RepV) -> RecV {
    RecV {
        client_id: rec.client_id,
        last_seen: if rep.timestamp > rec.last_seen {
            rep.timestamp
        } else {
            rec.last_seen
        },
        metrics: merge_metrics(rec.metrics, rep.metrics),
    }
}

/// The record a report creates for a client seen for the first time.
pub open spec fn fresh_rec(rep: RepV) -> RecV {
    RecV {
        client_id: rep.client_id,
        last_seen: rep.timestamp,
        metrics: merge_metrics(Seq::empty(), rep.metrics),
    }
}

pub open spec fn has_client(rs: Seq<RecV>, id: Seq<char>) -> bool {
    exists|i: int| 0 <= i < rs.len() && (#[trigger] rs[i]).client_id == id
}

/// The record of client `id` (meaningful when ids are distinct).
pub open spec fn rec_at(rs: Seq<RecV>, id: Seq<char>) -> RecV {
    rs[choose|i: int| 0 <= i < rs.len() && (#[trigger] rs[i]).client_id == id]
}

pub open spec fn store_wf(rs: Seq<RecV>) -> bool {
    &&& forall|i: int| 0 <= i < rs.len() ==> rec_wf(#[trigger] rs[i])
    &&& forall|i: int, j: int|
        0 <= i < j < rs.len() ==> (#[trigger] rs[i]).client_id != (#[trigger] rs[j]).client_id
}

/// A report merged into the whole store.
pub open spec fn merge_store(rs: Seq<RecV>, rep: RepV) -> Seq<RecV> {
    if has_client(rs, rep.client_id) {
        Seq::new(
            rs.len(),
            |i: int|
                if rs[i].client_id == rep.client_id {
                    merge_rec(rs[i], rep)
                } else {
                    rs[i]
                },
        )
    } else {
        rs.push(fresh_rec(rep))
    }
}

/// The records that survive eviction with the given cutoff.
pub open spec fn keep_live(rs: Seq<RecV>, cutoff: int) -> Seq<RecV>
    decreases rs.len(),
{
    if rs.len() == 0 {
        Seq::empty()
    } else {
        let rest = keep_live(rs.drop_last(), cutoff);
        if rs.last().last_seen >= cutoff {
            rest.push(rs.last())
        } else {
            rest
        }
    }
}

// ---------------------------------------------------------------------------
// Model lemmas
// ---------------------------------------------------------------------------
pub proof fn lemma_init_agg_wf(v: ValV)
    requires
        val_wf(v),
    ensures
        agg_wf(init_agg(v)),
{
}

pub proof fn lemma_upd_agg_wf(a: AggV, v: ValV)
    requires
        agg_wf(a),
        val_wf(v),
    ensures
        agg_wf(upd_agg(a, v)),
{
}

pub proof fn lemma_merge_metric_wf(ms: Seq<(Seq<char>, AggV)>, name: Seq<char>, v: ValV)
    requires
        metrics_wf(ms),
        val_wf(v),
    ensures
        metrics_wf(merge_metric(ms, name, v)),
        metrics_has(merge_metric(ms, name, v), name),
        forall|n: Seq<char>|
            #[trigger] metrics_has(merge_metric(ms, name, v), n) <==> metrics_has(ms, n) || n
                == name,
{
    let r = merge_metric(ms, name, v);
    if metrics_has(ms, name) {
        assert forall|i: int| 0 <= i < r.len() implies agg_wf((#[trigger] r[i]).1) by {
            if ms[i].0 == name {
                lemma_upd_agg_wf(ms[i].1, v);
            }
        }
        assert forall|n: Seq<char>| #[trigger]
            metrics_has(r, n) implies metrics_has(ms, n) || n == name by {
            let i = choose|i: int| 0 <= i < r.len() && (#[trigger] r[i]).0 == n;
            assert(ms[i].0 == n);
        }
        assert forall|n: Seq<char>| metrics_has(ms, n) implies #[trigger] metrics_has(r, n) by {
            let i = choose|i: int| 0 <= i < ms.len() && (#[trigger] ms[i]).0 == n;
            assert(r[i].0 == n);
        }
    } else {
        lemma_init_agg_wf(v);
        assert forall|n: Seq<char>| #[trigger]
            metrics_has(r, n) implies metrics_has(ms, n) || n == name by {
            let i = choose|i: int| 0 <= i < r.len() && (#[trigger] r[i]).0 == n;
            if i < ms.len() {
                assert(ms[i].0 == n);
            }
        }
        assert forall|n: Seq<char>| metrics_has(ms, n) implies #[trigger] metrics_has(r, n) by {
            let i = choose|i: int| 0 <= i < ms.len() && (#[trigger] ms[i]).0 == n;
            assert(r[i].0 == n);
        }
        assert(r[ms.len() as int].0 == name);
    }
}

pub proof fn lemma_merge_metrics_wf(ms: Seq<(Seq<char>, AggV)>, pairs: Seq<(Seq<char>, ValV)>)
    requires
        metrics_wf(ms),
        forall|i: int| 0 <= i < pairs.len() ==> val_wf(#[trigger] pairs[i].1),
    ensures
        metrics_wf(merge_metrics(ms, pairs)),
    decreases pairs.len(),
{
    if pairs.len() > 0 {
        lemma_merge_metric_wf(ms, pairs[0].0, pairs[0].1);
        lemma_merge_metrics_wf(merge_metric(ms, pairs[0].0, pairs[0].1), pairs.drop_first());
    }
}

pub proof fn lemma_merge_rec_wf(rec: RecV, rep: RepV)
    requires
        rec_wf(rec),
        rep_wf(rep),
    ensures
        rec_wf(merge_rec(rec, rep)),
{
    lemma_merge_metrics_wf(rec.metrics, rep.metrics);
}

pub proof fn lemma_fresh_rec_wf(rep: RepV)
    requires
        rep_wf(rep),
    ensures
        rec_wf(fresh_rec(rep)),
{
    lemma_merge_metrics_wf(Seq::empty(), rep.metrics);
}

/// What one merge does to the set of clients: the reported client is present
/// afterwards, every other client's presence is untouched, and the length
/// grows exactly when the client was new.
pub proof fn lemma_merge_store_props(rs: Seq<RecV>, rep: RepV)
    requires
        store_wf(rs),
        rep_wf(rep),
    ensures
        store_wf(merge_store(rs, rep)),
        has_client(merge_store(rs, rep), rep.client_id),
        merge_store(rs, rep).len() == if has_client(rs, rep.client_id) {
            rs.len()
        } else {
            rs.len() + 1
        },
        forall|id: Seq<char>|
            id != rep.client_id ==> (#[trigger] has_client(merge_store(rs, rep), id) <==> has_client(
                rs,
                id,
            )),
{
    let r = merge_store(rs, rep);
    if has_client(rs, rep.client_id) {
        assert forall|i: int| 0 <= i < r.len() implies rec_wf(#[trigger] r[i]) by {
            if rs[i].client_id == rep.client_id {
                lemma_merge_rec_wf(rs[i], rep);
            }
        }
        let k = choose|i: int| 0 <= i < rs.len() && (#[trigger] rs[i]).client_id == rep.client_id;
        assert(r[k].client_id == rep.client_id);
        assert forall|id: Seq<char>| id != rep.client_id implies (#[trigger] has_client(r, id)
            <==> has_client(rs, id)) by {
            if has_client(r, id) {
                let i = choose|i: int| 0 <= i < r.len() && (#[trigger] r[i]).client_id == id;
                assert(rs[i].client_id == id);
            }
            if has_client(rs, id) {
                let i = choose|i: int| 0 <= i < rs.len() && (#[trigger] rs[i]).client_id == id;
                assert(r[i].client_id == id);
            }
        }
    } else {
        lemma_fresh_rec_wf(rep);
        assert(r[rs.len() as int].client_id == rep.client_id);
        assert forall|id: Seq<char>| id != rep.client_id implies (#[trigger] has_client(r, id)
            <==> has_client(rs, id)) by {
            if has_client(r, id) {
                let i = choose|i: int| 0 <= i < r.len() && (#[trigger] r[i]).client_id == id;
                assert(0 <= i < rs.len() && rs[i].client_id == id);
            }
            if has_client(rs, id) {
                let i = choose|i: int| 0 <= i < rs.len() && (#[trigger] rs[i]).client_id == id;
                assert(r[i].client_id == id);
            }
        }
    }
}

} // verus!


verus! {

// ---------------------------------------------------------------------------
// Views of the executable types
// ---------------------------------------------------------------------------
impl View for MetricValue {
    type V = ValV;

    open spec fn view(&self) -> ValV {
        match *self {
            MetricValue::Num(d) => ValV::Num(d),
            MetricValue::Bool(b) => ValV::Bool(b),
            MetricValue::Text(ref s) => ValV::Text(s@),
        }
    }
}

impl View for Report {
    type V = RepV;

    open spec fn view(&self) -> RepV {
        RepV {
            client_id: self.client_id@,
            timestamp: self.timestamp as int,
            metrics: self.metrics@.map_values(|p: (String, MetricValue)| (p.0@, p.1@)),
        }
    }
}

pub proof fn lemma_report_wf(r: &Report)
    requires
        r.wf(),
    ensures
        rep_wf(r@),
{
    assert forall|i: int| 0 <= i < r@.metrics.len() implies val_wf(#[trigger] r@.metrics[i].1) by {
        assert(r@.metrics[i].1 == r.metrics@[i].1@);
        assert(r.metrics@[i].1.wf());
    }
}

/// Running numeric aggregate of one metric.
#[derive(Clone, Copy)]
pub struct NumAgg {
    pub min: Dec,
    pub max: Dec,
    pub sum: i128,
}

impl View for NumAgg {
    type V = NumAggV;

    open spec fn view(&self) -> NumAggV {
        NumAggV { min: self.min, max: self.max, sum: self.sum as int }
    }
}

/// Per-metric aggregate: last value written, number of writes, and the
/// numeric envelope when numeric values have been seen.
pub struct MetricAggregate {
    pub last: MetricValue,
    pub count: u64,
    pub num: Option<NumAgg>,
}

impl View for MetricAggregate {
    type V = AggV;

    open spec fn view(&self) -> AggV {
        AggV {
            last: self.last@,
            count: self.count as nat,
            num: match self.num {
                Some(n) => Some(n@),
                None => None,
            },
        }
    }
}

pub open spec fn msview(ms: Seq<(String, MetricAggregate)>) -> Seq<(Seq<char>, AggV)> {
    ms.map_values(|p: (String, MetricAggregate)| (p.0@, p.1@))
}

/// The aggregate state of one client.
pub struct ClientRecord {
    pub client_id: String,
    pub last_seen: i64,
    pub metrics: Vec<(String, MetricAggregate)>,
}

impl View for ClientRecord {
    type V = RecV;

    open spec fn view(&self) -> RecV {
        RecV {
            client_id: self.client_id@,
            last_seen: self.last_seen as int,
            metrics: msview(self.metrics@),
        }
    }
}

pub open spec fn rsview(rs: Seq<ClientRecord>) -> Seq<RecV> {
    rs.map_values(|r: ClientRecord| r@)
}

/// The store itself: one record per client.
pub struct MetricStore {
    records: Vec<ClientRecord>,
}

impl View for MetricStore {
    type V = Seq<RecV>;

    closed spec fn view(&self) -> Seq<RecV> {
        rsview(self.records@)
    }
}

/// A point-in-time copy of the whole store; later store mutations do not
/// change it.
pub struct Snapshot {
    pub records: Vec<ClientRecord>,
}

impl View for Snapshot {
    type V = Seq<RecV>;

    open spec fn view(&self) -> Seq<RecV> {
        rsview(self.records@)
    }
}

// ---------------------------------------------------------------------------
// Executable aggregation
// ---------------------------------------------------------------------------
/// The aggregate a first value creates.
pub fn agg_init(v: MetricValue) -> (a: MetricAggregate)
    requires
        v.wf(),
    ensures
        a@ == init_agg(v@),
{
    match &v {
        MetricValue::Num(d) => {
            let s = dec_scaled(d);
            let m = *d;
            MetricAggregate { last: v, count: 1, num: Some(NumAgg { min: m, max: m, sum: s }) }
        },
        _ => MetricAggregate { last: v, count: 1, num: None },
    }
}

/// Merge one more value into an existing aggregate.
pub fn agg_update(a: &mut MetricAggregate, v: MetricValue)
    requires
        agg_wf(old(a)@),
        v.wf(),
    ensures
        final(a)@ == upd_agg(old(a)@, v@),
{
    if a.count < u64::MAX {
        a.count = a.count + 1;
    }
    match &v {
        MetricValue::Num(d) => {
            let dv = dec_scaled(d);
            let na = match &a.num {
                Some(n) => {
                    let nmin = dec_scaled(&n.min);
                    let nmax = dec_scaled(&n.max);
                    NumAgg {
                        min: if dv < nmin {
                            *d
                        } else {
                            n.min
                        },
                        max: if nmax < dv {
                            *d
                        } else {
                            n.max
                        },
                        sum: i128_sat_add(n.sum, dv),
                    }
                },
                None => NumAgg { min: *d, max: *d, sum: dv },
            };
            a.num = Some(na);
        },
        _ => {},
    }
    a.last = v;
}

/// An exact copy of an aggregate.
pub fn agg_dup(a: &MetricAggregate) -> (r: MetricAggregate)
    ensures
        r == *a,
{
    MetricAggregate { last: a.last.dup(), count: a.count, num: a.num }
}

} // verus!

verus! {

/// Merge one named value into a metric list: update the entry carrying the
/// name, or append a fresh one.
fn merge_metric_vec(ms: &mut Vec<(String, MetricAggregate)>, name: String, v: MetricValue)
    requires
        metrics_wf(msview(old(ms)@)),
        v.wf(),
    ensures
        msview(final(ms)@) == merge_metric(msview(old(ms)@), name@, v@),
{
    let ghost ms0 = msview(ms@);
    let n = ms.len();
    let mut k: usize = 0;
    while k < n
        invariant
            n == ms.len(),
            ms@ == old(ms)@,
            k <= n,
            metrics_wf(ms0),
            ms0 == msview(ms@),
            v.wf(),
            forall|j: int| 0 <= j < k ==> ms0[j].0 != name@,
        decreases n - k,
    {
        if ms[k].0 == name {
            let key = ms[k].0.clone();
            let mut a = agg_dup(&ms[k].1);
            proof {
                assert(ms0[k as int] == (ms@[k as int].0@, ms@[k as int].1@));
                assert(agg_wf(a@));
            }
            agg_update(&mut a, v);
            ms[k] = (key, a);
            proof {
                assert(metrics_has(ms0, name@)) by {
                    assert(ms0[k as int].0 == name@);
                }
                let r = merge_metric(ms0, name@, v@);
                assert forall|i: int| 0 <= i < n implies msview(ms@)[i] == r[i] by {
                    if i != k {
                        assert(ms0[i].0 != name@);
                    }
                }
                assert(msview(ms@) =~~= r);
            }
            return ;
        }
        k = k + 1;
    }
    ms.push((name, agg_init(v)));
    proof {
        assert(!metrics_has(ms0, name@));
        let r = merge_metric(ms0, name@, v@);
        assert forall|i: int| 0 <= i < ms@.len() implies msview(ms@)[i] == r[i] by {}
        assert(msview(ms@) =~~= r);
    }
}

/// Merge a whole report into the record that holds its client.
fn rec_merge(rec: &mut ClientRecord, rep: &Report)
    requires
        rec_wf(old(rec)@),
        rep.wf(),
    ensures
        final(rec)@ == merge_rec(old(rec)@, rep@),
{
    proof {
        lemma_report_wf(rep);
    }
    if rep.timestamp > rec.last_seen {
        rec.last_seen = rep.timestamp;
    }
    let ghost ms0 = msview(old(rec).metrics@);
    let ghost pv = rep@.metrics;
    proof {
        assert(pv.skip(0) =~= pv);
    }
    let m = rep.metrics.len();
    let mut k: usize = 0;
    while k < m
        invariant
            k <= m,
            m == rep.metrics.len(),
            rep.wf(),
            rep_wf(rep@),
            pv == rep@.metrics,
            metrics_wf(msview(rec.metrics@)),
            merge_metrics(ms0, pv) == merge_metrics(msview(rec.metrics@), pv.skip(k as int)),
            rec.client_id == old(rec).client_id,
            rec.last_seen == if rep.timestamp > old(rec).last_seen {
                rep.timestamp
            } else {
                old(rec).last_seen
            },
        decreases m - k,
    {
        let ghost cur = msview(rec.metrics@);
        let nm = rep.metrics[k].0.clone();
        let vv = rep.metrics[k].1.dup();
        proof {
            assert(rep@.metrics[k as int] == (rep.metrics@[k as int].0@, rep.metrics@[k as int].1@));
            assert(vv.wf()) by {
                assert(rep.metrics@[k as int].1.wf());
            }
        }
        merge_metric_vec(&mut rec.metrics, nm, vv);
        proof {
            let sk = pv.skip(k as int);
            assert(sk.len() > 0);
            assert(sk[0] == pv[k as int]);
            assert(sk.drop_first() =~= pv.skip(k as int + 1));
            assert(merge_metrics(cur, sk) == merge_metrics(
                merge_metric(cur, pv[k as int].0, pv[k as int].1),
                pv.skip(k as int + 1),
            ));
            assert(msview(rec.metrics@) == merge_metric(cur, nm@, vv@));
            assert(nm@ == pv[k as int].0 && vv@ == pv[k as int].1);
            lemma_merge_metric_wf(cur, nm@, vv@);
        }
        k = k + 1;
    }
    proof {
        assert(pv.skip(m as int).len() == 0);
        assert(merge_metrics(msview(rec.metrics@), pv.skip(m as int)) == msview(rec.metrics@));
    }
}

/// An exact copy of a record (same abstract value).
pub fn rec_dup(r: &ClientRecord) -> (c: ClientRecord)
    ensures
        c@ == r@,
{
    let n = r.metrics.len();
    let mut ms: Vec<(String, MetricAggregate)> = Vec::new();
    let mut k: usize = 0;
    while k < n
        invariant
            k <= n,
            n == r.metrics.len(),
            ms@ == r.metrics@.take(k as int),
        decreases n - k,
    {
        ms.push((r.metrics[k].0.clone(), agg_dup(&r.metrics[k].1)));
        proof {
            assert(ms@ =~= r.metrics@.take(k as int + 1));
        }
        k = k + 1;
    }
    proof {
        assert(r.metrics@.take(n as int) =~= r.metrics@);
    }
    ClientRecord { client_id: r.client_id.clone(), last_seen: r.last_seen, metrics: ms }
}

impl MetricStore {
    /// An empty store.
    pub fn new() -> (s: Self)
        ensures
            s@ == Seq::<RecV>::empty(),
            store_wf(s@),
    {
        let s = MetricStore { records: Vec::new() };
        proof {
            assert(s@ =~= Seq::<RecV>::empty());
        }
        s
    }

    /// Merge a report: update the client's record, or create one for a new
    /// client. Returns a copy of the record after the merge, and whether the
    /// report's timestamp ran behind the record (an out-of-order anomaly,
    /// accepted but worth logging).
    pub fn merge(&mut self, rep: &Report) -> (out: (ClientRecord, bool))
        requires
            store_wf(old(self)@),
            rep.wf(),
        ensures
            final(self)@ == merge_store(old(self)@, rep@),
            store_wf(final(self)@),
            has_client(final(self)@, rep@.client_id),
            out.0@ == rec_at(final(self)@, rep@.client_id),
            out.1 == (has_client(old(self)@, rep@.client_id) && rep@.timestamp < rec_at(
                old(self)@,
                rep@.client_id,
            ).last_seen),
    {
        proof {
            lemma_report_wf(rep);
        }
        let ghost rs0 = old(self)@;
        let n = self.records.len();
        let mut k: usize = 0;
        while k < n
            invariant
                n == self.records.len(),
                self@ == rs0,
                rs0 == old(self)@,
                rs0 == rsview(self.records@),
                k <= n,
                store_wf(rs0),
                rep.wf(),
                forall|j: int| 0 <= j < k ==> rs0[j].client_id != rep@.client_id,
            decreases n - k,
        {
            if self.records[k].client_id == rep.client_id {
                proof {
                    assert(rs0[k as int] == self.records@[k as int]@);
                }
                let mut r = rec_dup(&self.records[k]);
                let anomaly = rep.timestamp < r.last_seen;
                rec_merge(&mut r, rep);
                let ghost rmerged = r@;
                let ret = rec_dup(&r);
                self.records[k] = r;
                proof {
                    lemma_report_wf(rep);
                    lemma_merge_store_props(rs0, rep@);
                    assert(has_client(rs0, rep@.client_id)) by {
                        assert(rs0[k as int].client_id == rep@.client_id);
                    }
                    assert(rmerged == merge_rec(rs0[k as int], rep@));
                    let res = merge_store(rs0, rep@);
                    assert forall|i: int| 0 <= i < n implies rsview(self.records@)[i] == res[i] by {
                        if i == k {
                            assert(self.records@[i]@ == rmerged);
                            assert(res[i] == merge_rec(rs0[i], rep@));
                        } else {
                            assert(self.records@[i]@ == rs0[i]);
                            if rs0[i].client_id == rep@.client_id {
                                // ids are distinct, so only index k matches
                                assert(false);
                            }
                        }
                    }
                    assert(self@ =~~= res);
                    // the unique index holding the client in the result is k
                    let ci = choose|i: int|
                        0 <= i < res.len() && (#[trigger] res[i]).client_id == rep@.client_id;
                    assert(res[k as int].client_id == rep@.client_id);
                    if ci != k {
                        assert(res[ci].client_id == res[k as int].client_id);
                        assert(false);
                    }
                    // and in the old store it is also k
                    let co = choose|i: int|
                        0 <= i < rs0.len() && (#[trigger] rs0[i]).client_id == rep@.client_id;
                    if co != k {
                        assert(false);
                    }
                    assert(ret@ == res[k as int]);
                    assert(rec_at(res, rep@.client_id) == res[ci]);
                    assert(rec_at(rs0, rep@.client_id) == rs0[k as int]);
                }
                return (ret, anomaly);
            }
            k = k + 1;
        }
        let mut fresh = ClientRecord {
            client_id: rep.client_id.clone(),
            last_seen: rep.timestamp,
            metrics: Vec::new(),
        };
        proof {
            assert(msview(fresh.metrics@) =~= Seq::<(Seq<char>, AggV)>::empty());
            assert(rec_wf(fresh@));
        }
        rec_merge(&mut fresh, rep);
        let ret = rec_dup(&fresh);
        proof {
            assert(fresh@ == merge_rec(
                RecV {
                    client_id: rep@.client_id,
                    last_seen: rep@.timestamp,
                    metrics: Seq::empty(),
                },
                rep@,
            ));
            assert(fresh@ == fresh_rec(rep@));
        }
        self.records.push(fresh);
        proof {
            assert(!has_client(rs0, rep@.client_id));
            lemma_merge_store_props(rs0, rep@);
            let res = merge_store(rs0, rep@);
            assert forall|i: int| 0 <= i < res.len() implies rsview(self.records@)[i] == res[i] by {}
            assert(self@ =~~= res);
            let ci = choose|i: int|
                0 <= i < res.len() && (#[trigger] res[i]).client_id == rep@.client_id;
            assert(res[n as int].client_id == rep@.client_id);
            if ci != n {
                assert(false);
            }
        }
        (ret, false)
    }

    /// A consistent copy of every current record.
    pub fn snapshot(&self) -> (s: Snapshot)
        ensures
            s@ == self@,
    {
        let n = self.records.len();
        let mut out: Vec<ClientRecord> = Vec::new();
        let mut k: usize = 0;
        while k < n
            invariant
                k <= n,
                n == self.records.len(),
                out@.len() == k,
                forall|j: int| 0 <= j < k ==> (#[trigger] out@[j])@ == self.records@[j]@,
            decreases n - k,
        {
            let c = rec_dup(&self.records[k]);
            out.push(c);
            k = k + 1;
        }
        let s = Snapshot { records: out };
        proof {
            assert forall|j: int| 0 <= j < n implies s@[j] == self@[j] by {
                assert(s.records@[j]@ == self.records@[j]@);
            }
            assert(s@ =~~= self@);
        }
        s
    }

    /// Remove every record whose `last_seen` lies before `now - ttl`.
    pub fn evict_stale(&mut self, now: i64, ttl: i64)
        requires
            store_wf(old(self)@),
            ttl >= 0,
        ensures
            final(self)@ == keep_live(old(self)@, now - ttl),
            store_wf(final(self)@),
    {
        let ghost rs0 = old(self)@;
        let ghost cutoff = now - ttl;
        let n = self.records.len();
        let mut kept: Vec<ClientRecord> = Vec::new();
        proof {
            assert(rs0.take(0) =~= Seq::<RecV>::empty());
            assert(rsview(kept@) =~= keep_live(rs0.take(0), cutoff));
        }
        let mut k: usize = 0;
        while k < n
            invariant
                k <= n,
                n == self.records.len(),
                self@ == rs0,
                rs0 == rsview(self.records@),
                cutoff == now - ttl,
                rsview(kept@) == keep_live(rs0.take(k as int), cutoff),
            decreases n - k,
        {
            let ghost prev = rsview(kept@);
            let keep = (self.records[k].last_seen as i128) >= (now as i128) - (ttl as i128);
            proof {
                assert(rs0[k as int] == self.records@[k as int]@);
            }
            if keep {
                let c = rec_dup(&self.records[k]);
                kept.push(c);
            }
            proof {
                let t1 = rs0.take(k as int + 1);
                assert(t1.drop_last() =~= rs0.take(k as int));
                assert(t1.last() == rs0[k as int]);
                if keep {
                    assert forall|j: int| 0 <= j < prev.len() + 1 implies rsview(kept@)[j]
                        == keep_live(t1, cutoff)[j] by {
                        if j < prev.len() {
                            assert(rsview(kept@)[j] == prev[j]);
                        } else {
                            assert(kept@[j]@ == rs0[k as int]);
                        }
                    }
                    assert(rsview(kept@) =~~= keep_live(t1, cutoff));
                } else {
                    assert(rsview(kept@) =~~= keep_live(t1, cutoff));
                }
            }
            k = k + 1;
        }
        self.records = kept;
        proof {
            assert(rs0.take(n as int) =~= rs0);
            lemma_keep_live_props(rs0, cutoff);
        }
    }
}

/// What eviction leaves: only live records, each one a record of the old
/// store, and still one record per client.
pub proof fn lemma_keep_live_props(rs: Seq<RecV>, cutoff: int)
    requires
        store_wf(rs),
    ensures
        store_wf(keep_live(rs, cutoff)),
        forall|j: int|
            0 <= j < keep_live(rs, cutoff).len() ==> (#[trigger] keep_live(rs, cutoff)[j]).last_seen
                >= cutoff,
        forall|j: int|
            0 <= j < keep_live(rs, cutoff).len() ==> exists|i: int|
                0 <= i < rs.len() && #[trigger] keep_live(rs, cutoff)[j] == rs[i],
        forall|id: Seq<char>|
            #[trigger] has_client(keep_live(rs, cutoff), id) ==> has_client(rs, id),
    decreases rs.len(),
{
    let kl = keep_live(rs, cutoff);
    if rs.len() == 0 {
    } else {
        let head = rs.drop_last();
        assert(store_wf(head));
        lemma_keep_live_props(head, cutoff);
        let kh = keep_live(head, cutoff);
        assert forall|j: int| 0 <= j < kh.len() implies exists|i: int|
            0 <= i < rs.len() && #[trigger] kh[j] == rs[i] by {
            let i = choose|i: int| 0 <= i < head.len() && kh[j] == head[i];
            assert(kh[j] == rs[i]);
        }
        if rs.last().last_seen >= cutoff {
            assert(kl == kh.push(rs.last()));
            assert(kl[kl.len() - 1] == rs[rs.len() - 1]);
            // distinctness: the appended client is not among the kept ones
            assert forall|i: int, j: int| 0 <= i < j < kl.len() implies (#[trigger] kl[i]).client_id
                != (#[trigger] kl[j]).client_id by {
                if j == kl.len() - 1 {
                    let wi = choose|w: int| 0 <= w < head.len() && kl[i] == head[w];
                    assert(rs[wi].client_id != rs.last().client_id);
                } else {
                    assert(kh[i].client_id != kh[j].client_id);
                }
            }
            assert forall|id: Seq<char>| #[trigger]
                has_client(kl, id) implies has_client(rs, id) by {
                let j = choose|j: int| 0 <= j < kl.len() && (#[trigger] kl[j]).client_id == id;
                let i = choose|i: int| 0 <= i < rs.len() && kl[j] == rs[i];
                assert(rs[i].client_id == id);
            }
        } else {
            assert(kl == kh);
            assert forall|id: Seq<char>| #[trigger]
                has_client(kl, id) implies has_client(rs, id) by {
                let j = choose|j: int| 0 <= j < kl.len() && (#[trigger] kl[j]).client_id == id;
                let i = choose|i: int| 0 <= i < rs.len() && kl[j] == rs[i];
                assert(rs[i].client_id == id);
            }
        }
    }
}

} // verus!

verus! {

/// Runtime check that a decimal is well-formed.
fn dec_wf_check(d: &Dec) -> (r: bool)
    ensures
        r == d.wf(),
{
    d.scale <= crate::num::MAX_SCALE && d.units >= -i64::MAX
}

/// Runtime check that an aggregate is well-formed.
fn agg_wf_check(a: &MetricAggregate) -> (r: bool)
    ensures
        r == agg_wf(a@),
{
    if a.count == 0 {
        return false;
    }
    match &a.num {
        Some(n) => {
            if !dec_wf_check(&n.min) || !dec_wf_check(&n.max) {
                return false;
            }
            if !crate::num::dec_le(&n.min, &n.max) {
                return false;
            }
        },
        None => {},
    }
    match &a.last {
        MetricValue::Num(d) => {
            if !dec_wf_check(d) {
                return false;
            }
            match &a.num {
                Some(n) => {
                    if !crate::num::dec_le(&n.min, d) || !crate::num::dec_le(d, &n.max) {
                        return false;
                    }
                },
                None => {
                    return false;
                },
            }
        },
        _ => {},
    }
    true
}

/// Runtime check that a record is well-formed.
fn rec_wf_check(r: &ClientRecord) -> (ok: bool)
    ensures
        ok == rec_wf(r@),
{
    if r.client_id.as_str().is_empty() {
        return false;
    }
    let m = r.metrics.len();
    let mut k: usize = 0;
    while k < m
        invariant
            k <= m,
            m == r.metrics.len(),
            forall|i: int| 0 <= i < k ==> agg_wf((#[trigger] msview(r.metrics@)[i]).1),
            forall|i: int, j: int|
                0 <= i < j < m && i < k ==> (#[trigger] msview(r.metrics@)[i]).0 != (
                #[trigger] msview(r.metrics@)[j]).0,
        decreases m - k,
    {
        if !agg_wf_check(&r.metrics[k].1) {
            proof {
                assert(msview(r.metrics@)[k as int].1 == r.metrics@[k as int].1@);
            }
            return false;
        }
        let mut j: usize = k + 1;
        while j < m
            invariant
                k < j <= m,
                m == r.metrics.len(),
                forall|i: int|
                    k < i < j ==> (#[trigger] msview(r.metrics@)[i]).0 != msview(r.metrics@)[k as int].0,
            decreases m - j,
        {
            if r.metrics[k].0 == r.metrics[j].0 {
                proof {
                    assert(msview(r.metrics@)[k as int].0 == msview(r.metrics@)[j as int].0);
                }
                return false;
            }
            j = j + 1;
        }
        proof {
            assert(msview(r.metrics@)[k as int].1 == r.metrics@[k as int].1@);
        }
        k = k + 1;
    }
    true
}

/// Runtime check that a snapshot's records form a well-formed store.
pub fn snapshot_wf_check(s: &Snapshot) -> (ok: bool)
    ensures
        ok == store_wf(s@),
{
    let n = s.records.len();
    let mut k: usize = 0;
    while k < n
        invariant
            k <= n,
            n == s.records.len(),
            forall|i: int| 0 <= i < k ==> rec_wf(#[trigger] s@[i]),
            forall|i: int, j: int|
                0 <= i < j < n && i < k ==> (#[trigger] s@[i]).client_id != (
                #[trigger] s@[j]).client_id,
        decreases n - k,
    {
        if !rec_wf_check(&s.records[k]) {
            proof {
                assert(s@[k as int] == s.records@[k as int]@);
            }
            return false;
        }
        let mut j: usize = k + 1;
        while j < n
            invariant
                k < j <= n,
                n == s.records.len(),
                forall|i: int|
                    k < i < j ==> (#[trigger] s@[i]).client_id != s@[k as int].client_id,
            decreases n - j,
        {
            if s.records[k].client_id == s.records[j].client_id {
                proof {
                    assert(s@[k as int].client_id == s@[j as int].client_id);
                }
                return false;
            }
            j = j + 1;
        }
        proof {
            assert(s@[k as int] == s.records@[k as int]@);
        }
        k = k + 1;
    }
    true
}

impl MetricStore {
    /// Replace the whole contents with a previously taken snapshot, after
    /// checking that it is well-formed; a malformed snapshot is refused and
    /// leaves the store unchanged.
    pub fn reload(&mut self, snap: Snapshot) -> (ok: bool)
        ensures
            ok == store_wf(snap@),
            ok ==> final(self)@ == snap@,
            !ok ==> final(self)@ == old(self)@,
    {
        if snapshot_wf_check(&snap) {
            self.records = snap.records;
            true
        } else {
            false
        }
    }
}

// ---------------------------------------------------------------------------
// Aggregation laws
// ---------------------------------------------------------------------------
/// Merging one metric twice into a list that does not yet hold it: the
/// second value is the last one, the count is exactly two, and for numeric
/// values the envelope bounds both.
pub proof fn lemma_merge_metric_twice(
    ms: Seq<(Seq<char>, AggV)>,
    name: Seq<char>,
    v1: ValV,
    v2: ValV,
)
    requires
        metrics_wf(ms),
        !metrics_has(ms, name),
        val_wf(v1),
        val_wf(v2),
    ensures
        ({
            let m2 = merge_metric(merge_metric(ms, name, v1), name, v2);
            &&& metrics_has(m2, name)
            &&& agg_at(m2, name).last == v2
            &&& agg_at(m2, name).count == 2
            &&& (v1 is Num && v2 is Num ==> {
                let d1 = v1->Num_0;
                let d2 = v2->Num_0;
                let n = agg_at(m2, name).num->0;
                &&& n.min.val() <= d1.val() <= n.max.val()
                &&& n.min.val() <= d2.val() <= n.max.val()
                &&& n.sum == sat_add(d1.val(), d2.val())
            })
        }),
{
    let m1 = merge_metric(ms, name, v1);
    let ell = ms.len() as int;
    assert(m1 == ms.push((name, init_agg(v1))));
    assert(m1[ell].0 == name);
    assert(metrics_has(m1, name));
    let m2 = merge_metric(m1, name, v2);
    assert(m2[ell] == (name, upd_agg(init_agg(v1), v2)));
    assert(m2[ell].0 == name);
    assert(metrics_has(m2, name));
    let ci = choose|i: int| 0 <= i < m2.len() && (#[trigger] m2[i]).0 == name;
    if ci != ell {
        assert(m1[ci].0 == name);
        assert(ms[ci].0 == name);
        assert(false);
    }
    assert(agg_at(m2, name) == upd_agg(init_agg(v1), v2));
}

/// Merging a batch of reports for pairwise-distinct clients none of which
/// the store holds yet: every one of them ends up present, each exactly once
/// (the store remains well-formed), and the store grows by exactly the
/// number of reports.
pub open spec fn merge_all(rs: Seq<RecV>, reps: Seq<RepV>) -> Seq<RecV>
    decreases reps.len(),
{
    if reps.len() == 0 {
        rs
    } else {
        merge_all(merge_store(rs, reps[0]), reps.drop_first())
    }
}

pub proof fn lemma_merge_all_keeps_client(rs: Seq<RecV>, reps: Seq<RepV>, id: Seq<char>)
    requires
        store_wf(rs),
        forall|i: int| 0 <= i < reps.len() ==> rep_wf(#[trigger] reps[i]),
        has_client(rs, id),
    ensures
        has_client(merge_all(rs, reps), id),
    decreases reps.len(),
{
    if reps.len() > 0 {
        lemma_merge_store_props(rs, reps[0]);
        let rs1 = merge_store(rs, reps[0]);
        assert(has_client(rs1, id));
        assert forall|i: int| 0 <= i < reps.drop_first().len() implies rep_wf(
            #[trigger] reps.drop_first()[i],
        ) by {
            assert(reps.drop_first()[i] == reps[i + 1]);
        }
        lemma_merge_all_keeps_client(rs1, reps.drop_first(), id);
    }
}

pub proof fn lemma_fresh_clients_counted(rs: Seq<RecV>, reps: Seq<RepV>)
    requires
        store_wf(rs),
        forall|i: int| 0 <= i < reps.len() ==> rep_wf(#[trigger] reps[i]),
        forall|i: int, j: int|
            0 <= i < j < reps.len() ==> (#[trigger] reps[i]).client_id != (
            #[trigger] reps[j]).client_id,
        forall|i: int| 0 <= i < reps.len() ==> !has_client(rs, (#[trigger] reps[i]).client_id),
    ensures
        store_wf(merge_all(rs, reps)),
        merge_all(rs, reps).len() == rs.len() + reps.len(),
        forall|i: int|
            0 <= i < reps.len() ==> has_client(merge_all(rs, reps), (#[trigger] reps[i]).client_id),
    decreases reps.len(),
{
    if reps.len() > 0 {
        lemma_merge_store_props(rs, reps[0]);
        let rs1 = merge_store(rs, reps[0]);
        let tail = reps.drop_first();
        assert forall|i: int| 0 <= i < tail.len() implies rep_wf(#[trigger] tail[i]) by {
            assert(tail[i] == reps[i + 1]);
        }
        assert forall|i: int, j: int| 0 <= i < j < tail.len() implies (#[trigger] tail[i]).client_id
            != (#[trigger] tail[j]).client_id by {
            assert(tail[i] == reps[i + 1] && tail[j] == reps[j + 1]);
        }
        assert forall|i: int| 0 <= i < tail.len() implies !has_client(
            rs1,
            (#[trigger] tail[i]).client_id,
        ) by {
            assert(tail[i] == reps[i + 1]);
            assert(reps[i + 1].client_id != reps[0].client_id);
            assert(!has_client(rs, reps[i + 1].client_id));
        }
        lemma_fresh_clients_counted(rs1, tail);
        assert forall|i: int| 0 <= i < reps.len() implies has_client(
            merge_all(rs, reps),
            (#[trigger] reps[i]).client_id,
        ) by {
            if i == 0 {
                lemma_merge_all_keeps_client(rs1, tail, reps[0].client_id);
            } else {
                assert(tail[i - 1] == reps[i]);
            }
        }
    }
}

/// A client whose only record is stale is gone after eviction.
pub proof fn lemma_evicted_absent(rs: Seq<RecV>, cutoff: int, id: Seq<char>)
    requires
        store_wf(rs),
        forall|i: int|
            0 <= i < rs.len() && (#[trigger] rs[i]).client_id == id ==> rs[i].last_seen < cutoff,
    ensures
        !has_client(keep_live(rs, cutoff), id),
{
    lemma_keep_live_props(rs, cutoff);
    let kl = keep_live(rs, cutoff);
    assert forall|j: int| 0 <= j < kl.len() implies (#[trigger] kl[j]).client_id != id by {
        let i = choose|i: int| 0 <= i < rs.len() && kl[j] == rs[i];
        assert(kl[j].last_seen >= cutoff);
        if rs[i].client_id == id {
            assert(rs[i].last_seen < cutoff);
        }
    }
}

/// A report merged for an absent client starts from nothing: when its metric
/// names are pairwise distinct, every aggregate of the fresh record has
/// count 1 and holds the reported value.
pub proof fn lemma_fresh_counts(ms: Seq<(Seq<char>, AggV)>, pairs: Seq<(Seq<char>, ValV)>)
    requires
        metrics_wf(ms),
        forall|i: int| 0 <= i < pairs.len() ==> val_wf(#[trigger] pairs[i].1),
        forall|i: int, j: int|
            0 <= i < j < pairs.len() ==> (#[trigger] pairs[i]).0 != (#[trigger] pairs[j]).0,
        forall|i: int| 0 <= i < pairs.len() ==> !metrics_has(ms, (#[trigger] pairs[i]).0),
    ensures
        merge_metrics(ms, pairs).len() == ms.len() + pairs.len(),
        forall|i: int| 0 <= i < ms.len() ==> #[trigger] merge_metrics(ms, pairs)[i] == ms[i],
        forall|i: int|
            0 <= i < pairs.len() ==> #[trigger] merge_metrics(ms, pairs)[ms.len() + i] == (
            pairs[i].0,
            init_agg(pairs[i].1),
            ),
    decreases pairs.len(),
{
    if pairs.len() > 0 {
        let ms1 = merge_metric(ms, pairs[0].0, pairs[0].1);
        assert(ms1 == ms.push((pairs[0].0, init_agg(pairs[0].1))));
        lemma_merge_metric_wf(ms, pairs[0].0, pairs[0].1);
        let tail = pairs.drop_first();
        assert forall|i: int| 0 <= i < tail.len() implies val_wf(#[trigger] tail[i].1) by {
            assert(tail[i] == pairs[i + 1]);
        }
        assert forall|i: int, j: int| 0 <= i < j < tail.len() implies (#[trigger] tail[i]).0 != (
        #[trigger] tail[j]).0 by {
            assert(tail[i] == pairs[i + 1] && tail[j] == pairs[j + 1]);
        }
        assert forall|i: int| 0 <= i < tail.len() implies !metrics_has(
            ms1,
            (#[trigger] tail[i]).0,
        ) by {
            assert(tail[i] == pairs[i + 1]);
            assert(!metrics_has(ms, pairs[i + 1].0));
            assert(pairs[i + 1].0 != pairs[0].0);
            if metrics_has(ms1, pairs[i + 1].0) {
                let w = choose|w: int|
                    0 <= w < ms1.len() && (#[trigger] ms1[w]).0 == pairs[i + 1].0;
                if w < ms.len() {
                    assert(ms[w].0 == pairs[i + 1].0);
                }
                assert(false);
            }
        }
        lemma_fresh_counts(ms1, tail);
        assert forall|i: int| 0 <= i < pairs.len() implies #[trigger] merge_metrics(ms, pairs)[ms.len()
            + i] == (pairs[i].0, init_agg(pairs[i].1)) by {
            if i == 0 {
                assert(merge_metrics(ms, pairs)[ms.len() as int] == ms1[ms.len() as int]);
            } else {
                assert(tail[i - 1] == pairs[i]);
                assert(merge_metrics(ms1, tail)[ms1.len() + (i - 1)] == (
                    tail[i - 1].0,
                    init_agg(tail[i - 1].1),
                ));
            }
        }
    }
}

} // verus!
