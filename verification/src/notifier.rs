//! Threshold notifications: rules are evaluated against a freshly merged
//! record; a firing rule enqueues an event unless the same (client, rule)
//! pair fired within its cooldown window; delivery is left to a consumer
//! that drains the bounded queue.

use vstd::prelude::*;
use crate::num::{Dec, dec_scaled};
use crate::store::{RecV, rec_wf, metrics_has, agg_at, ValV};
use crate::report::MetricValue;

verus! {

/// Comparator of a notification rule.
#[derive(Clone, Copy, PartialEq, Eq, Structural, Debug)]
pub enum Cmp {
    Gt,
    Lt,
    Ge,
    Le,
    EqTo,
}

pub open spec fn cmp_holds(c: Cmp, a: int, b: int) -> bool {
    match c {
        Cmp::Gt => a > b,
        Cmp::Lt => a < b,
        Cmp::Ge => a >= b,
        Cmp::Le => a <= b,
        Cmp::EqTo => a == b,
    }
}

/// A configured threshold condition on one metric.
pub struct NotificationRule {
    pub metric_name: String,
    pub cmp: Cmp,
    pub threshold: Dec,
    pub cooldown: i64,
}

/// Abstract rule.
pub struct RuleV {
    pub metric_name: Seq<char>,
    pub cmp: Cmp,
    pub threshold: Dec,
    pub cooldown: int,
}

impl View for NotificationRule {
    type V = RuleV;

    open spec fn view(&self) -> RuleV {
        RuleV {
            metric_name: self.metric_name@,
            cmp: self.cmp,
            threshold: self.threshold,
            cooldown: self.cooldown as int,
        }
    }
}

pub open spec fn rule_wf(r: RuleV) -> bool {
    r.threshold.wf() && r.cooldown >= 0
}

/// A fired notification, handed to the delivery side.
pub struct NotificationEvent {
    pub client_id: String,
    pub metric_name: String,
    pub observed: Dec,
    pub threshold: Dec,
    pub fired_at: i64,
}

/// Abstract event.
pub struct EventV {
    pub client_id: Seq<char>,
    pub metric_name: Seq<char>,
    pub observed: Dec,
    pub threshold: Dec,
    pub fired_at: int,
}

impl View for NotificationEvent {
    type V = EventV;

    open spec fn view(&self) -> EventV {
        EventV {
            client_id: self.client_id@,
            metric_name: self.metric_name@,
            observed: self.observed,
            threshold: self.threshold,
            fired_at: self.fired_at as int,
        }
    }
}

/// Cooldown bookkeeping: when rule `rule_idx` last fired for a client.
struct FiredEntry {
    client_id: String,
    rule_idx: usize,
    at: i64,
}

pub open spec fn fired_has(fired: Seq<(Seq<char>, int, int)>, client: Seq<char>, idx: int) -> bool {
    exists|j: int|
        0 <= j < fired.len() && (#[trigger] fired[j]).0 == client && fired[j].1 == idx
}

pub open spec fn last_fired(fired: Seq<(Seq<char>, int, int)>, client: Seq<char>, idx: int) -> int {
    fired[choose|j: int|
        0 <= j < fired.len() && (#[trigger] fired[j]).0 == client && fired[j].1 == idx].2
}

/// No pair may appear twice in the cooldown book.
pub open spec fn fired_wf(fired: Seq<(Seq<char>, int, int)>) -> bool {
    forall|i: int, j: int|
        0 <= i < j < fired.len() ==> ((#[trigger] fired[i]).0, fired[i].1) != ((
        #[trigger] fired[j]).0,
        fired[j].1,
        )
}

/// The rule may fire now: its metric is present with a numeric last value
/// meeting the comparator, and the pair is out of its cooldown window.
pub open spec fn rule_fires(
    rule: RuleV,
    idx: int,
    rec: RecV,
    fired: Seq<(Seq<char>, int, int)>,
    now: int,
) -> bool {
    &&& metrics_has(rec.metrics, rule.metric_name)
    &&& agg_at(rec.metrics, rule.metric_name).last is Num
    &&& cmp_holds(
        rule.cmp,
        agg_at(rec.metrics, rule.metric_name).last->Num_0.val(),
        rule.threshold.val(),
    )
    &&& (!fired_has(fired, rec.client_id, idx) || now >= last_fired(fired, rec.client_id, idx)
        + rule.cooldown)
}

pub open spec fn event_of(rule: RuleV, rec: RecV, now: int) -> EventV {
    EventV {
        client_id: rec.client_id,
        metric_name: rule.metric_name,
        observed: agg_at(rec.metrics, rule.metric_name).last->Num_0,
        threshold: rule.threshold,
        fired_at: now,
    }
}

/// The cooldown book with the pair's stamp set to `now`.
pub open spec fn set_fired(
    fired: Seq<(Seq<char>, int, int)>,
    client: Seq<char>,
    idx: int,
    now: int,
) -> Seq<(Seq<char>, int, int)> {
    if fired_has(fired, client, idx) {
        Seq::new(
            fired.len(),
            |j: int|
                if fired[j].0 == client && fired[j].1 == idx {
                    (fired[j].0, fired[j].1, now)
                } else {
                    fired[j]
                },
        )
    } else {
        fired.push((client, idx, now))
    }
}

/// One evaluation pass from rule `i` on: the cooldown book and the queue
/// after every remaining rule has been tried in order. A firing rule stamps
/// the book and enqueues its event unless the queue is full.
pub open spec fn eval_from(
    rules: Seq<RuleV>,
    i: int,
    rec: RecV,
    now: int,
    fired: Seq<(Seq<char>, int, int)>,
    queue: Seq<EventV>,
    cap: int,
) -> (Seq<(Seq<char>, int, int)>, Seq<EventV>)
    decreases rules.len() - i,
{
    if i < 0 || i >= rules.len() {
        (fired, queue)
    } else {
        if rule_fires(rules[i], i, rec, fired, now) {
            let fired2 = set_fired(fired, rec.client_id, i, now);
            let queue2 = if queue.len() < cap {
                queue.push(event_of(rules[i], rec, now))
            } else {
                queue
            };
            eval_from(rules, i + 1, rec, now, fired2, queue2, cap)
        } else {
            eval_from(rules, i + 1, rec, now, fired, queue, cap)
        }
    }
}

/// The notifier: the configured rules, the cooldown book, and the bounded
/// queue of events awaiting delivery.
pub struct Notifier {
    rules: Vec<NotificationRule>,
    fired: Vec<FiredEntry>,
    queue: Vec<NotificationEvent>,
    cap: usize,
}

/// Abstract notifier.
pub struct NotV {
    pub rules: Seq<RuleV>,
    pub fired: Seq<(Seq<char>, int, int)>,
    pub queue: Seq<EventV>,
    pub cap: int,
}

impl View for Notifier {
    type V = NotV;

    closed spec fn view(&self) -> NotV {
        NotV {
            rules: self.rules@.map_values(|r: NotificationRule| r@),
            fired: self.fired@.map_values(|f: FiredEntry| (f.client_id@, f.rule_idx as int, f.at as int)),
            queue: self.queue@.map_values(|e: NotificationEvent| e@),
            cap: self.cap as int,
        }
    }
}

pub open spec fn notifier_wf(n: NotV) -> bool {
    &&& forall|i: int| 0 <= i < n.rules.len() ==> rule_wf(#[trigger] n.rules[i])
    &&& fired_wf(n.fired)
}

impl Notifier {
    /// A notifier over the given rules with the given queue bound; refused
    /// when a rule carries a malformed threshold or a negative cooldown.
    pub fn new(rules: Vec<NotificationRule>, cap: usize) -> (r: Option<Notifier>)
        ensures
            match r {
                Some(n) => {
                    &&& notifier_wf(n@)
                    &&& n@.rules == rules@.map_values(|r: NotificationRule| r@)
                    &&& n@.fired == Seq::<(Seq<char>, int, int)>::empty()
                    &&& n@.queue == Seq::<EventV>::empty()
                    &&& n@.cap == cap as int
                },
                None => exists|i: int|
                    0 <= i < rules@.len() && !rule_wf((#[trigger] rules@[i])@),
            },
    {
        let n = rules.len();
        let mut k: usize = 0;
        while k < n
            invariant
                k <= n,
                n == rules.len(),
                forall|i: int| 0 <= i < k ==> rule_wf((#[trigger] rules@[i])@),
            decreases n - k,
        {
            let ok = rules[k].threshold.scale <= crate::num::MAX_SCALE && rules[k].threshold.units
                >= -i64::MAX && rules[k].cooldown >= 0;
            if !ok {
                return None;
            }
            k = k + 1;
        }
        let nf = Notifier { rules, fired: Vec::new(), queue: Vec::new(), cap };
        proof {
            assert(nf@.fired =~= Seq::<(Seq<char>, int, int)>::empty());
            assert(nf@.queue =~= Seq::<EventV>::empty());
            assert forall|i: int| 0 <= i < nf@.rules.len() implies rule_wf(
                #[trigger] nf@.rules[i],
            ) by {
                assert(nf@.rules[i] == nf.rules@[i]@);
            }
        }
        Some(nf)
    }

    /// How many events are waiting for delivery.
    pub fn queue_len(&self) -> (r: usize)
        ensures
            r == self@.queue.len(),
    {
        self.queue.len()
    }

    /// Hand the oldest waiting event to the delivery side.
    pub fn pop_event(&mut self) -> (r: Option<NotificationEvent>)
        ensures
            old(self)@.queue.len() == 0 ==> r is None && final(self)@ == old(self)@,
            old(self)@.queue.len() > 0 ==> r is Some && r->0@ == old(self)@.queue[0]
                && final(self)@ == (NotV { queue: old(self)@.queue.drop_first(), ..old(self)@ }),
    {
        if self.queue.len() == 0 {
            None
        } else {
            let e = self.queue.remove(0);
            proof {
                assert(final(self)@.queue =~= old(self)@.queue.drop_first());
            }
            Some(e)
        }
    }
}

} // verus!

verus! {

spec fn fview(s: Seq<FiredEntry>) -> Seq<(Seq<char>, int, int)> {
    s.map_values(|f: FiredEntry| (f.client_id@, f.rule_idx as int, f.at as int))
}

/// The last numeric value of the named metric in the record, when the
/// metric is present and its last value is a number.
fn find_last_num(rec: &crate::store::ClientRecord, name: &String) -> (r: Option<Dec>)
    requires
        rec_wf(rec@),
    ensures
        match r {
            Some(d) => metrics_has(rec@.metrics, name@) && agg_at(rec@.metrics, name@).last
                == ValV::Num(d),
            None => !metrics_has(rec@.metrics, name@) || !(agg_at(rec@.metrics, name@).last
                is Num),
        },
{
    let n = rec.metrics.len();
    let mut k: usize = 0;
    while k < n
        invariant
            k <= n,
            n == rec.metrics.len(),
            rec_wf(rec@),
            forall|j: int| 0 <= j < k ==> (#[trigger] rec@.metrics[j]).0 != name@,
        decreases n - k,
    {
        if rec.metrics[k].0 == *name {
            proof {
                assert(rec@.metrics[k as int] == (rec.metrics@[k as int].0@, rec.metrics@[k as int].1@));
                assert(metrics_has(rec@.metrics, name@)) by {
                    assert(rec@.metrics[k as int].0 == name@);
                }
                let ci = choose|i: int|
                    0 <= i < rec@.metrics.len() && (#[trigger] rec@.metrics[i]).0 == name@;
                if ci != k {
                    assert(rec@.metrics[ci].0 == rec@.metrics[k as int].0);
                    assert(false);
                }
                assert(agg_at(rec@.metrics, name@) == rec@.metrics[k as int].1);
            }
            match &rec.metrics[k].1.last {
                MetricValue::Num(d) => {
                    return Some(*d);
                },
                _ => {
                    return None;
                },
            }
        }
        k = k + 1;
    }
    None
}

/// When the pair last fired, if it is in the cooldown book.
fn find_fired(fired: &Vec<FiredEntry>, client: &String, idx: usize) -> (r: Option<i64>)
    requires
        fired_wf(fview(fired@)),
    ensures
        match r {
            Some(t) => fired_has(fview(fired@), client@, idx as int) && last_fired(
                fview(fired@),
                client@,
                idx as int,
            ) == t as int,
            None => !fired_has(fview(fired@), client@, idx as int),
        },
{
    let n = fired.len();
    let mut k: usize = 0;
    while k < n
        invariant
            k <= n,
            n == fired.len(),
            fired_wf(fview(fired@)),
            forall|j: int|
                0 <= j < k ==> !((#[trigger] fview(fired@)[j]).0 == client@ && fview(fired@)[j].1
                    == idx as int),
        decreases n - k,
    {
        if fired[k].client_id == *client && fired[k].rule_idx == idx {
            proof {
                let fv = fview(fired@);
                assert(fv[k as int] == (
                    fired@[k as int].client_id@,
                    fired@[k as int].rule_idx as int,
                    fired@[k as int].at as int,
                ));
                assert(fired_has(fv, client@, idx as int)) by {
                    assert(fv[k as int].0 == client@ && fv[k as int].1 == idx as int);
                }
                let ci = choose|j: int|
                    0 <= j < fv.len() && (#[trigger] fv[j]).0 == client@ && fv[j].1 == idx as int;
                if ci != k {
                    assert((fv[ci].0, fv[ci].1) == (fv[k as int].0, fv[k as int].1));
                    assert(false);
                }
            }
            return Some(fired[k].at);
        }
        k = k + 1;
    }
    None
}

/// Stamp the pair with `now` in the cooldown book.
fn set_fired_vec(fired: &mut Vec<FiredEntry>, client: &String, idx: usize, now: i64)
    requires
        fired_wf(fview(old(fired)@)),
    ensures
        fview(final(fired)@) == set_fired(fview(old(fired)@), client@, idx as int, now as int),
        fired_wf(fview(final(fired)@)),
{
    let ghost fv0 = fview(fired@);
    let n = fired.len();
    let mut k: usize = 0;
    while k < n
        invariant
            k <= n,
            n == fired.len(),
            fired@ == old(fired)@,
            fv0 == fview(fired@),
            fired_wf(fv0),
            forall|j: int| 0 <= j < k ==> !((#[trigger] fv0[j]).0 == client@ && fv0[j].1 == idx as int),
        decreases n - k,
    {
        if fired[k].client_id == *client && fired[k].rule_idx == idx {
            proof {
                assert(fv0[k as int] == (
                    fired@[k as int].client_id@,
                    fired@[k as int].rule_idx as int,
                    fired@[k as int].at as int,
                ));
            }
            fired[k] = FiredEntry { client_id: client.clone(), rule_idx: idx, at: now };
            proof {
                assert(fired_has(fv0, client@, idx as int)) by {
                    assert(fv0[k as int].0 == client@ && fv0[k as int].1 == idx as int);
                }
                let r = set_fired(fv0, client@, idx as int, now as int);
                assert forall|j: int| 0 <= j < n implies fview(fired@)[j] == r[j] by {
                    assert(fview(fired@)[j] == (
                        fired@[j].client_id@,
                        fired@[j].rule_idx as int,
                        fired@[j].at as int,
                    ));
                    if j != k {
                        if fv0[j].0 == client@ && fv0[j].1 == idx as int {
                            assert(false);
                        }
                    }
                }
                assert(fview(fired@) =~~= r);
                assert forall|i: int, j: int| 0 <= i < j < r.len() implies ((#[trigger] r[i]).0, r[i].1)
                    != ((#[trigger] r[j]).0, r[j].1) by {
                    assert((r[i].0, r[i].1) == (fv0[i].0, fv0[i].1));
                    assert((r[j].0, r[j].1) == (fv0[j].0, fv0[j].1));
                }
            }
            return ;
        }
        k = k + 1;
    }
    fired.push(FiredEntry { client_id: client.clone(), rule_idx: idx, at: now });
    proof {
        assert(!fired_has(fv0, client@, idx as int));
        let r = set_fired(fv0, client@, idx as int, now as int);
        assert forall|j: int| 0 <= j < fired@.len() implies fview(fired@)[j] == r[j] by {
            assert(fview(fired@)[j] == (
                fired@[j].client_id@,
                fired@[j].rule_idx as int,
                fired@[j].at as int,
            ));
        }
        assert(fview(fired@) =~~= r);
        assert forall|i: int, j: int| 0 <= i < j < r.len() implies ((#[trigger] r[i]).0, r[i].1) != ((
        #[trigger] r[j]).0, r[j].1) by {
            if j < fv0.len() {
            } else {
                assert(!((fv0[i].0, fv0[i].1) == (client@, idx as int)));
            }
        }
    }
}

impl Notifier {
    /// Try every rule, in order, against a freshly merged record: a rule
    /// whose metric is present with a numeric last value meeting the
    /// comparator fires, unless the pair is still inside its cooldown
    /// window; firing stamps the book and enqueues an event while the queue
    /// has room.
    pub fn evaluate(&mut self, rec: &crate::store::ClientRecord, now: i64)
        requires
            notifier_wf(old(self)@),
            rec_wf(rec@),
        ensures
            notifier_wf(final(self)@),
            final(self)@.rules == old(self)@.rules,
            final(self)@.cap == old(self)@.cap,
            (final(self)@.fired, final(self)@.queue) == eval_from(
                old(self)@.rules,
                0,
                rec@,
                now as int,
                old(self)@.fired,
                old(self)@.queue,
                old(self)@.cap,
            ),
    {
        let n = self.rules.len();
        let mut i: usize = 0;
        while i < n
            invariant
                i <= n,
                n == self@.rules.len(),
                notifier_wf(self@),
                rec_wf(rec@),
                self@.rules == old(self)@.rules,
                self@.cap == old(self)@.cap,
                eval_from(
                    old(self)@.rules,
                    0,
                    rec@,
                    now as int,
                    old(self)@.fired,
                    old(self)@.queue,
                    old(self)@.cap,
                ) == eval_from(
                    self@.rules,
                    i as int,
                    rec@,
                    now as int,
                    self@.fired,
                    self@.queue,
                    self@.cap,
                ),
            decreases n - i,
        {
            let ghost fired_pre = self@.fired;
            let ghost queue_pre = self@.queue;
            proof {
                assert(self@.rules[i as int] == self.rules@[i as int]@);
            }
            let mut fire = false;
            let mut obs = Dec { units: 0, scale: 0 };
            match find_last_num(rec, &self.rules[i].metric_name) {
                Some(d) => {
                    let dv = dec_scaled(&d);
                    let tv = dec_scaled(&self.rules[i].threshold);
                    let cmp_ok = match self.rules[i].cmp {
                        Cmp::Gt => dv > tv,
                        Cmp::Lt => dv < tv,
                        Cmp::Ge => dv >= tv,
                        Cmp::Le => dv <= tv,
                        Cmp::EqTo => dv == tv,
                    };
                    if cmp_ok {
                        match find_fired(&self.fired, &rec.client_id, i) {
                            Some(t) => {
                                if (now as i128) >= (t as i128) + (self.rules[i].cooldown as i128) {
                                    fire = true;
                                }
                            },
                            None => {
                                fire = true;
                            },
                        }
                        obs = d;
                    }
                },
                None => {},
            }
            proof {
                assert(fire == rule_fires(
                    self@.rules[i as int],
                    i as int,
                    rec@,
                    fired_pre,
                    now as int,
                ));
            }
            if fire {
                set_fired_vec(&mut self.fired, &rec.client_id, i, now);
                if self.queue.len() < self.cap {
                    let ev = NotificationEvent {
                        client_id: rec.client_id.clone(),
                        metric_name: self.rules[i].metric_name.clone(),
                        observed: obs,
                        threshold: self.rules[i].threshold,
                        fired_at: now,
                    };
                    proof {
                        assert(ev@ == event_of(self@.rules[i as int], rec@, now as int));
                    }
                    self.queue.push(ev);
                    proof {
                        assert(self@.queue =~~= queue_pre.push(
                            event_of(self@.rules[i as int], rec@, now as int),
                        ));
                    }
                }
            }
            proof {
                let rv = self@.rules;
                let capv = self@.cap;
                assert(eval_from(rv, i as int, rec@, now as int, fired_pre, queue_pre, capv)
                    == eval_from(
                    rv,
                    i as int + 1,
                    rec@,
                    now as int,
                    self@.fired,
                    self@.queue,
                    capv,
                ));
            }
            i = i + 1;
        }
    }
}

/// Attempts allowed for one event's delivery before it is dropped.
pub const MAX_DISPATCH_ATTEMPTS: u32 = 5;

/// Milliseconds before the first retry.
pub const BACKOFF_BASE_MS: u64 = 500;

pub open spec fn pow2(e: nat) -> nat
    decreases e,
{
    if e == 0 {
        1
    } else {
        2 * pow2((e - 1) as nat)
    }
}

proof fn lemma_pow2_mono(a: nat, b: nat)
    requires
        a <= b,
    ensures
        pow2(a) <= pow2(b),
    decreases b,
{
    if a < b {
        lemma_pow2_mono(a, (b - 1) as nat);
        assert(pow2((b - 1) as nat) >= 1) by {
            lemma_pow2_mono(0, (b - 1) as nat);
        }
    }
}

/// Delay in milliseconds before retry number `attempt` (counted from 0), or
/// nothing once the attempt cap is reached: bounded exponential backoff.
pub fn next_backoff(attempt: u32) -> (r: Option<u64>)
    ensures
        attempt >= MAX_DISPATCH_ATTEMPTS ==> r is None,
        attempt < MAX_DISPATCH_ATTEMPTS ==> r == Some::<u64>(
            (BACKOFF_BASE_MS * pow2(attempt as nat)) as u64,
        ),
{
    if attempt >= MAX_DISPATCH_ATTEMPTS {
        None
    } else {
        let mut d: u64 = BACKOFF_BASE_MS;
        let mut k: u32 = 0;
        while k < attempt
            invariant
                k <= attempt < MAX_DISPATCH_ATTEMPTS,
                d == BACKOFF_BASE_MS * pow2(k as nat),
            decreases attempt - k,
        {
            proof {
                lemma_pow2_mono(k as nat, 4);
                assert(pow2(4) == 16) by {
                    reveal_with_fuel(pow2, 6);
                }
            }
            d = d * 2;
            k = k + 1;
        }
        proof {
            lemma_pow2_mono(attempt as nat, 4);
            assert(pow2(4) == 16) by {
                reveal_with_fuel(pow2, 6);
            }
        }
        Some(d)
    }
}

// ---------------------------------------------------------------------------
// Cooldown laws
// ---------------------------------------------------------------------------
/// A repeated trigger inside the cooldown window is suppressed: with the
/// pair stamped at `t0` and `now` still inside the window, evaluating the
/// single configured rule adds no event and leaves the book unchanged.
pub proof fn lemma_cooldown_suppresses(
    rules: Seq<RuleV>,
    rec: RecV,
    now: int,
    fired: Seq<(Seq<char>, int, int)>,
    queue: Seq<EventV>,
    cap: int,
    t0: int,
)
    requires
        rules.len() == 1,
        fired_has(fired, rec.client_id, 0),
        last_fired(fired, rec.client_id, 0) == t0,
        now < t0 + rules[0].cooldown,
    ensures
        eval_from(rules, 0, rec, now, fired, queue, cap) == (fired, queue),
{
    assert(!rule_fires(rules[0], 0, rec, fired, now));
    assert(eval_from(rules, 1, rec, now, fired, queue, cap) == (fired, queue));
}

/// Once the cooldown has elapsed, a matching update fires again: the event
/// is enqueued and the pair is restamped with `now`.
pub proof fn lemma_cooldown_elapsed(
    rules: Seq<RuleV>,
    rec: RecV,
    now: int,
    fired: Seq<(Seq<char>, int, int)>,
    queue: Seq<EventV>,
    cap: int,
    t0: int,
)
    requires
        rules.len() == 1,
        metrics_has(rec.metrics, rules[0].metric_name),
        agg_at(rec.metrics, rules[0].metric_name).last is Num,
        cmp_holds(
            rules[0].cmp,
            agg_at(rec.metrics, rules[0].metric_name).last->Num_0.val(),
            rules[0].threshold.val(),
        ),
        fired_has(fired, rec.client_id, 0),
        last_fired(fired, rec.client_id, 0) == t0,
        now >= t0 + rules[0].cooldown,
        queue.len() < cap,
    ensures
        eval_from(rules, 0, rec, now, fired, queue, cap) == (
            set_fired(fired, rec.client_id, 0, now),
            queue.push(event_of(rules[0], rec, now)),
        ),
{
    assert(rule_fires(rules[0], 0, rec, fired, now));
    let fired2 = set_fired(fired, rec.client_id, 0, now);
    let queue2 = queue.push(event_of(rules[0], rec, now));
    assert(eval_from(rules, 1, rec, now, fired2, queue2, cap) == (fired2, queue2));
}

} // verus!

verus! {

/// Any number of evaluation passes, one per update, each on the record and
/// clock of that moment.
pub open spec fn eval_many(
    rules: Seq<RuleV>,
    recs: Seq<RecV>,
    times: Seq<int>,
    fired: Seq<(Seq<char>, int, int)>,
    queue: Seq<EventV>,
    cap: int,
) -> (Seq<(Seq<char>, int, int)>, Seq<EventV>)
    decreases recs.len(),
{
    if recs.len() == 0 || times.len() != recs.len() {
        (fired, queue)
    } else {
        let step = eval_from(rules, 0, recs[0], times[0], fired, queue, cap);
        eval_many(rules, recs.drop_first(), times.drop_first(), step.0, step.1, cap)
    }
}

/// However often a client's updates retrigger the single configured rule
/// inside one cooldown window, not one further event is enqueued and the
/// book keeps its stamp: together with `lemma_cooldown_elapsed`, a trigger
/// repeated through a window dispatches exactly once.
pub proof fn lemma_window_dispatches_once(
    rules: Seq<RuleV>,
    recs: Seq<RecV>,
    times: Seq<int>,
    fired: Seq<(Seq<char>, int, int)>,
    queue: Seq<EventV>,
    cap: int,
    client: Seq<char>,
    t0: int,
)
    requires
        rules.len() == 1,
        times.len() == recs.len(),
        forall|i: int| 0 <= i < recs.len() ==> (#[trigger] recs[i]).client_id == client,
        fired_has(fired, client, 0),
        last_fired(fired, client, 0) == t0,
        forall|i: int| 0 <= i < times.len() ==> #[trigger] times[i] < t0 + rules[0].cooldown,
    ensures
        eval_many(rules, recs, times, fired, queue, cap) == (fired, queue),
    decreases recs.len(),
{
    if recs.len() > 0 {
        lemma_cooldown_suppresses(rules, recs[0], times[0], fired, queue, cap, t0);
        let rt = recs.drop_first();
        let tt = times.drop_first();
        assert forall|i: int| 0 <= i < rt.len() implies (#[trigger] rt[i]).client_id == client by {
            assert(rt[i] == recs[i + 1]);
        }
        assert forall|i: int| 0 <= i < tt.len() implies #[trigger] tt[i] < t0 + rules[0].cooldown by {
            assert(tt[i] == times[i + 1]);
        }
        lemma_window_dispatches_once(rules, rt, tt, fired, queue, cap, client, t0);
    }
}

} // verus!
