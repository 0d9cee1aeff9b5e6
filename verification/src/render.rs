//! Rendering a snapshot as JSON text: top-level keys are client ids, each
//! mapping metric names to `{"last":...,"count":...}` plus `"min"`/`"max"`
//! for metrics that have seen numeric values.

use vstd::prelude::*;
use crate::push_char;
use vstd::string::StrSliceExecFns;
use crate::num::{Dec, pow10};
use crate::store::{ValV, AggV, RecV, Snapshot, rec_wf, store_wf, agg_wf};

verus! {

pub open spec fn digit_char(d: int) -> char {
    if d == 0 {
        '0'
    } else if d == 1 {
        '1'
    } else if d == 2 {
        '2'
    } else if d == 3 {
        '3'
    } else if d == 4 {
        '4'
    } else if d == 5 {
        '5'
    } else if d == 6 {
        '6'
    } else if d == 7 {
        '7'
    } else if d == 8 {
        '8'
    } else {
        '9'
    }
}

/// Decimal digits of a natural number.
pub open spec fn nat_str(v: nat) -> Seq<char>
    decreases v,
{
    if v < 10 {
        seq![digit_char(v as int)]
    } else {
        nat_str(v / 10).push(digit_char((v % 10) as int))
    }
}

/// Exactly `width` decimal digits of `v`, zero-padded at the front.
pub open spec fn fixed_str(v: nat, width: nat) -> Seq<char>
    decreases width,
{
    if width == 0 {
        Seq::empty()
    } else {
        fixed_str(v / 10, (width - 1) as nat).push(digit_char((v % 10) as int))
    }
}

/// A decimal number as text, keeping its written scale.
pub open spec fn dec_str(d: Dec) -> Seq<char> {
    let sign: Seq<char> = if d.units < 0 {
        seq!['-']
    } else {
        Seq::empty()
    };
    let mag = if d.units < 0 {
        -(d.units as int)
    } else {
        d.units as int
    };
    if d.scale == 0 {
        sign + nat_str(mag as nat)
    } else {
        sign + nat_str((mag as nat) / pow10(d.scale as nat)) + seq!['.'] + fixed_str(
            (mag as nat) % pow10(d.scale as nat),
            d.scale as nat,
        )
    }
}

/// How one character is written inside a quoted string.
pub open spec fn esc_out(c: char) -> Seq<char> {
    if c == '"' {
        seq!['\\', '"']
    } else if c == '\\' {
        seq!['\\', '\\']
    } else if c == '\n' {
        seq!['\\', 'n']
    } else if c == '\t' {
        seq!['\\', 't']
    } else if c == '\r' {
        seq!['\\', 'r']
    } else {
        seq![c]
    }
}

/// A string's characters with the needed escapes.
pub open spec fn esc_str(t: Seq<char>) -> Seq<char>
    decreases t.len(),
{
    if t.len() == 0 {
        Seq::empty()
    } else {
        esc_out(t[0]) + esc_str(t.drop_first())
    }
}

/// `"..."` with escapes.
pub open spec fn quoted(t: Seq<char>) -> Seq<char> {
    seq!['"'] + esc_str(t) + seq!['"']
}

/// A metric value as JSON text.
pub open spec fn val_str(v: ValV) -> Seq<char> {
    match v {
        ValV::Num(d) => dec_str(d),
        ValV::Bool(b) => if b {
            "true"@
        } else {
            "false"@
        },
        ValV::Text(t) => quoted(t),
    }
}

/// One aggregate as JSON text.
pub open spec fn agg_str(a: AggV) -> Seq<char> {
    let head = "{\"last\":"@ + val_str(a.last) + ",\"count\":"@ + nat_str(a.count);
    match a.num {
        Some(n) => head + ",\"min\":"@ + dec_str(n.min) + ",\"max\":"@ + dec_str(n.max) + "}"@,
        None => head + "}"@,
    }
}

/// The metric entries of a record from index `k` on, comma-separated.
pub open spec fn metrics_items(ms: Seq<(Seq<char>, AggV)>, k: int) -> Seq<char>
    decreases ms.len() - k,
{
    if k < 0 || k >= ms.len() {
        Seq::empty()
    } else {
        (if k > 0 {
            seq![',']
        } else {
            Seq::empty()
        }) + quoted(ms[k].0) + seq![':'] + agg_str(ms[k].1) + metrics_items(ms, k + 1)
    }
}

/// One record as JSON text.
pub open spec fn rec_str(r: RecV) -> Seq<char> {
    quoted(r.client_id) + seq![':', '{'] + metrics_items(r.metrics, 0) + seq!['}']
}

/// The records from index `k` on, comma-separated.
pub open spec fn rec_items(rs: Seq<RecV>, k: int) -> Seq<char>
    decreases rs.len() - k,
{
    if k < 0 || k >= rs.len() {
        Seq::empty()
    } else {
        (if k > 0 {
            seq![',']
        } else {
            Seq::empty()
        }) + rec_str(rs[k]) + rec_items(rs, k + 1)
    }
}

/// A whole snapshot as JSON text.
pub open spec fn json_of_snapshot(rs: Seq<RecV>) -> Seq<char> {
    seq!['{'] + rec_items(rs, 0) + seq!['}']
}

// ---------------------------------------------------------------------------
// Executable rendering
// ---------------------------------------------------------------------------
fn push_digit(s: &mut String, d: u64)
    requires
        d < 10,
    ensures
        final(s)@ == old(s)@.push(digit_char(d as int)),
{
    if d == 0 {
        push_char(s, '0');
    } else if d == 1 {
        push_char(s, '1');
    } else if d == 2 {
        push_char(s, '2');
    } else if d == 3 {
        push_char(s, '3');
    } else if d == 4 {
        push_char(s, '4');
    } else if d == 5 {
        push_char(s, '5');
    } else if d == 6 {
        push_char(s, '6');
    } else if d == 7 {
        push_char(s, '7');
    } else if d == 8 {
        push_char(s, '8');
    } else {
        push_char(s, '9');
    }
}

/// Append the decimal digits of `v`.
pub(crate) fn push_u64(s: &mut String, v: u64)
    ensures
        final(s)@ == old(s)@ + nat_str(v as nat),
    decreases v,
{
    if v < 10 {
        push_digit(s, v);
        proof {
            assert(old(s)@ + nat_str(v as nat) =~= old(s)@.push(digit_char(v as int)));
        }
    } else {
        push_u64(s, v / 10);
        push_digit(s, v % 10);
        proof {
            assert(old(s)@ + nat_str(v as nat) =~= (old(s)@ + nat_str(v as nat / 10)).push(
                digit_char((v % 10) as int),
            ));
        }
    }
}

/// Append exactly `width` digits of `v`, zero-padded.
fn push_fixed(s: &mut String, v: u64, width: u8)
    ensures
        final(s)@ == old(s)@ + fixed_str(v as nat, width as nat),
    decreases width,
{
    if width == 0 {
        proof {
            assert(old(s)@ + fixed_str(v as nat, 0) =~= old(s)@);
        }
    } else {
        push_fixed(s, v / 10, width - 1);
        push_digit(s, v % 10);
        proof {
            assert(old(s)@ + fixed_str(v as nat, width as nat) =~= (old(s)@ + fixed_str(
                v as nat / 10,
                (width - 1) as nat,
            )).push(digit_char((v % 10) as int)));
        }
    }
}

/// Append a decimal number.
fn push_dec(s: &mut String, d: &Dec)
    requires
        d.wf(),
    ensures
        final(s)@ == old(s)@ + dec_str(*d),
{
    let ghost pre = s@;
    if d.units < 0 {
        push_char(s, '-');
    }
    let mag: u64 = if d.units < 0 {
        (-d.units) as u64
    } else {
        d.units as u64
    };
    if d.scale == 0 {
        push_u64(s, mag);
        proof {
            assert(s@ =~= pre + dec_str(*d));
        }
    } else {
        let p = crate::num::pow10_u64(d.scale);
        proof {
            crate::num::lemma_pow10_pos(d.scale as nat);
        }
        push_u64(s, mag / p);
        push_char(s, '.');
        push_fixed(s, mag % p, d.scale);
        proof {
            assert(s@ =~= pre + dec_str(*d));
        }
    }
}

/// Append a quoted, escaped string.
fn push_quoted(s: &mut String, t: &str)
    ensures
        final(s)@ == old(s)@ + quoted(t@),
{
    let ghost pre = s@;
    push_char(s, '"');
    proof {
        assert(t@.skip(0) =~= t@);
        assert(s@ =~= pre + seq!['"']);
    }
    let n = t.unicode_len();
    let mut k: usize = 0;
    while k < n
        invariant
            k <= n,
            n == t@.len(),
            s@ + esc_str(t@.skip(k as int)) == pre + seq!['"'] + esc_str(t@),
        decreases n - k,
    {
        let ghost mid = s@;
        let c = t.get_char(k);
        if c == '"' {
            push_char(s, '\\');
            push_char(s, '"');
        } else if c == '\\' {
            push_char(s, '\\');
            push_char(s, '\\');
        } else if c == '\n' {
            push_char(s, '\\');
            push_char(s, 'n');
        } else if c == '\t' {
            push_char(s, '\\');
            push_char(s, 't');
        } else if c == '\r' {
            push_char(s, '\\');
            push_char(s, 'r');
        } else {
            push_char(s, c);
        }
        proof {
            let sk = t@.skip(k as int);
            assert(sk.len() > 0);
            assert(sk[0] == t@[k as int]);
            assert(sk.drop_first() =~= t@.skip(k as int + 1));
            assert(s@ =~= mid + esc_out(t@[k as int]));
            assert(s@ + esc_str(t@.skip(k as int + 1)) =~= mid + esc_str(sk));
        }
        k = k + 1;
    }
    push_char(s, '"');
    proof {
        assert(esc_str(t@.skip(n as int)) =~= Seq::<char>::empty());
        assert(s@ =~= pre + quoted(t@));
    }
}

/// Append one aggregate.
#[verifier::rlimit(100)]
fn push_agg(s: &mut String, a: &crate::store::MetricAggregate)
    requires
        agg_wf(a@),
    ensures
        final(s)@ == old(s)@ + agg_str(a@),
{
    let ghost pre = s@;
    s.append("{\"last\":");
    match &a.last {
        crate::report::MetricValue::Num(d) => {
            push_dec(s, d);
        },
        crate::report::MetricValue::Bool(b) => {
            if *b {
                s.append("true");
            } else {
                s.append("false");
            }
        },
        crate::report::MetricValue::Text(t) => {
            push_quoted(s, t.as_str());
        },
    }
    s.append(",\"count\":");
    push_u64(s, a.count);
    match &a.num {
        Some(n) => {
            s.append(",\"min\":");
            push_dec(s, &n.min);
            s.append(",\"max\":");
            push_dec(s, &n.max);
            s.append("}");
        },
        None => {
            s.append("}");
        },
    }
    proof {
        assert(s@ =~= pre + agg_str(a@));
    }
}

/// Append one record.
fn push_rec(s: &mut String, r: &crate::store::ClientRecord)
    requires
        rec_wf(r@),
    ensures
        final(s)@ == old(s)@ + rec_str(r@),
{
    let ghost pre = s@;
    push_quoted(s, r.client_id.as_str());
    push_char(s, ':');
    push_char(s, '{');
    let n = r.metrics.len();
    let mut k: usize = 0;
    while k < n
        invariant
            k <= n,
            n == r.metrics.len(),
            rec_wf(r@),
            s@ + metrics_items(r@.metrics, k as int) == pre + quoted(r@.client_id) + seq![':', '{']
                + metrics_items(r@.metrics, 0),
        decreases n - k,
    {
        let ghost mid = s@;
        if k > 0 {
            push_char(s, ',');
        }
        proof {
            assert(r@.metrics[k as int] == (r.metrics@[k as int].0@, r.metrics@[k as int].1@));
        }
        push_quoted(s, r.metrics[k].0.as_str());
        push_char(s, ':');
        push_agg(s, &r.metrics[k].1);
        proof {
            assert(s@ + metrics_items(r@.metrics, k as int + 1) =~= mid + metrics_items(
                r@.metrics,
                k as int,
            ));
        }
        k = k + 1;
    }
    push_char(s, '}');
    proof {
        assert(metrics_items(r@.metrics, n as int) =~= Seq::<char>::empty());
        assert(s@ =~= pre + rec_str(r@));
    }
}

/// The whole snapshot as JSON text.
pub fn render_snapshot(snap: &Snapshot) -> (r: String)
    requires
        store_wf(snap@),
    ensures
        r@ == json_of_snapshot(snap@),
{
    let mut s = String::new();
    push_char(&mut s, '{');
    let ghost pre = s@;
    let n = snap.records.len();
    let mut k: usize = 0;
    while k < n
        invariant
            k <= n,
            n == snap.records.len(),
            store_wf(snap@),
            s@ + rec_items(snap@, k as int) == pre + rec_items(snap@, 0),
        decreases n - k,
    {
        let ghost mid = s@;
        if k > 0 {
            push_char(&mut s, ',');
        }
        proof {
            assert(snap@[k as int] == snap.records@[k as int]@);
            assert(rec_wf(snap@[k as int]));
        }
        push_rec(&mut s, &snap.records[k]);
        proof {
            assert(s@ + rec_items(snap@, k as int + 1) =~= mid + rec_items(snap@, k as int));
        }
        k = k + 1;
    }
    push_char(&mut s, '}');
    proof {
        assert(rec_items(snap@, n as int) =~= Seq::<char>::empty());
        assert(s@ =~= seq!['{'] + rec_items(snap@, 0) + seq!['}']);
    }
    s
}

} // verus!
