//! The payload parser: raw text to a `Report`.
//!
//! The accepted shape is a single object of key/value pairs written in the
//! usual brace-and-quote notation: string values, decimal number literals
//! (without exponents, at most `MAX_SCALE` fractional digits, magnitude
//! within the 64-bit range — a well-formed number outside that is consumed
//! and its metric dropped), `true`, `false`; a `null`, object or array value
//! is consumed and its metric dropped. The `client_id` pair must hold a
//! non-empty string; a `ts` pair must hold an integer literal and gives the
//! report's timestamp, otherwise the caller-supplied ingestion time is used.
//! Everything the functions return is pinned to spec-level parsing
//! functions over the character sequence.

use vstd::prelude::*;
use crate::push_char;
use vstd::string::StrSliceExecFns;
use crate::num::{Dec, pow10, MAX_SCALE};

verus! {

pub open spec fn is_ws(c: char) -> bool {
    c == ' ' || c == '\t' || c == '\n' || c == '\r'
}

/// First index at or after `i` that holds no whitespace.
pub open spec fn sp_ws(s: Seq<char>, i: int) -> int
    decreases s.len() - i,
{
    if i < 0 || i >= s.len() {
        i
    } else if is_ws(s[i]) {
        sp_ws(s, i + 1)
    } else {
        i
    }
}

pub open spec fn is_digit(c: char) -> bool {
    '0' <= c <= '9'
}

pub open spec fn digit_of(c: char) -> int {
    c as int - 48
}

/// First index at or after `i` that holds no digit.
pub open spec fn sp_digits_end(s: Seq<char>, i: int) -> int
    decreases s.len() - i,
{
    if i < 0 || i >= s.len() {
        i
    } else if is_digit(s[i]) {
        sp_digits_end(s, i + 1)
    } else {
        i
    }
}

/// The number the digits `s[i..j)` spell.
pub open spec fn digits_val(s: Seq<char>, i: int, j: int) -> int
    decreases j - i,
{
    if j <= i {
        0
    } else {
        digits_val(s, i, j - 1) * 10 + digit_of(s[j - 1])
    }
}

/// What a backslash escape stands for.
pub open spec fn esc_char(c: char) -> Option<char> {
    if c == '"' {
        Some('"')
    } else if c == '\\' {
        Some('\\')
    } else if c == '/' {
        Some('/')
    } else if c == 'n' {
        Some('\n')
    } else if c == 't' {
        Some('\t')
    } else if c == 'r' {
        Some('\r')
    } else if c == 'b' {
        Some('\u{8}')
    } else if c == 'f' {
        Some('\u{c}')
    } else {
        None
    }
}

/// The rest of a quoted string from just after the opening quote: its text
/// and the index just past the closing quote.
pub open spec fn sp_str_body(s: Seq<char>, i: int) -> Option<(Seq<char>, int)>
    decreases s.len() - i,
{
    if i < 0 || i >= s.len() {
        None
    } else if s[i] == '"' {
        Some((Seq::empty(), i + 1))
    } else if s[i] == '\\' {
        if i + 1 >= s.len() {
            None
        } else {
            match esc_char(s[i + 1]) {
                Some(c2) => match sp_str_body(s, i + 2) {
                    Some(t) => Some((seq![c2] + t.0, t.1)),
                    None => None,
                },
                None => None,
            }
        }
    } else if (s[i] as int) < 32 {
        None
    } else {
        match sp_str_body(s, i + 1) {
            Some(t) => Some((seq![s[i]] + t.0, t.1)),
            None => None,
        }
    }
}

/// A whole quoted string starting at `i`.
pub open spec fn sp_string(s: Seq<char>, i: int) -> Option<(Seq<char>, int)> {
    if 0 <= i < s.len() && s[i] == '"' {
        sp_str_body(s, i + 1)
    } else {
        None
    }
}

/// A number literal starting at `i`: the token's end, and its value when it
/// is representable (no exponent, a bounded count of digits).
pub open spec fn sp_number(s: Seq<char>, i: int) -> Option<(Option<Dec>, int)> {
    let neg = 0 <= i < s.len() && s[i] == '-';
    let i1 = if neg {
        i + 1
    } else {
        i
    };
    let d_end = sp_digits_end(s, i1);
    if i < 0 || d_end == i1 {
        None
    } else {
        let has_frac = d_end < s.len() && s[d_end] == '.';
        let f_start = d_end + 1;
        let f_end = sp_digits_end(s, f_start);
        if has_frac && f_end == f_start {
            None
        } else {
            let endpos = if has_frac {
                f_end
            } else {
                d_end
            };
            if endpos < s.len() && (s[endpos] == 'e' || s[endpos] == 'E') {
                let e1 = if endpos + 1 < s.len() && (s[endpos + 1] == '+' || s[endpos + 1] == '-') {
                    endpos + 2
                } else {
                    endpos + 1
                };
                let e_end = sp_digits_end(s, e1);
                if e_end == e1 {
                    None
                } else {
                    Some((None, e_end))
                }
            } else {
                let frac_cnt = if has_frac {
                    f_end - f_start
                } else {
                    0
                };
                if d_end - i1 > 19 || frac_cnt > MAX_SCALE as int {
                    Some((None, endpos))
                } else {
                    let mag = digits_val(s, i1, d_end) * pow10(frac_cnt as nat) + (if has_frac {
                        digits_val(s, f_start, f_end)
                    } else {
                        0
                    });
                    if mag > i64::MAX as int {
                        Some((None, endpos))
                    } else {
                        Some(
                            (
                                Some(
                                    Dec {
                                        units: (if neg {
                                            -mag
                                        } else {
                                            mag
                                        }) as i64,
                                        scale: frac_cnt as u8,
                                    },
                                ),
                                endpos,
                            ),
                        )
                    }
                }
            }
        }
    }
}

// ---------------------------------------------------------------------------
// Executable token layer
// ---------------------------------------------------------------------------
/// Skip whitespace.
fn ws_skip(s: &str, n: usize, i: usize) -> (j: usize)
    requires
        n == s@.len(),
        i <= n,
    ensures
        j == sp_ws(s@, i as int),
        i <= j <= n,
{
    let mut cur = i;
    while cur < n
        invariant
            i <= cur <= n,
            n == s@.len(),
            sp_ws(s@, i as int) == sp_ws(s@, cur as int),
        decreases n - cur,
    {
        let c = s.get_char(cur);
        if !(c == ' ' || c == '\t' || c == '\n' || c == '\r') {
            return cur;
        }
        cur = cur + 1;
    }
    cur
}

/// Skip digits.
fn digits_skip(s: &str, n: usize, i: usize) -> (j: usize)
    requires
        n == s@.len(),
        i <= n,
    ensures
        j == sp_digits_end(s@, i as int),
        i <= j <= n,
{
    let mut cur = i;
    while cur < n
        invariant
            i <= cur <= n,
            n == s@.len(),
            sp_digits_end(s@, i as int) == sp_digits_end(s@, cur as int),
        decreases n - cur,
    {
        let c = s.get_char(cur);
        if !('0' <= c && c <= '9') {
            return cur;
        }
        cur = cur + 1;
    }
    cur
}

proof fn lemma_digits_val_bound(s: Seq<char>, i: int, j: int)
    requires
        0 <= i <= j <= s.len(),
        forall|k: int| i <= k < j ==> is_digit(#[trigger] s[k]),
    ensures
        0 <= digits_val(s, i, j) < pow10((j - i) as nat),
    decreases j - i,
{
    if j > i {
        lemma_digits_val_bound(s, i, j - 1);
        assert(0 <= digit_of(s[j - 1]) <= 9);
    }
}

/// The value of a run of at most 19 digits.
fn digits_value(s: &str, n: usize, i: usize, j: usize) -> (r: u64)
    requires
        n == s@.len(),
        i <= j <= n,
        j - i <= 19,
        forall|k: int| i <= k < j ==> is_digit(s@[k]),
    ensures
        r == digits_val(s@, i as int, j as int),
{
    let mut acc: u64 = 0;
    let mut cur = i;
    while cur < j
        invariant
            i <= cur <= j <= n,
            n == s@.len(),
            j - i <= 19,
            forall|k: int| i <= k < j ==> is_digit(s@[k]),
            acc == digits_val(s@, i as int, cur as int),
            acc < pow10((cur - i) as nat),
        decreases j - cur,
    {
        proof {
            lemma_digits_val_bound(s@, i as int, cur as int);
            crate::num::lemma_pow10_mono((cur - i) as nat, 18);
            assert(pow10(18) == 1000000000000000000) by {
                reveal_with_fuel(pow10, 20);
            }
        }
        let c = s.get_char(cur);
        let d = (c as u32) - 48;
        acc = acc * 10 + (d as u64);
        cur = cur + 1;
    }
    acc
}

/// The character an escape stands for.
fn esc_exec(c: char) -> (r: Option<char>)
    ensures
        r == esc_char(c),
{
    if c == '"' {
        Some('"')
    } else if c == '\\' {
        Some('\\')
    } else if c == '/' {
        Some('/')
    } else if c == 'n' {
        Some('\n')
    } else if c == 't' {
        Some('\t')
    } else if c == 'r' {
        Some('\r')
    } else if c == 'b' {
        Some('\u{8}')
    } else if c == 'f' {
        Some('\u{c}')
    } else {
        None
    }
}

/// Parse a quoted string starting at `i`.
fn parse_string(s: &str, n: usize, i: usize) -> (r: Option<(String, usize)>)
    requires
        n == s@.len(),
        i <= n,
    ensures
        match r {
            Some(t) => sp_string(s@, i as int) == Some((t.0@, t.1 as int)) && t.1 <= n,
            None => sp_string(s@, i as int) is None,
        },
{
    if i >= n || s.get_char(i) != '"' {
        return None;
    }
    let mut acc = String::new();
    let mut cur = i + 1;
    loop
        invariant
            i + 1 <= cur <= n,
            i < n,
            n == s@.len(),
            s@[i as int] == '"',
            (match sp_str_body(s@, cur as int) {
                Some(t) => sp_str_body(s@, i as int + 1) == Some((acc@ + t.0, t.1)),
                None => sp_str_body(s@, i as int + 1) is None,
            }),
        decreases n - cur,
    {
        if cur >= n {
            return None;
        }
        let c = s.get_char(cur);
        if c == '"' {
            proof {
                assert(acc@ + Seq::<char>::empty() =~= acc@);
            }
            return Some((acc, cur + 1));
        } else if c == '\\' {
            if cur + 1 >= n {
                return None;
            }
            let e = s.get_char(cur + 1);
            match esc_exec(e) {
                Some(c2) => {
                    let ghost acc0 = acc@;
                    push_char(&mut acc, c2);
                    proof {
                        if sp_str_body(s@, cur as int + 2) is Some {
                            let t = sp_str_body(s@, cur as int + 2)->0;
                            assert(acc@ + t.0 =~= acc0 + (seq![c2] + t.0));
                        }
                    }
                    cur = cur + 2;
                },
                None => {
                    return None;
                },
            }
        } else if (c as u32) < 32 {
            return None;
        } else {
            let ghost acc0 = acc@;
            push_char(&mut acc, c);
            proof {
                if sp_str_body(s@, cur as int + 1) is Some {
                    let t = sp_str_body(s@, cur as int + 1)->0;
                    assert(acc@ + t.0 =~= acc0 + (seq![c] + t.0));
                }
            }
            cur = cur + 1;
        }
    }
}

} // verus!

verus! {

proof fn lemma_digits_range(s: Seq<char>, i: int)
    requires
        0 <= i,
    ensures
        forall|k: int| i <= k < sp_digits_end(s, i) ==> is_digit(#[trigger] s[k]),
        i <= sp_digits_end(s, i),
        i <= s.len() ==> sp_digits_end(s, i) <= s.len(),
    decreases s.len() - i,
{
    if i < s.len() && is_digit(s[i]) {
        lemma_digits_range(s, i + 1);
    }
}

/// Parse a number literal at `i`: its token end and, when representable,
/// its value.
fn parse_number(s: &str, n: usize, i: usize) -> (r: Option<(Option<Dec>, usize)>)
    requires
        n == s@.len(),
        i <= n,
    ensures
        match r {
            Some(t) => sp_number(s@, i as int) == Some((t.0, t.1 as int)) && t.1 <= n && (t.0
                is Some ==> t.0->0.wf()),
            None => sp_number(s@, i as int) is None,
        },
{
    let neg = i < n && s.get_char(i) == '-';
    let i1 = if neg {
        i + 1
    } else {
        i
    };
    let d_end = digits_skip(s, n, i1);
    if d_end == i1 {
        return None;
    }
    let mut has_frac = false;
    if d_end < n && s.get_char(d_end) == '.' {
        has_frac = true;
    }
    let mut f_start = d_end;
    let mut endpos = d_end;
    let mut frac_cnt: usize = 0;
    let mut f_end = d_end;
    if has_frac {
        f_start = d_end + 1;
        f_end = digits_skip(s, n, f_start);
        if f_end == f_start {
            return None;
        }
        endpos = f_end;
        frac_cnt = f_end - f_start;
    }
    if endpos < n {
        let c = s.get_char(endpos);
        if c == 'e' || c == 'E' {
            let mut e1 = endpos + 1;
            if endpos + 1 < n {
                let c2 = s.get_char(endpos + 1);
                if c2 == '+' || c2 == '-' {
                    e1 = endpos + 2;
                }
            }
            let e_end = digits_skip(s, n, e1);
            if e_end == e1 {
                return None;
            }
            return Some((None, e_end));
        }
    }
    if d_end - i1 > 19 || frac_cnt > (MAX_SCALE as usize) {
        return Some((None, endpos));
    }
    proof {
        lemma_digits_range(s@, i1 as int);
        lemma_digits_range(s@, f_start as int);
    }
    let int_val = digits_value(s, n, i1, d_end);
    let fv: u64 = if has_frac {
        digits_value(s, n, f_start, f_end)
    } else {
        0
    };
    let p = crate::num::pow10_u64(frac_cnt as u8);
    proof {
        lemma_digits_val_bound(s@, i1 as int, d_end as int);
        if has_frac {
            lemma_digits_val_bound(s@, f_start as int, f_end as int);
        }
        crate::num::lemma_pow10_mono((d_end - i1) as nat, 19);
        crate::num::lemma_pow10_mono(frac_cnt as nat, 6);
        assert(pow10(19) == 10000000000000000000) by {
            reveal_with_fuel(pow10, 20);
        }
        assert(pow10(6) == 1000000) by {
            reveal_with_fuel(pow10, 8);
        }
        assert((int_val as int) * (p as int) <= 10000000000000000000 * 1000000)
            by (nonlinear_arith)
            requires
                0 <= int_val <= 10000000000000000000,
                0 < p <= 1000000,
        ;
    }
    let mag: u128 = (int_val as u128) * (p as u128) + (fv as u128);
    if mag > (i64::MAX as u128) {
        return Some((None, endpos));
    }
    let units: i64 = if neg {
        -(mag as i64)
    } else {
        mag as i64
    };
    Some((Some(Dec { units, scale: frac_cnt as u8 }), endpos))
}

} // verus!

use crate::store::ValV;
use crate::report::{MetricValue, Report};

verus! {

/// Why a payload was rejected.
#[derive(Clone, Copy, PartialEq, Eq, Structural, Debug)]
pub enum ParseError {
    InvalidPayload,
}

/// A value starting at `i`: its end, and its meaning when it is a supported
/// metric value (a `null`, object or array value, or an unrepresentable
/// number, is consumed and stands for nothing).
pub open spec fn sp_value(s: Seq<char>, i: int, fuel: nat) -> Option<(Option<ValV>, int)>
    decreases fuel, 2int,
{
    if fuel == 0 || i < 0 || i >= s.len() {
        None
    } else {
        let c = s[i];
        if c == '"' {
            match sp_string(s, i) {
                Some(t) => Some((Some(ValV::Text(t.0)), t.1)),
                None => None,
            }
        } else if c == 't' {
            if i + 4 <= s.len() && s[i + 1] == 'r' && s[i + 2] == 'u' && s[i + 3] == 'e' {
                Some((Some(ValV::Bool(true)), i + 4))
            } else {
                None
            }
        } else if c == 'f' {
            if i + 5 <= s.len() && s[i + 1] == 'a' && s[i + 2] == 'l' && s[i + 3] == 's' && s[i + 4]
                == 'e' {
                Some((Some(ValV::Bool(false)), i + 5))
            } else {
                None
            }
        } else if c == 'n' {
            if i + 4 <= s.len() && s[i + 1] == 'u' && s[i + 2] == 'l' && s[i + 3] == 'l' {
                Some((None, i + 4))
            } else {
                None
            }
        } else if c == '{' {
            match sp_obj_tail(s, i + 1, (fuel - 1) as nat) {
                Some(j) => Some((None, j)),
                None => None,
            }
        } else if c == '[' {
            match sp_arr_tail(s, i + 1, (fuel - 1) as nat) {
                Some(j) => Some((None, j)),
                None => None,
            }
        } else if c == '-' || is_digit(c) {
            match sp_number(s, i) {
                Some(t) => Some(
                    (
                        match t.0 {
                            Some(d) => Some(ValV::Num(d)),
                            None => None,
                        },
                        t.1,
                    ),
                ),
                None => None,
            }
        } else {
            None
        }
    }
}

/// From just after a `{` of a skipped value to just past its `}`.
pub open spec fn sp_obj_tail(s: Seq<char>, i: int, fuel: nat) -> Option<int>
    decreases fuel, 1int,
{
    let j = sp_ws(s, i);
    if j < s.len() && s[j] == '}' {
        Some(j + 1)
    } else {
        sp_obj_members(s, j, fuel)
    }
}

/// Members of a skipped object, from the start of a key.
pub open spec fn sp_obj_members(s: Seq<char>, i: int, fuel: nat) -> Option<int>
    decreases fuel, 0int,
{
    if fuel == 0 {
        None
    } else {
        match sp_string(s, i) {
            Some(kt) => {
                let j2 = sp_ws(s, kt.1);
                if j2 < s.len() && s[j2] == ':' {
                    match sp_value(s, sp_ws(s, j2 + 1), (fuel - 1) as nat) {
                        Some(vt) => {
                            let j4 = sp_ws(s, vt.1);
                            if j4 < s.len() && s[j4] == ',' {
                                sp_obj_members(s, sp_ws(s, j4 + 1), (fuel - 1) as nat)
                            } else if j4 < s.len() && s[j4] == '}' {
                                Some(j4 + 1)
                            } else {
                                None
                            }
                        },
                        None => None,
                    }
                } else {
                    None
                }
            },
            None => None,
        }
    }
}

/// From just after a `[` of a skipped value to just past its `]`.
pub open spec fn sp_arr_tail(s: Seq<char>, i: int, fuel: nat) -> Option<int>
    decreases fuel, 1int,
{
    let j = sp_ws(s, i);
    if j < s.len() && s[j] == ']' {
        Some(j + 1)
    } else {
        sp_arr_elems(s, j, fuel)
    }
}

/// Elements of a skipped array, from the start of an element.
pub open spec fn sp_arr_elems(s: Seq<char>, i: int, fuel: nat) -> Option<int>
    decreases fuel, 0int,
{
    if fuel == 0 {
        None
    } else {
        match sp_value(s, i, (fuel - 1) as nat) {
            Some(vt) => {
                let j = sp_ws(s, vt.1);
                if j < s.len() && s[j] == ',' {
                    sp_arr_elems(s, sp_ws(s, j + 1), (fuel - 1) as nat)
                } else if j < s.len() && s[j] == ']' {
                    Some(j + 1)
                } else {
                    None
                }
            },
            None => None,
        }
    }
}

/// Parse one value.
fn parse_value(s: &str, n: usize, i: usize, fuel: usize) -> (r: Option<(Option<MetricValue>, usize)>)
    requires
        n == s@.len(),
        i <= n,
    ensures
        match r {
            Some(t) => sp_value(s@, i as int, fuel as nat) == Some(
                (
                    match t.0 {
                        Some(v) => Some(v@),
                        None => None,
                    },
                    t.1 as int,
                ),
            ) && t.1 <= n && (t.0 is Some ==> t.0->0.wf()),
            None => sp_value(s@, i as int, fuel as nat) is None,
        },
    decreases fuel, 2int,
{
    if fuel == 0 || i >= n {
        return None;
    }
    let c = s.get_char(i);
    if c == '"' {
        match parse_string(s, n, i) {
            Some(t) => Some((Some(MetricValue::Text(t.0)), t.1)),
            None => None,
        }
    } else if c == 't' {
        if n - i >= 4 && s.get_char(i + 1) == 'r' && s.get_char(i + 2) == 'u' && s.get_char(i + 3)
            == 'e' {
            Some((Some(MetricValue::Bool(true)), i + 4))
        } else {
            None
        }
    } else if c == 'f' {
        if n - i >= 5 && s.get_char(i + 1) == 'a' && s.get_char(i + 2) == 'l' && s.get_char(i + 3)
            == 's' && s.get_char(i + 4) == 'e' {
            Some((Some(MetricValue::Bool(false)), i + 5))
        } else {
            None
        }
    } else if c == 'n' {
        if n - i >= 4 && s.get_char(i + 1) == 'u' && s.get_char(i + 2) == 'l' && s.get_char(i + 3)
            == 'l' {
            Some((None, i + 4))
        } else {
            None
        }
    } else if c == '{' {
        match skip_obj_tail(s, n, i + 1, fuel - 1) {
            Some(j) => Some((None, j)),
            None => None,
        }
    } else if c == '[' {
        match skip_arr_tail(s, n, i + 1, fuel - 1) {
            Some(j) => Some((None, j)),
            None => None,
        }
    } else if c == '-' || ('0' <= c && c <= '9') {
        match parse_number(s, n, i) {
            Some(t) => Some(
                (
                    match t.0 {
                        Some(d) => Some(MetricValue::Num(d)),
                        None => None,
                    },
                    t.1,
                ),
            ),
            None => None,
        }
    } else {
        None
    }
}

/// Skip the rest of an object value.
fn skip_obj_tail(s: &str, n: usize, i: usize, fuel: usize) -> (r: Option<usize>)
    requires
        n == s@.len(),
        i <= n,
    ensures
        match r {
            Some(j) => sp_obj_tail(s@, i as int, fuel as nat) == Some(j as int) && j <= n,
            None => sp_obj_tail(s@, i as int, fuel as nat) is None,
        },
    decreases fuel, 1int,
{
    let j = ws_skip(s, n, i);
    if j < n && s.get_char(j) == '}' {
        Some(j + 1)
    } else {
        skip_obj_members(s, n, j, fuel)
    }
}

/// Skip members of an object value.
fn skip_obj_members(s: &str, n: usize, i: usize, fuel: usize) -> (r: Option<usize>)
    requires
        n == s@.len(),
        i <= n,
    ensures
        match r {
            Some(j) => sp_obj_members(s@, i as int, fuel as nat) == Some(j as int) && j <= n,
            None => sp_obj_members(s@, i as int, fuel as nat) is None,
        },
    decreases fuel, 0int,
{
    if fuel == 0 {
        return None;
    }
    match parse_string(s, n, i) {
        Some(kt) => {
            let j2 = ws_skip(s, n, kt.1);
            if j2 < n && s.get_char(j2) == ':' {
                let j3 = ws_skip(s, n, j2 + 1);
                match parse_value(s, n, j3, fuel - 1) {
                    Some(vt) => {
                        let j4 = ws_skip(s, n, vt.1);
                        if j4 < n && s.get_char(j4) == ',' {
                            let j5 = ws_skip(s, n, j4 + 1);
                            skip_obj_members(s, n, j5, fuel - 1)
                        } else if j4 < n && s.get_char(j4) == '}' {
                            Some(j4 + 1)
                        } else {
                            None
                        }
                    },
                    None => None,
                }
            } else {
                None
            }
        },
        None => None,
    }
}

/// Skip the rest of an array value.
fn skip_arr_tail(s: &str, n: usize, i: usize, fuel: usize) -> (r: Option<usize>)
    requires
        n == s@.len(),
        i <= n,
    ensures
        match r {
            Some(j) => sp_arr_tail(s@, i as int, fuel as nat) == Some(j as int) && j <= n,
            None => sp_arr_tail(s@, i as int, fuel as nat) is None,
        },
    decreases fuel, 1int,
{
    let j = ws_skip(s, n, i);
    if j < n && s.get_char(j) == ']' {
        Some(j + 1)
    } else {
        skip_arr_elems(s, n, j, fuel)
    }
}

/// Skip elements of an array value.
fn skip_arr_elems(s: &str, n: usize, i: usize, fuel: usize) -> (r: Option<usize>)
    requires
        n == s@.len(),
        i <= n,
    ensures
        match r {
            Some(j) => sp_arr_elems(s@, i as int, fuel as nat) == Some(j as int) && j <= n,
            None => sp_arr_elems(s@, i as int, fuel as nat) is None,
        },
    decreases fuel, 0int,
{
    if fuel == 0 {
        return None;
    }
    match parse_value(s, n, i, fuel - 1) {
        Some(vt) => {
            let j = ws_skip(s, n, vt.1);
            if j < n && s.get_char(j) == ',' {
                let j2 = ws_skip(s, n, j + 1);
                skip_arr_elems(s, n, j2, fuel - 1)
            } else if j < n && s.get_char(j) == ']' {
                Some(j + 1)
            } else {
                None
            }
        },
        None => None,
    }
}

} // verus!

use crate::store::RepV;

verus! {

pub open spec fn oview(o: Option<String>) -> Option<Seq<char>> {
    match o {
        Some(s) => Some(s@),
        None => None,
    }
}

pub open spec fn tsview(o: Option<i64>) -> Option<int> {
    match o {
        Some(t) => Some(t as int),
        None => None,
    }
}

pub open spec fn mpview(ms: Seq<(String, MetricValue)>) -> Seq<(Seq<char>, ValV)> {
    ms.map_values(|p: (String, MetricValue)| (p.0@, p.1@))
}

/// What one member does to the parser's state: `client_id` must carry a
/// non-empty string, `ts` must carry an integer literal, and any other key
/// adds a metric when its value is supported and is dropped otherwise.
pub open spec fn sp_member_upd(
    key: Seq<char>,
    v: Option<ValV>,
    cid: Option<Seq<char>>,
    ts: Option<int>,
    ms: Seq<(Seq<char>, ValV)>,
) -> Option<(Option<Seq<char>>, Option<int>, Seq<(Seq<char>, ValV)>)> {
    if key == "client_id"@ {
        match v {
            Some(ValV::Text(t)) => if t.len() > 0 {
                Some((Some(t), ts, ms))
            } else {
                None
            },
            _ => None,
        }
    } else if key == "ts"@ {
        match v {
            Some(ValV::Num(d)) => if d.scale == 0 {
                Some((cid, Some(d.units as int), ms))
            } else {
                None
            },
            _ => None,
        }
    } else {
        match v {
            Some(vv) => Some((cid, ts, ms.push((key, vv)))),
            None => Some((cid, ts, ms)),
        }
    }
}

/// The members of the report object, from the start of a key: the gathered
/// client id, timestamp and metric pairs, and the index past the closing
/// brace.
pub open spec fn sp_members(
    s: Seq<char>,
    i: int,
    cid: Option<Seq<char>>,
    ts: Option<int>,
    ms: Seq<(Seq<char>, ValV)>,
    fuel: nat,
) -> Option<(Option<Seq<char>>, Option<int>, Seq<(Seq<char>, ValV)>, int)>
    decreases fuel,
{
    if fuel == 0 {
        None
    } else {
        match sp_string(s, i) {
            Some(kt) => {
                let j2 = sp_ws(s, kt.1);
                if j2 < s.len() && s[j2] == ':' {
                    match sp_value(s, sp_ws(s, j2 + 1), (fuel - 1) as nat) {
                        Some(vt) => {
                            match sp_member_upd(kt.0, vt.0, cid, ts, ms) {
                                Some(st) => {
                                    let j4 = sp_ws(s, vt.1);
                                    if j4 < s.len() && s[j4] == ',' {
                                        sp_members(
                                            s,
                                            sp_ws(s, j4 + 1),
                                            st.0,
                                            st.1,
                                            st.2,
                                            (fuel - 1) as nat,
                                        )
                                    } else if j4 < s.len() && s[j4] == '}' {
                                        Some((st.0, st.1, st.2, j4 + 1))
                                    } else {
                                        None
                                    }
                                },
                                None => None,
                            }
                        },
                        None => None,
                    }
                } else {
                    None
                }
            },
            None => None,
        }
    }
}

/// What a whole payload means: the report it describes, when it is a single
/// well-formed object carrying a non-empty `client_id`; `now` stands in for
/// an omitted timestamp.
pub open spec fn parse_spec(s: Seq<char>, now: int) -> Option<RepV> {
    let i0 = sp_ws(s, 0);
    if i0 >= s.len() || s[i0] != '{' {
        None
    } else {
        let i1 = sp_ws(s, i0 + 1);
        if i1 < s.len() && s[i1] == '}' {
            None
        } else {
            match sp_members(s, i1, None, None, Seq::empty(), s.len()) {
                Some(t) => {
                    if sp_ws(s, t.3) != s.len() {
                        None
                    } else {
                        match t.0 {
                            Some(cid) => Some(
                                RepV {
                                    client_id: cid,
                                    timestamp: match t.1 {
                                        Some(x) => x,
                                        None => now,
                                    },
                                    metrics: t.2,
                                },
                            ),
                            None => None,
                        }
                    }
                },
                None => None,
            }
        }
    }
}

/// Parse members from the start of a key.
fn parse_members(
    s: &str,
    n: usize,
    i: usize,
    cid: Option<String>,
    ts: Option<i64>,
    ms: Vec<(String, MetricValue)>,
    fuel: usize,
) -> (r: Option<(Option<String>, Option<i64>, Vec<(String, MetricValue)>, usize)>)
    requires
        n == s@.len(),
        i <= n,
        forall|k: int| 0 <= k < ms@.len() ==> (#[trigger] ms@[k].1).wf(),
        cid is Some ==> cid->0@.len() > 0,
    ensures
        match r {
            Some(t) => sp_members(s@, i as int, oview(cid), tsview(ts), mpview(ms@), fuel as nat)
                == Some((oview(t.0), tsview(t.1), mpview(t.2@), t.3 as int)) && t.3 <= n && (forall|
                k: int,
            |
                0 <= k < t.2@.len() ==> (#[trigger] t.2@[k].1).wf()) && (t.0 is Some
                ==> t.0->0@.len() > 0),
            None => sp_members(s@, i as int, oview(cid), tsview(ts), mpview(ms@), fuel as nat)
                is None,
        },
    decreases fuel,
{
    if fuel == 0 {
        return None;
    }
    let kt = parse_string(s, n, i);
    match kt {
        Some((key, kend)) => {
            let j2 = ws_skip(s, n, kend);
            if j2 < n && s.get_char(j2) == ':' {
                let j3 = ws_skip(s, n, j2 + 1);
                match parse_value(s, n, j3, fuel - 1) {
                    Some((ov, vend)) => {
                        let ghost cid0 = oview(cid);
                        let ghost ts0 = tsview(ts);
                        let ghost ms0 = mpview(ms@);
                        let ghost key0 = key@;
                        let ghost ov0: Option<ValV> = match &ov {
                            Some(v) => Some(v@),
                            None => None,
                        };
                        let ckey = "client_id".to_owned();
                        let tkey = "ts".to_owned();
                        let mut cid2: Option<String> = cid;
                        let mut ts2: Option<i64> = ts;
                        let mut ms2: Vec<(String, MetricValue)> = ms;
                        if key == ckey {
                            match ov {
                                Some(MetricValue::Text(t)) => {
                                    if t.as_str().is_empty() {
                                        return None;
                                    }
                                    cid2 = Some(t);
                                },
                                _ => {
                                    return None;
                                },
                            }
                        } else if key == tkey {
                            match ov {
                                Some(MetricValue::Num(d)) => {
                                    if d.scale != 0 {
                                        return None;
                                    }
                                    ts2 = Some(d.units);
                                },
                                _ => {
                                    return None;
                                },
                            }
                        } else {
                            match ov {
                                Some(v) => {
                                    ms2.push((key, v));
                                    proof {
                                        assert(mpview(ms2@) =~~= ms0.push((key0, ov0->0)));
                                    }
                                },
                                None => {},
                            }
                        }
                        proof {
                            assert(sp_member_upd(key0, ov0, cid0, ts0, ms0) == Some(
                                (oview(cid2), tsview(ts2), mpview(ms2@)),
                            ));
                        }
                        let j4 = ws_skip(s, n, vend);
                        if j4 < n && s.get_char(j4) == ',' {
                            let j5 = ws_skip(s, n, j4 + 1);
                            parse_members(s, n, j5, cid2, ts2, ms2, fuel - 1)
                        } else if j4 < n && s.get_char(j4) == '}' {
                            Some((cid2, ts2, ms2, j4 + 1))
                        } else {
                            None
                        }
                    },
                    None => None,
                }
            } else {
                None
            }
        },
        None => None,
    }
}

/// Parse a raw payload into a report; `now` is the ingestion time, used
/// when the payload carries no `ts`.
pub fn parse_report(raw: &str, now: i64) -> (r: Result<Report, ParseError>)
    ensures
        match r {
            Ok(rep) => parse_spec(raw@, now as int) == Some(rep@) && rep.wf(),
            Err(_) => parse_spec(raw@, now as int) is None,
        },
{
    let n = raw.unicode_len();
    let i0 = ws_skip(raw, n, 0);
    if i0 >= n || raw.get_char(i0) != '{' {
        return Err(ParseError::InvalidPayload);
    }
    let i1 = ws_skip(raw, n, i0 + 1);
    if i1 < n && raw.get_char(i1) == '}' {
        return Err(ParseError::InvalidPayload);
    }
    proof {
        assert(mpview(Seq::<(String, MetricValue)>::empty()) =~~= Seq::<(Seq<char>, ValV)>::empty());
    }
    match parse_members(raw, n, i1, None, None, Vec::new(), n) {
        Some((cid, ts, ms, j)) => {
            let j2 = ws_skip(raw, n, j);
            if j2 != n {
                return Err(ParseError::InvalidPayload);
            }
            match cid {
                Some(c) => {
                    let timestamp = match ts {
                        Some(t) => t,
                        None => now,
                    };
                    let rep = Report { client_id: c, timestamp, metrics: ms };
                    Ok(rep)
                },
                None => Err(ParseError::InvalidPayload),
            }
        },
        None => Err(ParseError::InvalidPayload),
    }
}

} // verus!
