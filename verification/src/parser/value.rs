//! The value coercer: converts the raw text of an attribute value into a
//! typed value. Sentinels pass through, one layer of matching quotes keeps
//! the inner text as a string, bracketed literals go through the structured
//! parser, and the remaining bare words are read as booleans, nulls or
//! numbers, falling back to a plain string.

use vstd::prelude::*;

use crate::models::TfValue;
use crate::models::VModel;
use crate::models::opt_value_model;
use crate::models::value_model;
use crate::text::char_seq;
use crate::text::chars_to_string;
use crate::text::digit_end;
use crate::text::digits_val;
use crate::text::is_digit_char;
use crate::text::lemma_digit_end;
use crate::text::lemma_digits_val_nonneg;
use crate::text::scan_digits;
use crate::text::starts_at;
use crate::text::starts_with_at;
use crate::text::subvec;
use crate::text::trim_spec;
use crate::text::trim_vec;

verus! {

// ---------------------------------------------------------------------------
// helpers
// ---------------------------------------------------------------------------

/// Whether two character vectors hold the same text.
pub fn eq_pat(t: &Vec<char>, p: &Vec<char>) -> (b: bool)
    ensures
        b == (t@ == p@),
{
    if t.len() != p.len() {
        return false;
    }
    if starts_with_at(t, p, 0) {
        proof {
            assert(t@ =~= p@);
        }
        true
    } else {
        proof {
            assert(t@ == p@ ==> starts_at(t@, p@, 0));
        }
        false
    }
}

// ---------------------------------------------------------------------------
// literal classes
// ---------------------------------------------------------------------------

/// A pair of matching single or double quotes around the text.
pub open spec fn is_quote_pair(t: Seq<char>) -> bool {
    t.len() >= 2 && ((t[0] == '"' && t[t.len() - 1] == '"') || (t[0] == '\'' && t[t.len() - 1]
        == '\''))
}

/// The sentinel strings that pass through coercion unchanged.
pub open spec fn is_sentinel(t: Seq<char>) -> bool {
    t == "(known after apply)"@ || t == "(sensitive value)"@
}

/// The text after an optional leading sign.
pub open spec fn sign_body(t: Seq<char>) -> Seq<char> {
    if t.len() > 0 && (t[0] == '-' || t[0] == '+') {
        t.drop_first()
    } else {
        t
    }
}

/// An optional sign followed by one or more decimal digits.
pub open spec fn is_int_lit(t: Seq<char>) -> bool {
    let b = sign_body(t);
    b.len() > 0 && (forall|k: int| 0 <= k < b.len() ==> is_digit_char(#[trigger] b[k]))
}

/// The signed value of an integer literal.
pub open spec fn int_value(t: Seq<char>) -> int {
    if t.len() > 0 && t[0] == '-' {
        -digits_val(sign_body(t))
    } else {
        digits_val(sign_body(t))
    }
}

pub open spec fn int_fits_i64(t: Seq<char>) -> bool {
    i64::MIN <= int_value(t) <= i64::MAX
}

/// A well-formed exponent part filling the rest of the literal.
pub open spec fn exp_ok(b: Seq<char>, i: int) -> bool {
    if 0 <= i < b.len() && (b[i] == 'e' || b[i] == 'E') {
        let j = if i + 1 < b.len() && (b[i + 1] == '+' || b[i + 1] == '-') {
            i + 2
        } else {
            i + 1
        };
        let d = digit_end(b, j);
        d > j && d == b.len()
    } else {
        false
    }
}

/// The unsigned body of a decimal number literal: digits with an optional
/// fraction, or a fraction alone, with an optional exponent.
pub open spec fn float_body_ok(b: Seq<char>) -> bool {
    let d1 = digit_end(b, 0);
    if d1 > 0 {
        if d1 == b.len() {
            true
        } else if b[d1] == '.' {
            let d2 = digit_end(b, d1 + 1);
            if d2 == b.len() {
                true
            } else {
                exp_ok(b, d2)
            }
        } else {
            exp_ok(b, d1)
        }
    } else if b.len() > 1 && b[0] == '.' {
        let d2 = digit_end(b, 1);
        d2 > 1 && (d2 == b.len() || exp_ok(b, d2))
    } else {
        false
    }
}

/// A decimal number literal with an optional sign.
pub open spec fn is_float_lit(t: Seq<char>) -> bool {
    float_body_ok(sign_body(t))
}

// ---------------------------------------------------------------------------
// structured literals through the JSON parser
// ---------------------------------------------------------------------------

#[verifier::external_type_specification]
#[verifier::external_body]
pub struct ExJsonValue(serde_json::Value);

/// The structured value that the JSON parser yields for a text, if any; a
/// pure function of the text alone.
pub uninterp spec fn json_value_of(s: Seq<char>) -> Option<VModel>;

/// Converts a parsed JSON tree into the library's value type, one variant
/// to one variant; integral numbers become `Int`, other numbers keep their
/// rendered text.
#[verifier::external_body]
fn from_json(v: serde_json::Value) -> TfValue {
    match v {
        serde_json::Value::Null => TfValue::Null,
        serde_json::Value::Bool(b) => TfValue::Bool(b),
        serde_json::Value::Number(n) => match n.as_i64() {
            Some(i) => TfValue::Int(i),
            None => TfValue::Num(n.to_string()),
        },
        serde_json::Value::String(s) => TfValue::Str(s),
        serde_json::Value::Array(a) => TfValue::Array(a.into_iter().map(from_json).collect()),
        serde_json::Value::Object(o) => TfValue::Object(
            o.into_iter().map(|(k, x)| (k, from_json(x))).collect(),
        ),
    }
}

/// Relies on serde_json::from_str: parses a complete JSON document, or
/// fails; the outcome depends on the text alone.
#[verifier::external_body]
fn parse_json_value(t: &Vec<char>) -> (r: Option<TfValue>)
    ensures
        opt_value_model(r) == json_value_of(t@),
{
    let s: String = t.iter().collect();
    match serde_json::from_str::<serde_json::Value>(&s) {
        Ok(v) => Some(from_json(v)),
        Err(_) => None,
    }
}

// ---------------------------------------------------------------------------
// integer parsing
// ---------------------------------------------------------------------------

/// Read the digit run `t[a..b]` as an unsigned magnitude; the flag reports
/// a value beyond the accumulator's range.
fn digits_mag(t: &Vec<char>, a: usize, b: usize) -> (r: (u64, bool))
    requires
        a <= b <= t@.len(),
        forall|k: int| a <= k < b ==> is_digit_char(#[trigger] t@[k]),
    ensures
        !r.1 ==> r.0 == digits_val(t@.subrange(a as int, b as int)),
        r.1 ==> digits_val(t@.subrange(a as int, b as int)) > u64::MAX,
{
    let mut acc: u64 = 0;
    let mut over: bool = false;
    let mut i = a;
    proof {
        assert(t@.subrange(a as int, a as int) =~= Seq::<char>::empty());
    }
    while i < b
        invariant
            a <= i <= b <= t@.len(),
            forall|k: int| a <= k < b ==> is_digit_char(#[trigger] t@[k]),
            !over ==> acc == digits_val(t@.subrange(a as int, i as int)),
            over ==> digits_val(t@.subrange(a as int, i as int)) > u64::MAX,
        decreases b - i,
    {
        let ghost pre = t@.subrange(a as int, i as int);
        let ghost post = t@.subrange(a as int, i + 1);
        proof {
            assert(post.drop_last() =~= pre);
            assert(post.last() == t@[i as int]);
            assert(forall|k: int| 0 <= k < pre.len() ==> is_digit_char(#[trigger] pre[k]));
            lemma_digits_val_nonneg(pre);
        }
        let c = t[i];
        let d: u64 = (c as u32 - 48) as u64;
        proof {
            vstd::arithmetic::div_mod::lemma_fundamental_div_mod((u64::MAX - d) as int, 10);
            vstd::arithmetic::div_mod::lemma_mod_division_less_than_divisor(
                (u64::MAX - d) as int,
                10,
            );
        }
        if !over {
            if acc <= (u64::MAX - d) / 10 {
                proof {
                    let q = ((u64::MAX - d) / 10) as int;
                    assert(10 * (acc as int) <= 10 * q);
                    assert(10 * q <= u64::MAX - d);
                    assert(acc * 10 + d <= u64::MAX);
                }
                acc = acc * 10 + d;
                proof {
                    assert(acc == digits_val(post));
                }
            } else {
                proof {
                    let q = ((u64::MAX - d) / 10) as int;
                    assert(10 * (acc as int) >= 10 * (q + 1));
                    assert(10 * q + 10 > u64::MAX - d);
                    assert(digits_val(post) == acc * 10 + d > u64::MAX);
                }
                over = true;
            }
        } else {
            proof {
                assert(digits_val(post) == digits_val(pre) * 10 + (post.last() as u32 - 48));
                assert(digits_val(pre) * 10 >= digits_val(pre) + 9 * digits_val(pre));
                assert(9 * digits_val(pre) >= 0);
                assert(digits_val(post) > u64::MAX);
            }
        }
        i = i + 1;
    }
    (acc, over)
}

/// Parse an optionally signed integer literal that fits a 64-bit signed
/// word; anything else is refused.
fn parse_int_lit(t: &Vec<char>) -> (r: Option<i64>)
    ensures
        match r {
            Some(v) => is_int_lit(t@) && int_fits_i64(t@) && v == int_value(t@),
            None => !(is_int_lit(t@) && int_fits_i64(t@)),
        },
{
    let n = t.len();
    if n == 0 {
        return None;
    }
    let c0 = t[0];
    let neg = c0 == '-';
    let start: usize = if c0 == '-' || c0 == '+' {
        1
    } else {
        0
    };
    proof {
        assert(sign_body(t@) =~= t@.subrange(start as int, n as int));
    }
    if start >= n {
        return None;
    }
    proof {
        lemma_digit_end(t@, start as int);
    }
    let e = scan_digits(t, start);
    if e < n {
        proof {
            assert(!is_digit_char(t@[e as int]));
            assert(sign_body(t@)[e - start] == t@[e as int]);
            assert(!is_int_lit(t@));
        }
        return None;
    }
    let ghost body = t@.subrange(start as int, n as int);
    proof {
        assert(forall|k: int| 0 <= k < body.len() ==> is_digit_char(#[trigger] body[k]));
        assert(is_int_lit(t@));
        lemma_digits_val_nonneg(body);
    }
    let (mag, over) = digits_mag(t, start, n);
    if over {
        proof {
            assert(digits_val(body) > u64::MAX);
            assert(!int_fits_i64(t@));
        }
        return None;
    }
    if neg {
        if mag <= i64::MAX as u64 {
            Some(-(mag as i64))
        } else if mag == i64::MAX as u64 + 1 {
            Some(i64::MIN)
        } else {
            proof {
                assert(int_value(t@) == -digits_val(body));
                assert(!int_fits_i64(t@));
            }
            None
        }
    } else {
        if mag <= i64::MAX as u64 {
            Some(mag as i64)
        } else {
            proof {
                assert(!int_fits_i64(t@));
            }
            None
        }
    }
}

// ---------------------------------------------------------------------------
// float recognition
// ---------------------------------------------------------------------------

/// Whether the text is a decimal number literal.
fn float_lit_exec(t: &Vec<char>) -> (b: bool)
    ensures
        b == is_float_lit(t@),
{
    let n = t.len();
    let start: usize = if n > 0 && (t[0] == '-' || t[0] == '+') {
        1
    } else {
        0
    };
    let b = subvec(t, start, n);
    proof {
        assert(sign_body(t@) =~= b@);
    }
    float_body_exec(&b)
}

fn float_body_exec(b: &Vec<char>) -> (r: bool)
    ensures
        r == float_body_ok(b@),
{
    let n = b.len();
    proof {
        lemma_digit_end(b@, 0);
    }
    let d1 = scan_digits(b, 0);
    if d1 > 0 {
        if d1 == n {
            true
        } else if b[d1] == '.' {
            proof {
                lemma_digit_end(b@, d1 + 1);
            }
            let d2 = scan_digits(b, d1 + 1);
            if d2 == n {
                true
            } else {
                exp_exec(b, d2)
            }
        } else {
            exp_exec(b, d1)
        }
    } else if n > 1 && b[0] == '.' {
        proof {
            lemma_digit_end(b@, 1);
        }
        let d2 = scan_digits(b, 1);
        d2 > 1 && (d2 == n || exp_exec(b, d2))
    } else {
        false
    }
}

fn exp_exec(b: &Vec<char>, i: usize) -> (r: bool)
    requires
        i <= b@.len(),
    ensures
        r == exp_ok(b@, i as int),
{
    let n = b.len();
    if i < n && (b[i] == 'e' || b[i] == 'E') {
        let j: usize = if i + 1 < n && (b[i + 1] == '+' || b[i + 1] == '-') {
            i + 2
        } else {
            i + 1
        };
        proof {
            lemma_digit_end(b@, j as int);
        }
        let d = scan_digits(b, j);
        d > j && d == n
    } else {
        false
    }
}

// ---------------------------------------------------------------------------
// the coercer
// ---------------------------------------------------------------------------

/// The typed value a raw attribute text coerces to. Attempts, in order:
/// sentinel pass-through; quoted text as a string; a bracketed literal
/// through the structured parser; `true`/`false`; `null`/`(null)`; an
/// integer; a decimal number kept as text; and a plain string.
pub open spec fn coerce_spec(raw: Seq<char>) -> VModel {
    let t = trim_spec(raw);
    if is_sentinel(t) {
        VModel::Str(t)
    } else if is_quote_pair(t) {
        VModel::Str(t.subrange(1, t.len() - 1))
    } else if t.len() > 0 && (t[0] == '[' || t[0] == '{') && json_value_of(t) is Some {
        json_value_of(t)->Some_0
    } else if t == "true"@ {
        VModel::Bool(true)
    } else if t == "false"@ {
        VModel::Bool(false)
    } else if t == "null"@ || t == "(null)"@ {
        VModel::Null
    } else if is_int_lit(t) && int_fits_i64(t) {
        VModel::Int(int_value(t))
    } else if is_float_lit(t) {
        VModel::Num(t)
    } else {
        VModel::Str(t)
    }
}

/// Coerce a raw attribute text into a typed value.
pub fn parse_terraform_value(raw: &Vec<char>) -> (r: TfValue)
    ensures
        value_model(r) == coerce_spec(raw@),
{
    let t = trim_vec(raw);
    let p_known = char_seq("(known after apply)");
    let p_sens = char_seq("(sensitive value)");
    if eq_pat(&t, &p_known) || eq_pat(&t, &p_sens) {
        return TfValue::Str(chars_to_string(&t));
    }
    let n = t.len();
    if n >= 2 && ((t[0] == '"' && t[n - 1] == '"') || (t[0] == '\'' && t[n - 1] == '\'')) {
        let inner = subvec(&t, 1, n - 1);
        return TfValue::Str(chars_to_string(&inner));
    }
    if n > 0 && (t[0] == '[' || t[0] == '{') {
        match parse_json_value(&t) {
            Some(v) => {
                return v;
            },
            None => {},
        }
    }
    let p_true = char_seq("true");
    let p_false = char_seq("false");
    let p_null = char_seq("null");
    let p_pnull = char_seq("(null)");
    if eq_pat(&t, &p_true) {
        return TfValue::Bool(true);
    }
    if eq_pat(&t, &p_false) {
        return TfValue::Bool(false);
    }
    if eq_pat(&t, &p_null) || eq_pat(&t, &p_pnull) {
        return TfValue::Null;
    }
    match parse_int_lit(&t) {
        Some(v) => {
            return TfValue::Int(v);
        },
        None => {},
    }
    if float_lit_exec(&t) {
        return TfValue::Num(chars_to_string(&t));
    }
    TfValue::Str(chars_to_string(&t))
}

} // verus!
