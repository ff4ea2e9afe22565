//! Verified utilities over character sequences: classification, substring
//! search, trimming, line splitting and joining, and decimal digit parsing.
//! All executable functions are specified against recursive spec functions
//! over `Seq<char>`.

use vstd::prelude::*;
use vstd::string::StrSliceExecFns;

verus! {

pub proof fn lemma_deep_charvec(v: Vec<char>)
    ensures
        v.deep_view() == v@,
{
    assert(v.deep_view() =~= v@);
}

// ---------------------------------------------------------------------------
// character classes
// ---------------------------------------------------------------------------

pub open spec fn is_digit_char(c: char) -> bool {
    48 <= c as u32 <= 57
}

pub open spec fn is_alpha_char(c: char) -> bool {
    (65 <= c as u32 <= 90) || (97 <= c as u32 <= 122)
}

/// The whitespace characters recognized by trimming and by flexible-gap
/// matching: space, tab, newline, carriage return, vertical tab, form feed.
pub open spec fn is_space_char(c: char) -> bool {
    c == ' ' || c == '\t' || c == '\n' || c == '\r' || c == '\u{b}' || c == '\u{c}'
}

/// Characters of a resource type token: letters, digits, underscore.
pub open spec fn is_type_char(c: char) -> bool {
    is_alpha_char(c) || is_digit_char(c) || c == '_'
}

/// Characters of a resource name token: letters, digits, underscore, hyphen.
pub open spec fn is_name_char(c: char) -> bool {
    is_type_char(c) || c == '-'
}

/// Characters of an injected prefix identifier: letters, digits, hyphen.
pub open spec fn is_dash_ident_char(c: char) -> bool {
    is_alpha_char(c) || is_digit_char(c) || c == '-'
}

/// Parameter bytes of a terminal control sequence: digits and semicolon.
pub open spec fn is_csi_param_char(c: char) -> bool {
    is_digit_char(c) || c == ';'
}

pub fn digit_char(c: char) -> (b: bool)
    ensures
        b == is_digit_char(c),
{
    let u = c as u32;
    48 <= u && u <= 57
}

pub fn alpha_char(c: char) -> (b: bool)
    ensures
        b == is_alpha_char(c),
{
    let u = c as u32;
    (65 <= u && u <= 90) || (97 <= u && u <= 122)
}

pub fn space_char(c: char) -> (b: bool)
    ensures
        b == is_space_char(c),
{
    c == ' ' || c == '\t' || c == '\n' || c == '\r' || c == '\u{b}' || c == '\u{c}'
}

pub fn type_char(c: char) -> (b: bool)
    ensures
        b == is_type_char(c),
{
    alpha_char(c) || digit_char(c) || c == '_'
}

pub fn name_char(c: char) -> (b: bool)
    ensures
        b == is_name_char(c),
{
    type_char(c) || c == '-'
}

pub fn dash_ident_char(c: char) -> (b: bool)
    ensures
        b == is_dash_ident_char(c),
{
    alpha_char(c) || digit_char(c) || c == '-'
}

pub fn csi_param_char(c: char) -> (b: bool)
    ensures
        b == is_csi_param_char(c),
{
    digit_char(c) || c == ';'
}

// ---------------------------------------------------------------------------
// conversions between strings and character vectors
// ---------------------------------------------------------------------------

/// The characters of a string slice, in order.
pub fn char_seq(s: &str) -> (r: Vec<char>)
    ensures
        r@ == s@,
{
    let n = s.unicode_len();
    let mut r: Vec<char> = Vec::new();
    let mut i: usize = 0;
    while i < n
        invariant
            n == s@.len(),
            i <= n,
            r@ == s@.subrange(0, i as int),
        decreases n - i,
    {
        let c = s.get_char(i);
        r.push(c);
        proof {
            assert(r@ =~= s@.subrange(0, i + 1));
        }
        i = i + 1;
    }
    proof {
        assert(r@ =~= s@);
    }
    r
}

/// Relies on std's `FromIterator for String`: collecting an iterator of
/// characters yields the string of exactly those characters in order.
#[verifier::external_body]
pub fn chars_to_string(v: &Vec<char>) -> (r: String)
    ensures
        r@ == v@,
{
    v.iter().collect()
}

/// The lines of a string-slice sequence, as character vectors.
pub fn to_char_lines(lines: &[&str]) -> (r: Vec<Vec<char>>)
    ensures
        r.deep_view() == lines.deep_view(),
{
    let n = lines.len();
    let mut r: Vec<Vec<char>> = Vec::new();
    proof {
        assert(r.deep_view() =~= lines.deep_view().take(0));
    }
    let mut i: usize = 0;
    while i < n
        invariant
            i <= n,
            n == lines.deep_view().len(),
            r.deep_view() == lines.deep_view().take(i as int),
        decreases n - i,
    {
        let lv = char_seq(lines[i]);
        let ghost before = r.deep_view();
        r.push(lv);
        proof {
            lemma_deep_charvec(r@[r@.len() - 1]);
            assert(r.deep_view() =~~= before.push(lines.deep_view()[i as int]));
            assert(before.push(lines.deep_view()[i as int]) =~~= lines.deep_view().take(i + 1));
        }
        i = i + 1;
    }
    proof {
        assert(lines.deep_view().take(n as int) =~~= lines.deep_view());
    }
    r
}

// ---------------------------------------------------------------------------
// substring search
// ---------------------------------------------------------------------------

/// The pattern `p` occurs in `s` starting at index `i`.
pub open spec fn starts_at(s: Seq<char>, p: Seq<char>, i: int) -> bool {
    &&& 0 <= i
    &&& i + p.len() <= s.len()
    &&& forall|k: int| 0 <= k < p.len() ==> s[i + k] == #[trigger] p[k]
}

/// The pattern `p` occurs somewhere in `s`.
pub open spec fn seq_has(s: Seq<char>, p: Seq<char>) -> bool {
    exists|i: int| starts_at(s, p, i)
}

/// The first occurrence of `p` in `s` at or after index `i`, if any.
pub open spec fn find_at(s: Seq<char>, p: Seq<char>, i: int) -> Option<int>
    decreases s.len() - i,
{
    if i < 0 || i + p.len() > s.len() {
        None
    } else if starts_at(s, p, i) {
        Some(i)
    } else {
        find_at(s, p, i + 1)
    }
}

pub proof fn lemma_find_at_some(s: Seq<char>, p: Seq<char>, i: int, j: int)
    requires
        find_at(s, p, i) == Some(j),
    ensures
        i <= j,
        starts_at(s, p, j),
        forall|k: int| i <= k < j ==> !starts_at(s, p, k),
    decreases s.len() - i,
{
    if i < 0 || i + p.len() > s.len() {
    } else if starts_at(s, p, i) {
    } else {
        lemma_find_at_some(s, p, i + 1, j);
    }
}

pub proof fn lemma_find_at_none(s: Seq<char>, p: Seq<char>, i: int)
    requires
        0 <= i,
        find_at(s, p, i) is None,
    ensures
        forall|k: int| k >= i ==> !starts_at(s, p, k),
    decreases s.len() - i,
{
    if i + p.len() > s.len() {
        assert forall|k: int| k >= i implies !starts_at(s, p, k) by {
            if starts_at(s, p, k) {
                assert(k + p.len() <= s.len());
                assert(false);
            }
        }
    } else {
        lemma_find_at_none(s, p, i + 1);
    }
}

pub fn starts_with_at(s: &Vec<char>, p: &Vec<char>, i: usize) -> (b: bool)
    ensures
        b == starts_at(s@, p@, i as int),
{
    let n = s.len();
    if i > n || p.len() > n - i {
        return false;
    }
    let mut k: usize = 0;
    while k < p.len()
        invariant
            n == s@.len(),
            i + p@.len() <= n,
            k <= p@.len(),
            forall|m: int| 0 <= m < k ==> s@[i + m] == #[trigger] p@[m],
        decreases p@.len() - k,
    {
        if s[i + k] != p[k] {
            assert(!starts_at(s@, p@, i as int));
            return false;
        }
        k = k + 1;
    }
    true
}

pub fn find_pat_from(s: &Vec<char>, p: &Vec<char>, from: usize) -> (r: Option<usize>)
    ensures
        match r {
            Some(j) => from <= j && j + p@.len() <= s@.len() && find_at(s@, p@, from as int)
                == Some(j as int),
            None => find_at(s@, p@, from as int) is None,
        },
{
    let mut i = from;
    loop
        invariant
            from <= i,
            find_at(s@, p@, from as int) == find_at(s@, p@, i as int),
        decreases s@.len() + 1 - i,
    {
        if i > s.len() || p.len() > s.len() - i {
            assert(find_at(s@, p@, i as int) is None);
            return None;
        }
        if starts_with_at(s, p, i) {
            assert(find_at(s@, p@, i as int) == Some(i as int));
            return Some(i);
        }
        assert(find_at(s@, p@, i as int) == find_at(s@, p@, i as int + 1));
        i = i + 1;
    }
}

/// Whether the pattern occurs anywhere in the text.
pub fn has_pat(s: &Vec<char>, p: &Vec<char>) -> (b: bool)
    ensures
        b == seq_has(s@, p@),
{
    match find_pat_from(s, p, 0) {
        Some(j) => {
            proof {
                lemma_find_at_some(s@, p@, 0, j as int);
            }
            true
        },
        None => {
            proof {
                lemma_find_at_none(s@, p@, 0);
                if seq_has(s@, p@) {
                    let w = choose|w: int| starts_at(s@, p@, w);
                    assert(!starts_at(s@, p@, w));
                }
            }
            false
        },
    }
}

// ---------------------------------------------------------------------------
// copying and concatenation
// ---------------------------------------------------------------------------

pub fn subvec(s: &Vec<char>, a: usize, b: usize) -> (r: Vec<char>)
    requires
        a <= b <= s@.len(),
    ensures
        r@ == s@.subrange(a as int, b as int),
{
    let mut r: Vec<char> = Vec::new();
    let mut i = a;
    while i < b
        invariant
            a <= i <= b <= s@.len(),
            r@ == s@.subrange(a as int, i as int),
        decreases b - i,
    {
        r.push(s[i]);
        proof {
            assert(r@ =~= s@.subrange(a as int, i + 1));
        }
        i = i + 1;
    }
    r
}

pub fn append_vec(dst: &mut Vec<char>, src: &Vec<char>)
    ensures
        final(dst)@ == old(dst)@ + src@,
{
    let mut i: usize = 0;
    while i < src.len()
        invariant
            i <= src@.len(),
            dst@ == old(dst)@ + src@.subrange(0, i as int),
        decreases src@.len() - i,
    {
        dst.push(src[i]);
        proof {
            assert(old(dst)@ + src@.subrange(0, i + 1) =~= (old(dst)@ + src@.subrange(
                0,
                i as int,
            )).push(src@[i as int]));
        }
        i = i + 1;
    }
    proof {
        assert(src@.subrange(0, src@.len() as int) =~= src@);
    }
}

// ---------------------------------------------------------------------------
// character runs and trimming
// ---------------------------------------------------------------------------

/// End of the maximal run of whitespace characters starting at `i`.
pub open spec fn ws_end(s: Seq<char>, i: int) -> int
    decreases s.len() - i,
{
    if 0 <= i < s.len() && is_space_char(s[i]) {
        ws_end(s, i + 1)
    } else {
        i
    }
}

pub proof fn lemma_ws_end(s: Seq<char>, i: int)
    requires
        0 <= i <= s.len(),
    ensures
        i <= ws_end(s, i) <= s.len(),
        forall|k: int| i <= k < ws_end(s, i) ==> is_space_char(s[k]),
        ws_end(s, i) < s.len() ==> !is_space_char(s[ws_end(s, i)]),
    decreases s.len() - i,
{
    if 0 <= i < s.len() && is_space_char(s[i]) {
        lemma_ws_end(s, i + 1);
    }
}

pub fn scan_ws(s: &Vec<char>, from: usize) -> (r: usize)
    requires
        from <= s@.len(),
    ensures
        r == ws_end(s@, from as int),
        from <= r <= s@.len(),
    {
    proof {
        lemma_ws_end(s@, from as int);
    }
    let mut i = from;
    while i < s.len() && space_char(s[i])
        invariant
            from <= i <= s@.len(),
            ws_end(s@, from as int) == ws_end(s@, i as int),
        decreases s@.len() - i,
    {
        i = i + 1;
    }
    i
}

/// End of the maximal run of decimal digits starting at `i`.
pub open spec fn digit_end(s: Seq<char>, i: int) -> int
    decreases s.len() - i,
{
    if 0 <= i < s.len() && is_digit_char(s[i]) {
        digit_end(s, i + 1)
    } else {
        i
    }
}

pub proof fn lemma_digit_end(s: Seq<char>, i: int)
    requires
        0 <= i <= s.len(),
    ensures
        i <= digit_end(s, i) <= s.len(),
        forall|k: int| i <= k < digit_end(s, i) ==> is_digit_char(s[k]),
        digit_end(s, i) < s.len() ==> !is_digit_char(s[digit_end(s, i)]),
    decreases s.len() - i,
{
    if 0 <= i < s.len() && is_digit_char(s[i]) {
        lemma_digit_end(s, i + 1);
    }
}

pub fn scan_digits(s: &Vec<char>, from: usize) -> (r: usize)
    requires
        from <= s@.len(),
    ensures
        r == digit_end(s@, from as int),
        from <= r <= s@.len(),
{
    proof {
        lemma_digit_end(s@, from as int);
    }
    let mut i = from;
    while i < s.len() && digit_char(s[i])
        invariant
            from <= i <= s@.len(),
            digit_end(s@, from as int) == digit_end(s@, i as int),
        decreases s@.len() - i,
    {
        i = i + 1;
    }
    i
}

/// End of the maximal run of resource type characters starting at `i`.
pub open spec fn type_end(s: Seq<char>, i: int) -> int
    decreases s.len() - i,
{
    if 0 <= i < s.len() && is_type_char(s[i]) {
        type_end(s, i + 1)
    } else {
        i
    }
}

pub proof fn lemma_type_end(s: Seq<char>, i: int)
    requires
        0 <= i <= s.len(),
    ensures
        i <= type_end(s, i) <= s.len(),
        forall|k: int| i <= k < type_end(s, i) ==> is_type_char(s[k]),
        type_end(s, i) < s.len() ==> !is_type_char(s[type_end(s, i)]),
    decreases s.len() - i,
{
    if 0 <= i < s.len() && is_type_char(s[i]) {
        lemma_type_end(s, i + 1);
    }
}

pub fn scan_type_chars(s: &Vec<char>, from: usize) -> (r: usize)
    requires
        from <= s@.len(),
    ensures
        r == type_end(s@, from as int),
        from <= r <= s@.len(),
{
    proof {
        lemma_type_end(s@, from as int);
    }
    let mut i = from;
    while i < s.len() && type_char(s[i])
        invariant
            from <= i <= s@.len(),
            type_end(s@, from as int) == type_end(s@, i as int),
        decreases s@.len() - i,
    {
        i = i + 1;
    }
    i
}

/// End of the maximal run of resource name characters starting at `i`.
pub open spec fn name_end(s: Seq<char>, i: int) -> int
    decreases s.len() - i,
{
    if 0 <= i < s.len() && is_name_char(s[i]) {
        name_end(s, i + 1)
    } else {
        i
    }
}

pub proof fn lemma_name_end(s: Seq<char>, i: int)
    requires
        0 <= i <= s.len(),
    ensures
        i <= name_end(s, i) <= s.len(),
        forall|k: int| i <= k < name_end(s, i) ==> is_name_char(s[k]),
        name_end(s, i) < s.len() ==> !is_name_char(s[name_end(s, i)]),
    decreases s.len() - i,
{
    if 0 <= i < s.len() && is_name_char(s[i]) {
        lemma_name_end(s, i + 1);
    }
}

pub fn scan_name_chars(s: &Vec<char>, from: usize) -> (r: usize)
    requires
        from <= s@.len(),
    ensures
        r == name_end(s@, from as int),
        from <= r <= s@.len(),
{
    proof {
        lemma_name_end(s@, from as int);
    }
    let mut i = from;
    while i < s.len() && name_char(s[i])
        invariant
            from <= i <= s@.len(),
            name_end(s@, from as int) == name_end(s@, i as int),
        decreases s@.len() - i,
    {
        i = i + 1;
    }
    i
}

/// End of the maximal run of dashed identifier characters starting at `i`.
pub open spec fn dash_ident_end(s: Seq<char>, i: int) -> int
    decreases s.len() - i,
{
    if 0 <= i < s.len() && is_dash_ident_char(s[i]) {
        dash_ident_end(s, i + 1)
    } else {
        i
    }
}

pub proof fn lemma_dash_ident_end(s: Seq<char>, i: int)
    requires
        0 <= i <= s.len(),
    ensures
        i <= dash_ident_end(s, i) <= s.len(),
        forall|k: int| i <= k < dash_ident_end(s, i) ==> is_dash_ident_char(s[k]),
        dash_ident_end(s, i) < s.len() ==> !is_dash_ident_char(s[dash_ident_end(s, i)]),
    decreases s.len() - i,
{
    if 0 <= i < s.len() && is_dash_ident_char(s[i]) {
        lemma_dash_ident_end(s, i + 1);
    }
}

pub fn scan_dash_ident(s: &Vec<char>, from: usize) -> (r: usize)
    requires
        from <= s@.len(),
    ensures
        r == dash_ident_end(s@, from as int),
        from <= r <= s@.len(),
{
    proof {
        lemma_dash_ident_end(s@, from as int);
    }
    let mut i = from;
    while i < s.len() && dash_ident_char(s[i])
        invariant
            from <= i <= s@.len(),
            dash_ident_end(s@, from as int) == dash_ident_end(s@, i as int),
        decreases s@.len() - i,
    {
        i = i + 1;
    }
    i
}

/// End of the maximal run of control-sequence parameter characters at `i`.
pub open spec fn csi_param_end(s: Seq<char>, i: int) -> int
    decreases s.len() - i,
{
    if 0 <= i < s.len() && is_csi_param_char(s[i]) {
        csi_param_end(s, i + 1)
    } else {
        i
    }
}

pub proof fn lemma_csi_param_end(s: Seq<char>, i: int)
    requires
        0 <= i <= s.len(),
    ensures
        i <= csi_param_end(s, i) <= s.len(),
        forall|k: int| i <= k < csi_param_end(s, i) ==> is_csi_param_char(s[k]),
        csi_param_end(s, i) < s.len() ==> !is_csi_param_char(s[csi_param_end(s, i)]),
    decreases s.len() - i,
{
    if 0 <= i < s.len() && is_csi_param_char(s[i]) {
        lemma_csi_param_end(s, i + 1);
    }
}

pub fn scan_csi_params(s: &Vec<char>, from: usize) -> (r: usize)
    requires
        from <= s@.len(),
    ensures
        r == csi_param_end(s@, from as int),
        from <= r <= s@.len(),
{
    proof {
        lemma_csi_param_end(s@, from as int);
    }
    let mut i = from;
    while i < s.len() && csi_param_char(s[i])
        invariant
            from <= i <= s@.len(),
            csi_param_end(s@, from as int) == csi_param_end(s@, i as int),
        decreases s@.len() - i,
    {
        i = i + 1;
    }
    i
}

/// A whitespace run with a known end computes `ws_end` exactly.
pub proof fn lemma_ws_run(s: Seq<char>, i: int, j: int)
    requires
        0 <= i <= j <= s.len(),
        forall|k: int| i <= k < j ==> is_space_char(#[trigger] s[k]),
        j < s.len() ==> !is_space_char(s[j]),
    ensures
        ws_end(s, i) == j,
    decreases j - i,
{
    if i < j {
        lemma_ws_run(s, i + 1, j);
    }
}

/// A digit run with a known end computes `digit_end` exactly.
pub proof fn lemma_digit_run(s: Seq<char>, i: int, j: int)
    requires
        0 <= i <= j <= s.len(),
        forall|k: int| i <= k < j ==> is_digit_char(#[trigger] s[k]),
        j < s.len() ==> !is_digit_char(s[j]),
    ensures
        digit_end(s, i) == j,
    decreases j - i,
{
    if i < j {
        lemma_digit_run(s, i + 1, j);
    }
}

/// A type-token run with a known end computes `type_end` exactly.
pub proof fn lemma_type_run(s: Seq<char>, i: int, j: int)
    requires
        0 <= i <= j <= s.len(),
        forall|k: int| i <= k < j ==> is_type_char(#[trigger] s[k]),
        j < s.len() ==> !is_type_char(s[j]),
    ensures
        type_end(s, i) == j,
    decreases j - i,
{
    if i < j {
        lemma_type_run(s, i + 1, j);
    }
}

/// A name-token run with a known end computes `name_end` exactly.
pub proof fn lemma_name_run(s: Seq<char>, i: int, j: int)
    requires
        0 <= i <= j <= s.len(),
        forall|k: int| i <= k < j ==> is_name_char(#[trigger] s[k]),
        j < s.len() ==> !is_name_char(s[j]),
    ensures
        name_end(s, i) == j,
    decreases j - i,
{
    if i < j {
        lemma_name_run(s, i + 1, j);
    }
}

/// Run ends depend only on the text from the start position on: equal
/// suffixes compute equal whitespace runs.
pub proof fn lemma_ws_end_shift(x: Seq<char>, y: Seq<char>, i: int, j: int, k: int)
    requires
        0 <= i <= x.len(),
        0 <= j <= y.len(),
        x.len() - i == y.len() - j,
        forall|m: int| 0 <= m < x.len() - i ==> x[i + m] == #[trigger] y[j + m],
        0 <= k <= x.len() - i,
    ensures
        ws_end(x, i + k) - i == ws_end(y, j + k) - j,
    decreases x.len() - i - k,
{
    if i + k < x.len() {
        assert(x[i + k] == y[j + k]);
        if is_space_char(x[i + k]) {
            lemma_ws_end_shift(x, y, i, j, k + 1);
        }
    }
}

/// Equal suffixes compute equal dashed-identifier runs.
pub proof fn lemma_dash_ident_end_shift(x: Seq<char>, y: Seq<char>, i: int, j: int, k: int)
    requires
        0 <= i <= x.len(),
        0 <= j <= y.len(),
        x.len() - i == y.len() - j,
        forall|m: int| 0 <= m < x.len() - i ==> x[i + m] == #[trigger] y[j + m],
        0 <= k <= x.len() - i,
    ensures
        dash_ident_end(x, i + k) - i == dash_ident_end(y, j + k) - j,
    decreases x.len() - i - k,
{
    if i + k < x.len() {
        assert(x[i + k] == y[j + k]);
        if is_dash_ident_char(x[i + k]) {
            lemma_dash_ident_end_shift(x, y, i, j, k + 1);
        }
    }
}

/// Equal suffixes agree on pattern occurrences.
pub proof fn lemma_starts_at_shift(x: Seq<char>, y: Seq<char>, i: int, j: int, k: int, p: Seq<char>)
    requires
        0 <= i <= x.len(),
        0 <= j <= y.len(),
        x.len() - i == y.len() - j,
        forall|m: int| 0 <= m < x.len() - i ==> x[i + m] == #[trigger] y[j + m],
        0 <= k,
    ensures
        starts_at(x, p, i + k) == starts_at(y, p, j + k),
{
    if starts_at(x, p, i + k) {
        assert forall|m: int| 0 <= m < p.len() implies y[j + k + m] == #[trigger] p[m] by {
            assert(x[i + (k + m)] == y[j + (k + m)]);
            assert(x[i + k + m] == p[m]);
        }
    }
    if starts_at(y, p, j + k) {
        assert forall|m: int| 0 <= m < p.len() implies x[i + k + m] == #[trigger] p[m] by {
            assert(x[i + (k + m)] == y[j + (k + m)]);
            assert(y[j + k + m] == p[m]);
        }
    }
}

/// Start of the maximal run of whitespace characters ending at `j`.
pub open spec fn ws_back(s: Seq<char>, j: int) -> int
    decreases j,
{
    if 0 < j <= s.len() && is_space_char(s[j - 1]) {
        ws_back(s, j - 1)
    } else {
        j
    }
}

pub proof fn lemma_ws_back(s: Seq<char>, j: int)
    requires
        0 <= j <= s.len(),
    ensures
        0 <= ws_back(s, j) <= j,
        forall|k: int| ws_back(s, j) <= k < j ==> is_space_char(s[k]),
    decreases j,
{
    if 0 < j <= s.len() && is_space_char(s[j - 1]) {
        lemma_ws_back(s, j - 1);
    }
}

/// `s` with leading whitespace removed.
pub open spec fn trim_start_spec(s: Seq<char>) -> Seq<char> {
    s.subrange(ws_end(s, 0), s.len() as int)
}

/// `s` with trailing whitespace removed.
pub open spec fn trim_end_spec(s: Seq<char>) -> Seq<char> {
    s.subrange(0, ws_back(s, s.len() as int))
}

/// `s` with both leading and trailing whitespace removed.
pub open spec fn trim_spec(s: Seq<char>) -> Seq<char> {
    trim_end_spec(trim_start_spec(s))
}

pub fn trim_start_vec(s: &Vec<char>) -> (r: Vec<char>)
    ensures
        r@ == trim_start_spec(s@),
{
    proof {
        lemma_ws_end(s@, 0);
    }
    let a = scan_ws(s, 0);
    subvec(s, a, s.len())
}

pub fn trim_end_vec(s: &Vec<char>) -> (r: Vec<char>)
    ensures
        r@ == trim_end_spec(s@),
{
    proof {
        lemma_ws_back(s@, s@.len() as int);
    }
    let mut j = s.len();
    while j > 0 && space_char(s[j - 1])
        invariant
            0 <= j <= s@.len(),
            ws_back(s@, s@.len() as int) == ws_back(s@, j as int),
        decreases j,
    {
        j = j - 1;
    }
    subvec(s, 0, j)
}

pub fn trim_vec(s: &Vec<char>) -> (r: Vec<char>)
    ensures
        r@ == trim_spec(s@),
{
    let t = trim_start_vec(s);
    trim_end_vec(&t)
}

// ---------------------------------------------------------------------------
// line splitting and joining
// ---------------------------------------------------------------------------

/// Split on newline characters, keeping empty segments; a trailing newline
/// yields a final empty segment, so joining restores the text exactly.
pub open spec fn split_nl(s: Seq<char>) -> Seq<Seq<char>>
    decreases s.len(),
{
    if s.len() == 0 {
        seq![Seq::<char>::empty()]
    } else if s[0] == '\n' {
        seq![Seq::<char>::empty()] + split_nl(s.drop_first())
    } else {
        let rest = split_nl(s.drop_first());
        seq![seq![s[0]] + rest[0]] + rest.drop_first()
    }
}

pub proof fn lemma_split_nl_len(s: Seq<char>)
    ensures
        split_nl(s).len() >= 1,
    decreases s.len(),
{
    if s.len() == 0 {
    } else {
        lemma_split_nl_len(s.drop_first());
    }
}

/// Join segments with single newline characters.
pub open spec fn join_nl(ls: Seq<Seq<char>>) -> Seq<char>
    decreases ls.len(),
{
    if ls.len() == 0 {
        Seq::empty()
    } else if ls.len() == 1 {
        ls[0]
    } else {
        ls[0] + seq!['\n'] + join_nl(ls.drop_first())
    }
}

pub proof fn lemma_join_push(ls: Seq<Seq<char>>, x: Seq<char>)
    ensures
        join_nl(ls.push(x)) == if ls.len() == 0 {
            x
        } else {
            join_nl(ls) + seq!['\n'] + x
        },
    decreases ls.len(),
{
    if ls.len() == 0 {
        assert(ls.push(x).len() == 1);
        assert(ls.push(x)[0] == x);
    } else if ls.len() == 1 {
        assert(ls.push(x).len() == 2);
        assert(ls.push(x)[0] == ls[0]);
        assert(ls.push(x).drop_first() =~= seq![x]);
        assert(join_nl(seq![x]) == x);
    } else {
        assert(ls.push(x).drop_first() =~= ls.drop_first().push(x));
        lemma_join_push(ls.drop_first(), x);
    }
}

pub fn split_newlines(s: &Vec<char>) -> (r: Vec<Vec<char>>)
    ensures
        r.deep_view() == split_nl(s@),
        r@.len() >= 1,
{
    let mut done: Vec<Vec<char>> = Vec::new();
    let mut cur: Vec<char> = Vec::new();
    let mut i: usize = 0;
    proof {
        assert(s@.skip(0) =~= s@);
        lemma_split_nl_len(s@);
        let f0 = split_nl(s@);
        assert(done.deep_view() =~= Seq::<Seq<char>>::empty());
        assert(cur@ + f0[0] =~= f0[0]);
        assert(done.deep_view() + seq![cur@ + f0[0]] + f0.drop_first() =~~= f0);
    }
    while i < s.len()
        invariant
            i <= s@.len(),
            split_nl(s@) == done.deep_view() + seq![cur@ + split_nl(s@.skip(i as int))[0]]
                + split_nl(s@.skip(i as int)).drop_first(),
        decreases s@.len() - i,
    {
        let ghost tail = s@.skip(i as int);
        let ghost tail2 = s@.skip(i + 1);
        proof {
            assert(tail.len() > 0);
            assert(tail[0] == s@[i as int]);
            assert(tail.drop_first() =~= tail2);
            lemma_split_nl_len(tail2);
            lemma_split_nl_len(tail);
        }
        let c = s[i];
        if c == '\n' {
            let ghost old_done = done.deep_view();
            let ghost old_cur = cur@;
            proof {
                assert(split_nl(tail) == seq![Seq::<char>::empty()] + split_nl(tail.drop_first()));
                assert(split_nl(tail)[0] =~= Seq::<char>::empty());
                assert(split_nl(tail).drop_first() =~= split_nl(tail2));
                assert(old_cur + split_nl(tail)[0] =~= old_cur);
            }
            done.push(cur);
            cur = Vec::new();
            proof {
                lemma_deep_charvec(done@[done@.len() - 1]);
                assert(done.deep_view() =~~= old_done.push(old_cur));
                assert(seq![split_nl(tail2)[0]] + split_nl(tail2).drop_first() =~~= split_nl(
                    tail2,
                ));
                assert(cur@ + split_nl(tail2)[0] =~= split_nl(tail2)[0]);
                assert(old_done.push(old_cur) + seq![cur@ + split_nl(tail2)[0]] + split_nl(
                    tail2,
                ).drop_first() =~~= old_done + seq![old_cur + split_nl(tail)[0]] + split_nl(
                    tail,
                ).drop_first());
            }
            i = i + 1;
        } else {
            let ghost old_cur = cur@;
            proof {
                assert(split_nl(tail) == seq![seq![tail[0]] + split_nl(tail.drop_first())[0]]
                    + split_nl(tail.drop_first()).drop_first());
            }
            cur.push(c);
            proof {
                assert(cur@ + split_nl(tail2)[0] =~= old_cur + (seq![c] + split_nl(tail2)[0]));
                assert(old_cur + split_nl(tail)[0] =~= old_cur + (seq![c] + split_nl(tail2)[0]));
                assert(split_nl(tail).drop_first() =~= split_nl(tail2).drop_first());
            }
            i = i + 1;
        }
    }
    let ghost old_done = done.deep_view();
    let ghost old_cur = cur@;
    proof {
        assert(s@.skip(i as int).len() == 0);
        assert(split_nl(s@.skip(i as int)) == seq![Seq::<char>::empty()]);
        assert(old_cur + split_nl(s@.skip(i as int))[0] =~= old_cur);
        assert(split_nl(s@.skip(i as int)).drop_first() =~= Seq::<Seq<char>>::empty());
    }
    done.push(cur);
    proof {
        lemma_deep_charvec(done@[done@.len() - 1]);
        assert(done.deep_view() =~~= old_done.push(old_cur));
        assert(old_done.push(old_cur) =~~= old_done + seq![old_cur]
            + Seq::<Seq<char>>::empty());
    }
    done
}

pub fn join_newlines(ls: &Vec<Vec<char>>) -> (r: Vec<char>)
    ensures
        r@ == join_nl(ls.deep_view()),
{
    let mut r: Vec<char> = Vec::new();
    let mut i: usize = 0;
    while i < ls.len()
        invariant
            i <= ls@.len(),
            r@ == join_nl(ls.deep_view().take(i as int)),
        decreases ls@.len() - i,
    {
        if i > 0 {
            r.push('\n');
        }
        append_vec(&mut r, &ls[i]);
        proof {
            let prefix = ls.deep_view().take(i as int);
            lemma_join_push(prefix, ls.deep_view()[i as int]);
            assert(prefix.push(ls.deep_view()[i as int]) =~= ls.deep_view().take(i + 1));
        }
        i = i + 1;
    }
    proof {
        assert(ls.deep_view().take(ls@.len() as int) =~= ls.deep_view());
    }
    r
}

/// Joining is a left inverse of splitting: the split keeps every
/// character, including a final empty segment for a trailing newline.
pub proof fn lemma_join_split(s: Seq<char>)
    ensures
        join_nl(split_nl(s)) == s,
    decreases s.len(),
{
    if s.len() == 0 {
        assert(join_nl(split_nl(s)) =~= s);
    } else if s[0] == '\n' {
        lemma_join_split(s.drop_first());
        lemma_split_nl_len(s.drop_first());
        let parts = split_nl(s);
        assert(parts == seq![Seq::<char>::empty()] + split_nl(s.drop_first()));
        assert(parts.len() >= 2);
        assert(parts[0] =~= Seq::<char>::empty());
        assert(parts.drop_first() =~~= split_nl(s.drop_first()));
        assert(join_nl(parts) == parts[0] + seq!['\n'] + join_nl(parts.drop_first()));
        assert(join_nl(split_nl(s)) =~= s);
    } else {
        lemma_join_split(s.drop_first());
        lemma_split_nl_len(s.drop_first());
        let r = split_nl(s.drop_first());
        let parts = split_nl(s);
        assert(parts == seq![seq![s[0]] + r[0]] + r.drop_first());
        if r.len() == 1 {
            assert(parts.len() == 1);
            assert(join_nl(parts) == parts[0]);
            assert(join_nl(r) == r[0]);
            assert(join_nl(split_nl(s)) =~= s);
        } else {
            assert(parts.len() >= 2);
            assert(parts.drop_first() =~~= r.drop_first());
            assert(join_nl(parts) == parts[0] + seq!['\n'] + join_nl(parts.drop_first()));
            assert(join_nl(parts.drop_first()) == join_nl(r.drop_first()));
            assert(join_nl(r) == r[0] + seq!['\n'] + join_nl(r.drop_first()));
            assert(join_nl(r) == s.drop_first());
            assert(join_nl(parts) =~= seq![s[0]] + (r[0] + seq!['\n'] + join_nl(r.drop_first())));
            assert(seq![s[0]] + join_nl(r) =~= s);
            assert(join_nl(split_nl(s)) =~= s);
        }
    }
}

/// Every line the split yields is a contiguous piece of the text.
pub proof fn lemma_split_line_is_piece(s: Seq<char>, i: int)
    requires
        0 <= i < split_nl(s).len(),
    ensures
        exists|o: int, e: int|
            0 <= o <= e <= s.len() && e - o == split_nl(s)[i].len() && split_nl(s)[i]
                == #[trigger] s.subrange(o, e),
    decreases s.len(),
{
    if s.len() == 0 {
        assert(split_nl(s)[0] =~= s.subrange(0, 0));
    } else if s[0] == '\n' {
        if i == 0 {
            assert(split_nl(s)[0] =~= s.subrange(0, 0));
        } else {
            lemma_split_line_is_piece(s.drop_first(), i - 1);
            let line = split_nl(s)[i];
            assert(line == split_nl(s.drop_first())[i - 1]);
            let (o, e): (int, int) = choose|o: int, e: int|
                0 <= o <= e <= s.drop_first().len() && e - o == line.len() && line
                    == #[trigger] s.drop_first().subrange(o, e);
            assert(line =~= s.subrange(o + 1, e + 1));
        }
    } else {
        lemma_split_nl_len(s.drop_first());
        let r = split_nl(s.drop_first());
        if i == 0 {
            lemma_split_first_line_is_prefix(s.drop_first());
            assert(split_nl(s)[0] == seq![s[0]] + r[0]);
            assert(split_nl(s)[0] =~= s.subrange(0, 1 + r[0].len() as int));
        } else {
            lemma_split_line_is_piece(s.drop_first(), i);
            let line = split_nl(s)[i];
            assert(line == r.drop_first()[i - 1]);
            assert(line == split_nl(s.drop_first())[i]);
            let (o, e): (int, int) = choose|o: int, e: int|
                0 <= o <= e <= s.drop_first().len() && e - o == line.len() && line
                    == #[trigger] s.drop_first().subrange(o, e);
            assert(line =~= s.subrange(o + 1, e + 1));
        }
    }
}

/// The first line of the split is a prefix of the text.
pub proof fn lemma_split_first_line_is_prefix(s: Seq<char>)
    ensures
        split_nl(s)[0].len() <= s.len(),
        split_nl(s)[0] == s.subrange(0, split_nl(s)[0].len() as int),
    decreases s.len(),
{
    if s.len() == 0 {
        assert(split_nl(s)[0] =~= s.subrange(0, 0));
    } else if s[0] == '\n' {
        assert(split_nl(s)[0] =~= s.subrange(0, 0));
    } else {
        lemma_split_first_line_is_prefix(s.drop_first());
        lemma_split_nl_len(s.drop_first());
        let r = split_nl(s.drop_first());
        assert(split_nl(s)[0] == seq![s[0]] + r[0]);
        assert(split_nl(s)[0] =~= s.subrange(0, 1 + r[0].len() as int));
    }
}

// ---------------------------------------------------------------------------
// decimal digits
// ---------------------------------------------------------------------------

/// Numeric value of a sequence of decimal digit characters.
pub open spec fn digits_val(s: Seq<char>) -> int
    decreases s.len(),
{
    if s.len() == 0 {
        0
    } else {
        digits_val(s.drop_last()) * 10 + (s.last() as u32 - 48)
    }
}

/// The captured count for a digit run: its value when it fits the machine
/// word, and zero when it does not.
pub open spec fn count_of_digits(s: Seq<char>) -> int {
    if digits_val(s) <= usize::MAX {
        digits_val(s)
    } else {
        0
    }
}

pub proof fn lemma_digits_val_nonneg(s: Seq<char>)
    requires
        forall|k: int| 0 <= k < s.len() ==> is_digit_char(#[trigger] s[k]),
    ensures
        digits_val(s) >= 0,
    decreases s.len(),
{
    if s.len() > 0 {
        assert(forall|k: int|
            0 <= k < s.drop_last().len() ==> is_digit_char(#[trigger] s.drop_last()[k]));
        lemma_digits_val_nonneg(s.drop_last());
    }
}

/// Parse the digit run `s[a..b]` as a count, yielding zero on overflow.
pub fn digits_to_count(s: &Vec<char>, a: usize, b: usize) -> (r: usize)
    requires
        a <= b <= s@.len(),
        forall|k: int| a <= k < b ==> is_digit_char(#[trigger] s@[k]),
    ensures
        r == count_of_digits(s@.subrange(a as int, b as int)),
{
    let mut acc: usize = 0;
    let mut over: bool = false;
    let mut i = a;
    proof {
        assert(s@.subrange(a as int, a as int) =~= Seq::<char>::empty());
    }
    while i < b
        invariant
            a <= i <= b <= s@.len(),
            forall|k: int| a <= k < b ==> is_digit_char(#[trigger] s@[k]),
            !over ==> acc == digits_val(s@.subrange(a as int, i as int)),
            over ==> digits_val(s@.subrange(a as int, i as int)) > usize::MAX,
        decreases b - i,
    {
        let ghost pre = s@.subrange(a as int, i as int);
        let ghost post = s@.subrange(a as int, i + 1);
        proof {
            assert(post.drop_last() =~= pre);
            assert(post.last() == s@[i as int]);
            assert(forall|k: int| 0 <= k < pre.len() ==> is_digit_char(#[trigger] pre[k]));
            lemma_digits_val_nonneg(pre);
        }
        let c = s[i];
        let d: usize = (c as u32 - 48) as usize;
        proof {
            vstd::arithmetic::div_mod::lemma_fundamental_div_mod((usize::MAX - d) as int, 10);
            vstd::arithmetic::div_mod::lemma_mod_division_less_than_divisor(
                (usize::MAX - d) as int,
                10,
            );
        }
        if !over {
            if acc <= (usize::MAX - d) / 10 {
                proof {
                    let q = ((usize::MAX - d) / 10) as int;
                    assert(10 * (acc as int) <= 10 * q);
                    assert(10 * q <= usize::MAX - d);
                    assert(acc * 10 + d <= usize::MAX);
                }
                acc = acc * 10 + d;
                proof {
                    assert(acc == digits_val(post));
                }
            } else {
                proof {
                    let q = ((usize::MAX - d) / 10) as int;
                    assert(10 * (acc as int) >= 10 * (q + 1));
                    assert(10 * q + 10 > usize::MAX - d);
                    assert(digits_val(post) == acc * 10 + d > usize::MAX);
                }
                over = true;
            }
        } else {
            proof {
                assert(digits_val(post) == digits_val(pre) * 10 + (post.last() as u32 - 48));
                assert(digits_val(pre) * 10 >= digits_val(pre) + 9 * digits_val(pre));
                assert(9 * digits_val(pre) >= 0);
                assert(digits_val(post) > usize::MAX);
            }
        }
        i = i + 1;
    }
    if over {
        0
    } else {
        acc
    }
}

} // verus!
