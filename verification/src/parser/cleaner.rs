//! Input normalization: strips terminal control sequences and spinner
//! glyphs, repairs resource headers split across two lines, removes injected
//! concurrent-execution prefixes, and normalizes line endings.

use vstd::prelude::*;

use crate::models::TfdiffError;
use crate::text::alpha_char;
use crate::text::append_vec;
use crate::text::char_seq;
use crate::text::chars_to_string;
use crate::text::csi_param_end;
use crate::text::dash_ident_end;
use crate::text::has_pat;
use crate::text::is_alpha_char;
use crate::text::is_dash_ident_char;
use crate::text::is_space_char;
use crate::text::join_newlines;
use crate::text::join_nl;
use crate::text::lemma_csi_param_end;
use crate::text::lemma_dash_ident_end;
use crate::text::lemma_ws_end;
use crate::text::scan_csi_params;
use crate::text::scan_dash_ident;
use crate::text::scan_ws;
use crate::text::seq_has;
use crate::text::split_newlines;
use crate::text::split_nl;
use crate::text::starts_at;
use crate::text::starts_with_at;
use crate::text::subvec;
use crate::text::trim_end_spec;
use crate::text::trim_end_vec;
use crate::text::trim_spec;
use crate::text::trim_vec;
use crate::text::ws_end;

verus! {

// ---------------------------------------------------------------------------
// step 1: terminal control sequences
// ---------------------------------------------------------------------------

/// `s` from position `i` on, with every control sequence removed: an escape
/// introducer, `[`, parameter bytes, and a final letter vanish together; an
/// escape introducer not heading such a sequence vanishes alone.
pub open spec fn strip_ansi_at(s: Seq<char>, i: int) -> Seq<char>
    decreases s.len() - i,
    via strip_ansi_at_decreases
{
    if i < 0 || i >= s.len() {
        Seq::empty()
    } else if s[i] == '\u{1b}' {
        if i + 1 < s.len() && s[i + 1] == '[' {
            let e = csi_param_end(s, i + 2);
            if e < s.len() && is_alpha_char(s[e]) {
                strip_ansi_at(s, e + 1)
            } else {
                strip_ansi_at(s, i + 1)
            }
        } else {
            strip_ansi_at(s, i + 1)
        }
    } else {
        seq![s[i]] + strip_ansi_at(s, i + 1)
    }
}

#[via_fn]
proof fn strip_ansi_at_decreases(s: Seq<char>, i: int) {
    if !(i < 0 || i >= s.len()) && s[i] == '\u{1b}' && i + 1 < s.len() && s[i + 1] == '[' {
        lemma_csi_param_end(s, i + 2);
    }
}

pub open spec fn ansi_clean(s: Seq<char>) -> Seq<char> {
    strip_ansi_at(s, 0)
}

fn clean_ansi_chars(s: &Vec<char>) -> (r: Vec<char>)
    ensures
        r@ == ansi_clean(s@),
{
    let mut out: Vec<char> = Vec::new();
    let mut i: usize = 0;
    while i < s.len()
        invariant
            i <= s@.len(),
            ansi_clean(s@) == out@ + strip_ansi_at(s@, i as int),
        decreases s@.len() - i,
    {
        let c = s[i];
        if c == '\u{1b}' {
            if i + 1 < s.len() && s[i + 1] == '[' {
                proof {
                    lemma_csi_param_end(s@, i + 2);
                }
                let e = scan_csi_params(s, i + 2);
                if e < s.len() && alpha_char(s[e]) {
                    i = e + 1;
                } else {
                    i = i + 1;
                }
            } else {
                i = i + 1;
            }
        } else {
            out.push(c);
            proof {
                assert(out@ + strip_ansi_at(s@, i + 1) =~= (out@.drop_last()) + (seq![c]
                    + strip_ansi_at(s@, i + 1)));
            }
            i = i + 1;
        }
    }
    proof {
        assert(out@ + strip_ansi_at(s@, i as int) =~= out@);
    }
    out
}

/// Remove all terminal control sequences from the text.
pub fn clean_ansi_codes(input: &str) -> (r: String)
    ensures
        r@ == ansi_clean(input@),
{
    let v = char_seq(input);
    let cleaned = clean_ansi_chars(&v);
    chars_to_string(&cleaned)
}

// ---------------------------------------------------------------------------
// step 2: spinner glyphs
// ---------------------------------------------------------------------------

/// The ten animation glyphs used by progress indicators.
pub open spec fn is_spinner_char(c: char) -> bool {
    ||| c == '⠋'
    ||| c == '⠙'
    ||| c == '⠹'
    ||| c == '⠸'
    ||| c == '⠼'
    ||| c == '⠴'
    ||| c == '⠦'
    ||| c == '⠧'
    ||| c == '⠇'
    ||| c == '⠏'
}

fn spinner_char(c: char) -> (b: bool)
    ensures
        b == is_spinner_char(c),
{
    c == '⠋' || c == '⠙' || c == '⠹' || c == '⠸' || c == '⠼' || c == '⠴' || c == '⠦' || c == '⠧'
        || c == '⠇' || c == '⠏'
}

pub open spec fn spinner_clean_at(s: Seq<char>, i: int) -> Seq<char>
    decreases s.len() - i,
{
    if i < 0 || i >= s.len() {
        Seq::empty()
    } else if is_spinner_char(s[i]) {
        spinner_clean_at(s, i + 1)
    } else {
        seq![s[i]] + spinner_clean_at(s, i + 1)
    }
}

pub open spec fn spinner_clean(s: Seq<char>) -> Seq<char> {
    spinner_clean_at(s, 0)
}

fn clean_spinner_chars_vec(s: &Vec<char>) -> (r: Vec<char>)
    ensures
        r@ == spinner_clean(s@),
{
    let mut out: Vec<char> = Vec::new();
    let mut i: usize = 0;
    while i < s.len()
        invariant
            i <= s@.len(),
            spinner_clean(s@) == out@ + spinner_clean_at(s@, i as int),
        decreases s@.len() - i,
    {
        let c = s[i];
        if spinner_char(c) {
            i = i + 1;
        } else {
            out.push(c);
            proof {
                assert(out@ + spinner_clean_at(s@, i + 1) =~= (out@.drop_last()) + (seq![c]
                    + spinner_clean_at(s@, i + 1)));
            }
            i = i + 1;
        }
    }
    proof {
        assert(out@ + spinner_clean_at(s@, i as int) =~= out@);
    }
    out
}

/// Remove the ten spinner glyphs from the text.
pub fn clean_spinner_chars(input: &str) -> (r: String)
    ensures
        r@ == spinner_clean(input@),
{
    let v = char_seq(input);
    let cleaned = clean_spinner_chars_vec(&v);
    chars_to_string(&cleaned)
}

// ---------------------------------------------------------------------------
// step 3: repairing headers broken across two lines
// ---------------------------------------------------------------------------

/// A line holding a resource-header fragment: it mentions a resource type
/// comment but lacks the completing verb phrase.
pub open spec fn is_fragment_line(l: Seq<char>) -> bool {
    seq_has(l, "# aws_"@) && !seq_has(l, " will be"@)
}

/// A line that completes a broken header: it carries the verb phrase after
/// a closing parenthesis and does not itself open a header.
pub open spec fn is_completion_line(l: Seq<char>) -> bool {
    seq_has(l, ") will be "@) && !seq_has(l, "# aws_"@)
}

/// Merge every fragment line with the completion line that follows it; the
/// two are joined with the fragment's trailing and the completion's outer
/// whitespace removed, and the pair is consumed together.
pub open spec fn merge_broken(ls: Seq<Seq<char>>, i: int) -> Seq<Seq<char>>
    decreases ls.len() - i,
{
    if i < 0 || i >= ls.len() {
        Seq::empty()
    } else if i + 1 < ls.len() && is_fragment_line(ls[i]) && is_completion_line(ls[i + 1]) {
        seq![trim_end_spec(ls[i]) + trim_spec(ls[i + 1])] + merge_broken(ls, i + 2)
    } else {
        seq![ls[i]] + merge_broken(ls, i + 1)
    }
}

pub open spec fn fix_lines(s: Seq<char>) -> Seq<char> {
    join_nl(merge_broken(split_nl(s), 0))
}

fn merge_broken_lines(ls: &Vec<Vec<char>>) -> (r: Vec<Vec<char>>)
    ensures
        r.deep_view() == merge_broken(ls.deep_view(), 0),
{
    let p_frag = char_seq("# aws_");
    let p_verb = char_seq(" will be");
    let p_comp = char_seq(") will be ");
    let mut out: Vec<Vec<char>> = Vec::new();
    let mut i: usize = 0;
    proof {
        assert(out.deep_view() =~= Seq::<Seq<char>>::empty());
        assert(out.deep_view() + merge_broken(ls.deep_view(), 0) =~= merge_broken(
            ls.deep_view(),
            0,
        ));
    }
    while i < ls.len()
        invariant
            i <= ls@.len(),
            ls.deep_view().len() == ls@.len(),
            p_frag@ == "# aws_"@,
            p_verb@ == " will be"@,
            p_comp@ == ") will be "@,
            merge_broken(ls.deep_view(), 0) == out.deep_view() + merge_broken(
                ls.deep_view(),
                i as int,
            ),
        decreases ls@.len() - i,
    {
        let ghost dv = ls.deep_view();
        proof {
            crate::text::lemma_deep_charvec(ls@[i as int]);
            if i + 1 < ls.len() {
                crate::text::lemma_deep_charvec(ls@[i as int + 1]);
            }
        }
        let frag = has_pat(&ls[i], &p_frag) && !has_pat(&ls[i], &p_verb);
        if i + 1 < ls.len() && frag && has_pat(&ls[i + 1], &p_comp) && !has_pat(
            &ls[i + 1],
            &p_frag,
        ) {
            let mut m = trim_end_vec(&ls[i]);
            let t = trim_vec(&ls[i + 1]);
            append_vec(&mut m, &t);
            let ghost old_out = out.deep_view();
            out.push(m);
            proof {
                crate::text::lemma_deep_charvec(out@[out@.len() - 1]);
                assert(out.deep_view() =~~= old_out.push(trim_end_spec(dv[i as int]) + trim_spec(
                    dv[i as int + 1],
                )));
                assert(old_out.push(trim_end_spec(dv[i as int]) + trim_spec(dv[i as int + 1]))
                    + merge_broken(dv, i + 2) =~~= old_out + (seq![trim_end_spec(dv[i as int])
                    + trim_spec(dv[i as int + 1])] + merge_broken(dv, i + 2)));
            }
            i = i + 2;
        } else {
            let copyv = subvec(&ls[i], 0, ls[i].len());
            let ghost old_out = out.deep_view();
            out.push(copyv);
            proof {
                crate::text::lemma_deep_charvec(out@[out@.len() - 1]);
                assert(out.deep_view() =~~= old_out.push(dv[i as int]));
                assert(old_out.push(dv[i as int]) + merge_broken(dv, i + 1) =~~= old_out + (seq![
                    dv[i as int]
                ] + merge_broken(dv, i + 1)));
            }
            i = i + 1;
        }
    }
    proof {
        assert(out.deep_view() + merge_broken(ls.deep_view(), i as int) =~~= out.deep_view());
    }
    out
}

/// Repair lines broken in the middle of a resource declaration by joining
/// each fragment line with its completing successor.
pub fn fix_broken_lines(input: &str) -> (r: String)
    ensures
        r@ == fix_lines(input@),
{
    let v = char_seq(input);
    let lines = split_newlines(&v);
    let merged = merge_broken_lines(&lines);
    let joined = join_newlines(&merged);
    chars_to_string(&joined)
}

// ---------------------------------------------------------------------------
// step 4: injected line prefixes
// ---------------------------------------------------------------------------

/// One injected prefix occurrence at `i`: the literal `base14-`, at least
/// one identifier character, then at least one whitespace character; the
/// result is the index just past the whitespace.
pub open spec fn prefix_end_at(l: Seq<char>, i: int) -> Option<int> {
    if starts_at(l, "base14-"@, i) {
        let e = dash_ident_end(l, i + 7);
        if e > i + 7 {
            let w = ws_end(l, e);
            if w > e {
                Some(w)
            } else {
                None
            }
        } else {
            None
        }
    } else {
        None
    }
}

proof fn lemma_prefix_end_at(l: Seq<char>, i: int, e: int)
    requires
        0 <= i <= l.len(),
        prefix_end_at(l, i) == Some(e),
    ensures
        i + 8 < e <= l.len(),
{
    reveal_strlit("base14-");
    lemma_dash_ident_end(l, i + 7);
    lemma_ws_end(l, dash_ident_end(l, i + 7));
}

/// Strip injected prefixes repeatedly from position `i`, returning the
/// index where the surviving content begins.
pub open spec fn strip_prefix_loop(l: Seq<char>, i: int) -> int
    decreases l.len() - i,
    via strip_prefix_loop_decreases
{
    if i < 0 || i > l.len() {
        i
    } else {
        match prefix_end_at(l, i) {
            Some(e) => strip_prefix_loop(l, e),
            None => i,
        }
    }
}

#[via_fn]
proof fn strip_prefix_loop_decreases(l: Seq<char>, i: int) {
    if 0 <= i <= l.len() {
        match prefix_end_at(l, i) {
            Some(e) => {
                lemma_prefix_end_at(l, i, e);
            },
            None => {},
        }
    }
}

pub proof fn lemma_strip_prefix_loop(l: Seq<char>, i: int)
    requires
        0 <= i <= l.len(),
    ensures
        i <= strip_prefix_loop(l, i) <= l.len(),
    decreases l.len() - i,
{
    match prefix_end_at(l, i) {
        Some(e) => {
            lemma_prefix_end_at(l, i, e);
            lemma_strip_prefix_loop(l, e);
        },
        None => {},
    }
}

/// One line with injected prefixes removed after its indentation, which is
/// preserved.
pub open spec fn prefixes_clean_line(l: Seq<char>) -> Seq<char> {
    let a = ws_end(l, 0);
    l.subrange(0, a) + l.subrange(strip_prefix_loop(l, a), l.len() as int)
}

pub open spec fn prefixes_clean_lines(ls: Seq<Seq<char>>) -> Seq<Seq<char>> {
    ls.map_values(|l: Seq<char>| prefixes_clean_line(l))
}

pub open spec fn prefixes_clean(s: Seq<char>) -> Seq<char> {
    join_nl(prefixes_clean_lines(split_nl(s)))
}

fn prefix_end_exec(l: &Vec<char>, i: usize, base: &Vec<char>) -> (r: Option<usize>)
    requires
        base@ == "base14-"@,
        i <= l@.len(),
    ensures
        match r {
            Some(e) => prefix_end_at(l@, i as int) == Some(e as int) && i < e && e <= l@.len(),
            None => prefix_end_at(l@, i as int) is None,
        },
{
    let n = l.len();
    if !starts_with_at(l, base, i) {
        return None;
    }
    proof {
        reveal_strlit("base14-");
        assert(base@.len() == 7);
        assert(i + 7 <= n);
        lemma_dash_ident_end(l@, i + 7);
    }
    let e = scan_dash_ident(l, i + 7);
    if e <= i + 7 {
        return None;
    }
    proof {
        lemma_ws_end(l@, e as int);
    }
    let w = scan_ws(l, e);
    if w > e {
        Some(w)
    } else {
        None
    }
}

fn clean_prefixes_line(l: &Vec<char>, base: &Vec<char>) -> (r: Vec<char>)
    requires
        base@ == "base14-"@,
    ensures
        r@ == prefixes_clean_line(l@),
{
    let a = scan_ws(l, 0);
    proof {
        lemma_strip_prefix_loop(l@, a as int);
    }
    let mut j = a;
    loop
        invariant
            a <= j <= l@.len(),
            a == ws_end(l@, 0),
            base@ == "base14-"@,
            strip_prefix_loop(l@, a as int) == strip_prefix_loop(l@, j as int),
        decreases l@.len() - j,
    {
        match prefix_end_exec(l, j, base) {
            Some(e) => {
                j = e;
            },
            None => {
                assert(strip_prefix_loop(l@, j as int) == j);
                let mut out = subvec(l, 0, a);
                let rest = subvec(l, j, l.len());
                append_vec(&mut out, &rest);
                return out;
            },
        }
    }
}

/// Strip injected concurrent-execution prefixes from every line, keeping
/// each line's indentation.
pub fn clean_prefixes(input: &str) -> (r: String)
    ensures
        r@ == prefixes_clean(input@),
{
    let v = char_seq(input);
    let base = char_seq("base14-");
    let lines = split_newlines(&v);
    let mut out: Vec<Vec<char>> = Vec::new();
    let mut i: usize = 0;
    proof {
        assert(out.deep_view() =~= Seq::<Seq<char>>::empty());
        assert(out.deep_view() =~= prefixes_clean_lines(split_nl(v@)).take(0));
    }
    while i < lines.len()
        invariant
            i <= lines@.len(),
            lines.deep_view() == split_nl(v@),
            lines@.len() == lines.deep_view().len(),
            base@ == "base14-"@,
            out.deep_view() == prefixes_clean_lines(split_nl(v@)).take(i as int),
        decreases lines@.len() - i,
    {
        proof {
            crate::text::lemma_deep_charvec(lines@[i as int]);
        }
        let cleaned = clean_prefixes_line(&lines[i], &base);
        let ghost old_out = out.deep_view();
        out.push(cleaned);
        proof {
            crate::text::lemma_deep_charvec(out@[out@.len() - 1]);
            let mapped = prefixes_clean_lines(split_nl(v@));
            assert(mapped[i as int] == prefixes_clean_line(lines.deep_view()[i as int]));
            assert(cleaned@ == mapped[i as int]);
            assert(out.deep_view() =~~= old_out.push(cleaned@));
            assert(old_out.push(cleaned@) =~~= mapped.take(i + 1));
        }
        i = i + 1;
    }
    proof {
        let mapped = prefixes_clean_lines(split_nl(v@));
        assert(mapped.take(lines@.len() as int) =~~= mapped);
    }
    let joined = join_newlines(&out);
    chars_to_string(&joined)
}

// ---------------------------------------------------------------------------
// step 4b: injected inline prefixes
// ---------------------------------------------------------------------------

/// One inline injected prefix at `i`: the literal `base14-cd` and the
/// maximal run of identifier characters after it.
pub open spec fn cdk_end_at(l: Seq<char>, i: int) -> Option<int> {
    if starts_at(l, "base14-cd"@, i) {
        Some(dash_ident_end(l, i + 9))
    } else {
        None
    }
}

proof fn lemma_cdk_end_at(l: Seq<char>, i: int, e: int)
    requires
        0 <= i,
        cdk_end_at(l, i) == Some(e),
    ensures
        i + 9 <= e <= l.len(),
{
    reveal_strlit("base14-cd");
    lemma_dash_ident_end(l, i + 9);
}

/// The text with every inline injected prefix removed, scanning left to
/// right.
pub open spec fn cdk_clean_at(s: Seq<char>, i: int) -> Seq<char>
    decreases s.len() - i,
    via cdk_clean_at_decreases
{
    if i < 0 || i >= s.len() {
        Seq::empty()
    } else {
        match cdk_end_at(s, i) {
            Some(e) => cdk_clean_at(s, e),
            None => seq![s[i]] + cdk_clean_at(s, i + 1),
        }
    }
}

#[via_fn]
proof fn cdk_clean_at_decreases(s: Seq<char>, i: int) {
    if 0 <= i < s.len() {
        match cdk_end_at(s, i) {
            Some(e) => {
                lemma_cdk_end_at(s, i, e);
            },
            None => {},
        }
    }
}

pub open spec fn cdk_clean(s: Seq<char>) -> Seq<char> {
    cdk_clean_at(s, 0)
}

fn clean_cdk_chars(s: &Vec<char>) -> (r: Vec<char>)
    ensures
        r@ == cdk_clean(s@),
{
    let pat = char_seq("base14-cd");
    let mut out: Vec<char> = Vec::new();
    let mut i: usize = 0;
    while i < s.len()
        invariant
            i <= s@.len(),
            pat@ == "base14-cd"@,
            cdk_clean(s@) == out@ + cdk_clean_at(s@, i as int),
        decreases s@.len() - i,
    {
        if starts_with_at(s, &pat, i) {
            proof {
                lemma_cdk_end_at(s@, i as int, dash_ident_end(s@, i + 9));
                reveal_strlit("base14-cd");
                lemma_dash_ident_end(s@, i + 9);
            }
            let e = scan_dash_ident(s, i + 9);
            i = e;
        } else {
            let c = s[i];
            out.push(c);
            proof {
                assert(out@ + cdk_clean_at(s@, i + 1) =~= (out@.drop_last()) + (seq![c]
                    + cdk_clean_at(s@, i + 1)));
            }
            i = i + 1;
        }
    }
    proof {
        assert(out@ + cdk_clean_at(s@, i as int) =~= out@);
    }
    out
}

/// Remove inline injected prefixes anywhere in the text.
pub fn clean_cdk_prefixes(input: &str) -> (r: String)
    ensures
        r@ == cdk_clean(input@),
{
    let v = char_seq(input);
    let cleaned = clean_cdk_chars(&v);
    chars_to_string(&cleaned)
}

// ---------------------------------------------------------------------------
// step 5: line endings
// ---------------------------------------------------------------------------

/// The text with every carriage-return/newline pair and every bare carriage
/// return replaced by a single newline.
pub open spec fn newline_norm_at(s: Seq<char>, i: int) -> Seq<char>
    decreases s.len() - i,
{
    if i < 0 || i >= s.len() {
        Seq::empty()
    } else if s[i] == '\r' {
        if i + 1 < s.len() && s[i + 1] == '\n' {
            seq!['\n'] + newline_norm_at(s, i + 2)
        } else {
            seq!['\n'] + newline_norm_at(s, i + 1)
        }
    } else {
        seq![s[i]] + newline_norm_at(s, i + 1)
    }
}

pub open spec fn newline_norm(s: Seq<char>) -> Seq<char> {
    newline_norm_at(s, 0)
}

fn normalize_endings_chars(s: &Vec<char>) -> (r: Vec<char>)
    ensures
        r@ == newline_norm(s@),
{
    let mut out: Vec<char> = Vec::new();
    let mut i: usize = 0;
    while i < s.len()
        invariant
            i <= s@.len(),
            newline_norm(s@) == out@ + newline_norm_at(s@, i as int),
        decreases s@.len() - i,
    {
        let c = s[i];
        if c == '\r' {
            out.push('\n');
            proof {
                assert(out@ + newline_norm_at(s@, i + 2) =~= (out@.drop_last()) + (seq!['\n']
                    + newline_norm_at(s@, i + 2)));
                assert(out@ + newline_norm_at(s@, i + 1) =~= (out@.drop_last()) + (seq!['\n']
                    + newline_norm_at(s@, i + 1)));
            }
            if i + 1 < s.len() && s[i + 1] == '\n' {
                i = i + 2;
            } else {
                i = i + 1;
            }
        } else {
            out.push(c);
            proof {
                assert(out@ + newline_norm_at(s@, i + 1) =~= (out@.drop_last()) + (seq![c]
                    + newline_norm_at(s@, i + 1)));
            }
            i = i + 1;
        }
    }
    proof {
        assert(out@ + newline_norm_at(s@, i as int) =~= out@);
    }
    out
}

// ---------------------------------------------------------------------------
// the whole normalizer
// ---------------------------------------------------------------------------

/// The full normalization pipeline, applied in this fixed order: control
/// sequences, spinner glyphs, broken-line repair, injected prefixes (at
/// line starts and inline), line endings.
pub open spec fn clean_input_spec(s: Seq<char>) -> Seq<char> {
    newline_norm(cdk_clean(prefixes_clean(fix_lines(spinner_clean(ansi_clean(s))))))
}

// ---------------------------------------------------------------------------
// laws
// ---------------------------------------------------------------------------

proof fn lemma_strip_ansi_no_esc(s: Seq<char>, i: int)
    requires
        0 <= i <= s.len(),
    ensures
        forall|k: int|
            0 <= k < strip_ansi_at(s, i).len() ==> #[trigger] strip_ansi_at(s, i)[k] != '\u{1b}',
    decreases s.len() - i,
{
    if i >= s.len() {
    } else if s[i] == '\u{1b}' {
        if i + 1 < s.len() && s[i + 1] == '[' {
            lemma_csi_param_end(s, i + 2);
            let e = csi_param_end(s, i + 2);
            if e < s.len() && is_alpha_char(s[e]) {
                lemma_strip_ansi_no_esc(s, e + 1);
                assert(strip_ansi_at(s, i) == strip_ansi_at(s, e + 1));
            } else {
                lemma_strip_ansi_no_esc(s, i + 1);
                assert(strip_ansi_at(s, i) == strip_ansi_at(s, i + 1));
            }
        } else {
            lemma_strip_ansi_no_esc(s, i + 1);
            assert(strip_ansi_at(s, i) == strip_ansi_at(s, i + 1));
        }
    } else {
        lemma_strip_ansi_no_esc(s, i + 1);
        assert forall|k: int| 0 <= k < strip_ansi_at(s, i).len() implies #[trigger] strip_ansi_at(
            s,
            i,
        )[k] != '\u{1b}' by {
            if k > 0 {
                assert(strip_ansi_at(s, i)[k] == strip_ansi_at(s, i + 1)[k - 1]);
            }
        }
    }
}

proof fn lemma_strip_ansi_identity(s: Seq<char>, i: int)
    requires
        0 <= i <= s.len(),
        forall|k: int| i <= k < s.len() ==> s[k] != '\u{1b}',
    ensures
        strip_ansi_at(s, i) == s.subrange(i, s.len() as int),
    decreases s.len() - i,
{
    if i >= s.len() {
        assert(strip_ansi_at(s, i) =~= s.subrange(i, s.len() as int));
    } else {
        lemma_strip_ansi_identity(s, i + 1);
        assert(strip_ansi_at(s, i) =~= s.subrange(i, s.len() as int));
    }
}

/// Control-sequence purity: the stripped text never contains the escape
/// introducer, whatever the input.
pub proof fn lemma_ansi_purity(s: Seq<char>)
    ensures
        forall|k: int| 0 <= k < ansi_clean(s).len() ==> #[trigger] ansi_clean(s)[k] != '\u{1b}',
{
    lemma_strip_ansi_no_esc(s, 0);
}

/// Control-sequence stripping is idempotent on every input.
pub proof fn lemma_ansi_clean_idempotent(s: Seq<char>)
    ensures
        ansi_clean(ansi_clean(s)) == ansi_clean(s),
{
    lemma_ansi_purity(s);
    lemma_strip_ansi_identity(ansi_clean(s), 0);
    assert(ansi_clean(s).subrange(0, ansi_clean(s).len() as int) =~= ansi_clean(s));
}

proof fn lemma_spinner_clean_props(s: Seq<char>, i: int)
    requires
        0 <= i <= s.len(),
    ensures
        forall|k: int|
            0 <= k < spinner_clean_at(s, i).len() ==> !is_spinner_char(
                #[trigger] spinner_clean_at(s, i)[k],
            ),
    decreases s.len() - i,
{
    if i >= s.len() {
    } else if is_spinner_char(s[i]) {
        lemma_spinner_clean_props(s, i + 1);
    } else {
        lemma_spinner_clean_props(s, i + 1);
        assert forall|k: int| 0 <= k < spinner_clean_at(s, i).len() implies !is_spinner_char(
            #[trigger] spinner_clean_at(s, i)[k],
        ) by {
            if k > 0 {
                assert(spinner_clean_at(s, i)[k] == spinner_clean_at(s, i + 1)[k - 1]);
            }
        }
    }
}

proof fn lemma_spinner_clean_identity(s: Seq<char>, i: int)
    requires
        0 <= i <= s.len(),
        forall|k: int| i <= k < s.len() ==> !is_spinner_char(s[k]),
    ensures
        spinner_clean_at(s, i) == s.subrange(i, s.len() as int),
    decreases s.len() - i,
{
    if i >= s.len() {
        assert(spinner_clean_at(s, i) =~= s.subrange(i, s.len() as int));
    } else {
        lemma_spinner_clean_identity(s, i + 1);
        assert(spinner_clean_at(s, i) =~= s.subrange(i, s.len() as int));
    }
}

/// Spinner purity: none of the ten glyphs survives stripping, whatever the
/// input.
pub proof fn lemma_spinner_purity(s: Seq<char>)
    ensures
        forall|k: int|
            0 <= k < spinner_clean(s).len() ==> !is_spinner_char(#[trigger] spinner_clean(s)[k]),
{
    lemma_spinner_clean_props(s, 0);
}

/// Spinner stripping is idempotent on every input.
pub proof fn lemma_spinner_clean_idempotent(s: Seq<char>)
    ensures
        spinner_clean(spinner_clean(s)) == spinner_clean(s),
{
    lemma_spinner_purity(s);
    lemma_spinner_clean_identity(spinner_clean(s), 0);
    assert(spinner_clean(s).subrange(0, spinner_clean(s).len() as int) =~= spinner_clean(s));
}

proof fn lemma_newline_norm_no_cr(s: Seq<char>, i: int)
    requires
        0 <= i <= s.len(),
    ensures
        forall|k: int|
            0 <= k < newline_norm_at(s, i).len() ==> #[trigger] newline_norm_at(s, i)[k] != '\r',
    decreases s.len() - i,
{
    if i >= s.len() {
    } else if s[i] == '\r' {
        if i + 1 < s.len() && s[i + 1] == '\n' {
            lemma_newline_norm_no_cr(s, i + 2);
        } else {
            lemma_newline_norm_no_cr(s, i + 1);
        }
        assert forall|k: int| 0 <= k < newline_norm_at(s, i).len() implies #[trigger
        ] newline_norm_at(s, i)[k] != '\r' by {
            if k > 0 {
                if i + 1 < s.len() && s[i + 1] == '\n' {
                    assert(newline_norm_at(s, i)[k] == newline_norm_at(s, i + 2)[k - 1]);
                } else {
                    assert(newline_norm_at(s, i)[k] == newline_norm_at(s, i + 1)[k - 1]);
                }
            }
        }
    } else {
        lemma_newline_norm_no_cr(s, i + 1);
        assert forall|k: int| 0 <= k < newline_norm_at(s, i).len() implies #[trigger
        ] newline_norm_at(s, i)[k] != '\r' by {
            if k > 0 {
                assert(newline_norm_at(s, i)[k] == newline_norm_at(s, i + 1)[k - 1]);
            }
        }
    }
}

proof fn lemma_newline_norm_identity(s: Seq<char>, i: int)
    requires
        0 <= i <= s.len(),
        forall|k: int| i <= k < s.len() ==> s[k] != '\r',
    ensures
        newline_norm_at(s, i) == s.subrange(i, s.len() as int),
    decreases s.len() - i,
{
    if i >= s.len() {
        assert(newline_norm_at(s, i) =~= s.subrange(i, s.len() as int));
    } else {
        lemma_newline_norm_identity(s, i + 1);
        assert(newline_norm_at(s, i) =~= s.subrange(i, s.len() as int));
    }
}

/// Line-ending normalization is idempotent on every input: its output
/// holds no carriage return, and it leaves such text unchanged.
pub proof fn lemma_newline_norm_idempotent(s: Seq<char>)
    ensures
        newline_norm(newline_norm(s)) == newline_norm(s),
{
    lemma_newline_norm_no_cr(s, 0);
    lemma_newline_norm_identity(newline_norm(s), 0);
    assert(newline_norm(s).subrange(0, newline_norm(s).len() as int) =~= newline_norm(s));
}

/// Whatever prefix of the cleaned text consists of identifier characters
/// was copied contiguously from the input: a removal never ends before an
/// identifier character, so no removal gap can sit inside such a prefix.
proof fn lemma_cdk_copy_origin(s: Seq<char>, i: int, w: Seq<char>)
    requires
        0 <= i <= s.len(),
        forall|k: int| 0 <= k < w.len() ==> crate::text::is_dash_ident_char(#[trigger] w[k]),
        w.len() <= cdk_clean_at(s, i).len(),
        forall|k: int| 0 <= k < w.len() ==> cdk_clean_at(s, i)[k] == #[trigger] w[k],
    ensures
        starts_at(s, w, i),
    decreases s.len() - i,
{
    reveal_strlit("base14-cd");
    if w.len() == 0 {
    } else {
        assert(cdk_clean_at(s, i).len() > 0);
        assert(i < s.len());
        match cdk_end_at(s, i) {
            Some(e) => {
                lemma_cdk_end_at(s, i, e);
                lemma_dash_ident_end(s, i + 9);
                if e >= s.len() {
                    assert(cdk_clean_at(s, e).len() == 0);
                    assert(false);
                } else {
                    assert(!is_dash_ident_char(s[e]));
                    assert(is_dash_ident_char('b'));
                    assert(!starts_at(s, "base14-cd"@, e)) by {
                        if starts_at(s, "base14-cd"@, e) {
                            assert(s[e] == "base14-cd"@[0]);
                        }
                    }
                    assert(cdk_end_at(s, e) is None);
                    assert(cdk_clean_at(s, e) == seq![s[e]] + cdk_clean_at(s, e + 1));
                    assert(cdk_clean_at(s, i)[0] == s[e]);
                    assert(is_dash_ident_char(w[0]));
                    assert(false);
                }
            },
            None => {
                let w2 = w.drop_first();
                assert(cdk_clean_at(s, i) == seq![s[i]] + cdk_clean_at(s, i + 1));
                assert(w[0] == s[i]);
                assert forall|k: int| 0 <= k < w2.len() implies cdk_clean_at(s, i + 1)[k]
                    == #[trigger] w2[k] by {
                    assert(w2[k] == w[k + 1]);
                    assert(cdk_clean_at(s, i)[k + 1] == cdk_clean_at(s, i + 1)[k]);
                }
                lemma_cdk_copy_origin(s, i + 1, w2);
                assert forall|k: int| 0 <= k < w.len() implies s[i + k] == #[trigger] w[k] by {
                    if k > 0 {
                        assert(s[(i + 1) + (k - 1)] == w2[k - 1]);
                    }
                }
            },
        }
    }
}

proof fn lemma_cdk_pat_chars()
    ensures
        "base14-cd"@.len() == 9,
        forall|k: int|
            0 <= k < "base14-cd"@.len() ==> crate::text::is_dash_ident_char(
                #[trigger] "base14-cd"@[k],
            ),
{
    reveal_strlit("base14-cd");
    assert forall|k: int| 0 <= k < "base14-cd"@.len() implies crate::text::is_dash_ident_char(
        #[trigger] "base14-cd"@[k],
    ) by {
        if k == 0 {
            assert(is_dash_ident_char('b'));
        } else if k == 1 {
            assert(is_dash_ident_char('a'));
        } else if k == 2 {
            assert(is_dash_ident_char('s'));
        } else if k == 3 {
            assert(is_dash_ident_char('e'));
        } else if k == 4 {
            assert(is_dash_ident_char('1'));
        } else if k == 5 {
            assert(is_dash_ident_char('4'));
        } else if k == 6 {
            assert(is_dash_ident_char('-'));
        } else if k == 7 {
            assert(is_dash_ident_char('c'));
        } else {
            assert(is_dash_ident_char('d'));
        }
    }
}

/// The cleaned text holds no occurrence of the inline prefix pattern.
proof fn lemma_cdk_no_match(s: Seq<char>, i: int)
    requires
        0 <= i <= s.len(),
    ensures
        forall|k: int| !starts_at(cdk_clean_at(s, i), "base14-cd"@, k),
    decreases s.len() - i,
{
    lemma_cdk_pat_chars();
    if i >= s.len() {
        assert(cdk_clean_at(s, i) =~= Seq::<char>::empty());
        assert forall|k: int| !starts_at(cdk_clean_at(s, i), "base14-cd"@, k) by {
            if starts_at(cdk_clean_at(s, i), "base14-cd"@, k) {
                assert(k + "base14-cd"@.len() <= cdk_clean_at(s, i).len());
                assert(false);
            }
        }
    } else {
        match cdk_end_at(s, i) {
            Some(e) => {
                lemma_cdk_end_at(s, i, e);
                lemma_cdk_no_match(s, e);
                assert(cdk_clean_at(s, i) == cdk_clean_at(s, e));
            },
            None => {
                lemma_cdk_no_match(s, i + 1);
                assert(cdk_clean_at(s, i) == seq![s[i]] + cdk_clean_at(s, i + 1));
                assert forall|k: int| !starts_at(cdk_clean_at(s, i), "base14-cd"@, k) by {
                    if starts_at(cdk_clean_at(s, i), "base14-cd"@, k) {
                        if k == 0 {
                            assert forall|m: int| 0 <= m < 9 implies cdk_clean_at(s, i)[m]
                                == #[trigger] "base14-cd"@[m] by {}
                            lemma_cdk_copy_origin(s, i, "base14-cd"@);
                            assert(cdk_end_at(s, i) is Some);
                            assert(false);
                        } else {
                            assert(starts_at(cdk_clean_at(s, i + 1), "base14-cd"@, k - 1)) by {
                                assert forall|m: int| 0 <= m < 9 implies cdk_clean_at(s, i + 1)[(k
                                    - 1) + m] == #[trigger] "base14-cd"@[m] by {
                                    assert(cdk_clean_at(s, i)[k + m] == cdk_clean_at(s, i + 1)[k + m
                                        - 1]);
                                }
                            }
                            assert(false);
                        }
                    }
                }
            },
        }
    }
}

/// Inline prefix removal leaves occurrence-free text unchanged.
proof fn lemma_cdk_identity(s: Seq<char>, i: int)
    requires
        0 <= i <= s.len(),
        forall|k: int| !starts_at(s, "base14-cd"@, k),
    ensures
        cdk_clean_at(s, i) == s.subrange(i, s.len() as int),
    decreases s.len() - i,
{
    if i >= s.len() {
        assert(cdk_clean_at(s, i) =~= s.subrange(i, s.len() as int));
    } else {
        assert(cdk_end_at(s, i) is None);
        lemma_cdk_identity(s, i + 1);
        assert(cdk_clean_at(s, i) =~= s.subrange(i, s.len() as int));
    }
}

/// Inline prefix removal is idempotent on every input: the left-to-right
/// scan removes each maximal occurrence, and because the character that
/// follows a removed occurrence is never an identifier character, the
/// splice cannot form a new occurrence.
pub proof fn lemma_cdk_clean_idempotent(s: Seq<char>)
    ensures
        cdk_clean(cdk_clean(s)) == cdk_clean(s),
{
    lemma_cdk_no_match(s, 0);
    lemma_cdk_identity(cdk_clean(s), 0);
    assert(cdk_clean(s).subrange(0, cdk_clean(s).len() as int) =~= cdk_clean(s));
}

proof fn lemma_seq_has_concat_left(a: Seq<char>, b: Seq<char>, p: Seq<char>)
    requires
        seq_has(a, p),
    ensures
        seq_has(a + b, p),
{
    let q = choose|q: int| starts_at(a, p, q);
    assert(starts_at(a + b, p, q)) by {
        assert forall|k: int| 0 <= k < p.len() implies (a + b)[q + k] == #[trigger] p[k] by {
            assert(a[q + k] == p[k]);
        }
    }
}

proof fn lemma_seq_has_concat_right(a: Seq<char>, b: Seq<char>, p: Seq<char>)
    requires
        seq_has(b, p),
    ensures
        seq_has(a + b, p),
{
    let q = choose|q: int| starts_at(b, p, q);
    assert(starts_at(a + b, p, a.len() + q)) by {
        assert forall|k: int| 0 <= k < p.len() implies (a + b)[a.len() + q + k] == #[trigger] p[k]
            by {
            assert(b[q + k] == p[k]);
        }
    }
}

/// A pattern whose first and last characters are not whitespace survives
/// trimming.
proof fn lemma_seq_has_trims(l: Seq<char>, p: Seq<char>)
    requires
        seq_has(l, p),
        p.len() > 0,
        !is_space_char(p[0]),
        !is_space_char(p[p.len() - 1]),
    ensures
        seq_has(trim_end_spec(l), p),
        seq_has(trim_spec(l), p),
{
    let q = choose|q: int| starts_at(l, p, q);
    crate::text::lemma_ws_back(l, l.len() as int);
    let wb = crate::text::ws_back(l, l.len() as int);
    assert(l[q + p.len() - 1] == p[p.len() - 1]);
    assert(q + p.len() <= wb) by {
        if q + p.len() > wb {
            assert(is_space_char(l[q + p.len() - 1]));
        }
    }
    assert(starts_at(trim_end_spec(l), p, q)) by {
        assert forall|k: int| 0 <= k < p.len() implies trim_end_spec(l)[q + k] == #[trigger] p[k]
            by {
            assert(l[q + k] == p[k]);
        }
    }
    crate::text::lemma_ws_end(l, 0);
    let a = ws_end(l, 0);
    assert(l[q] == p[0]);
    assert(a <= q) by {
        if a > q {
            assert(is_space_char(l[q]));
        }
    }
    let tst = crate::text::trim_start_spec(l);
    assert(forall|k: int| 0 <= k < tst.len() ==> #[trigger] tst[k] == l[a + k]);
    assert(starts_at(tst, p, q - a)) by {
        assert forall|k: int| 0 <= k < p.len() implies tst[q - a + k] == #[trigger] p[k] by {
            assert(tst[q - a + k] == l[q + k]);
        }
    }
    crate::text::lemma_ws_back(tst, tst.len() as int);
    let wb2 = crate::text::ws_back(tst, tst.len() as int);
    assert((q - a) + p.len() <= wb2) by {
        if (q - a) + p.len() > wb2 {
            assert(is_space_char(tst[q - a + p.len() - 1]));
        }
    }
    assert(starts_at(trim_spec(l), p, q - a)) by {
        assert forall|k: int| 0 <= k < p.len() implies trim_spec(l)[q - a + k] == #[trigger] p[k]
            by {
            assert(trim_spec(l)[q - a + k] == tst[q - a + k]);
        }
    }
}

/// A merged line carries both the header comment and the verb phrase, so
/// it is neither a fragment nor a completion.
proof fn lemma_merged_line_closed(f: Seq<char>, c: Seq<char>)
    requires
        is_fragment_line(f),
        is_completion_line(c),
    ensures
        !is_fragment_line(trim_end_spec(f) + trim_spec(c)),
        !is_completion_line(trim_end_spec(f) + trim_spec(c)),
{
    reveal_strlit("# aws_");
    reveal_strlit(" will be");
    reveal_strlit(") will be");
    reveal_strlit(") will be ");
    let m = trim_end_spec(f) + trim_spec(c);
    // the header comment survives the fragment's trailing trim
    lemma_seq_has_trims(f, "# aws_"@);
    lemma_seq_has_concat_left(trim_end_spec(f), trim_spec(c), "# aws_"@);
    // the completion's verb phrase, without its trailing space, survives
    // the completion's trim
    let q = choose|q: int| starts_at(c, ") will be "@, q);
    assert(starts_at(c, ") will be"@, q)) by {
        assert forall|k: int| 0 <= k < 9 implies c[q + k] == #[trigger] ") will be"@[k] by {
            assert(c[q + k] == ") will be "@[k]);
        }
    }
    lemma_seq_has_trims(c, ") will be"@);
    lemma_seq_has_concat_right(trim_end_spec(f), trim_spec(c), ") will be"@);
    let r = choose|r: int| starts_at(m, ") will be"@, r);
    assert(starts_at(m, " will be"@, r + 1)) by {
        assert forall|k: int| 0 <= k < 8 implies m[r + 1 + k] == #[trigger] " will be"@[k] by {
            assert(m[r + 1 + k] == ") will be"@[k + 1]);
        }
    }
}

proof fn lemma_merge_shift(xs: Seq<Seq<char>>, ys: Seq<Seq<char>>, i: int, j: int)
    requires
        0 <= i <= xs.len(),
        0 <= j <= ys.len(),
        xs.len() - i == ys.len() - j,
        forall|k: int| 0 <= k < xs.len() - i ==> xs[i + k] == #[trigger] ys[j + k],
    ensures
        merge_broken(xs, i) == merge_broken(ys, j),
    decreases xs.len() - i,
{
    if i >= xs.len() {
    } else {
        assert(xs[i] == ys[j]) by {
            assert(xs[i + 0] == ys[j + 0]);
        }
        if i + 1 < xs.len() {
            assert(xs[i + 1] == ys[j + 1]);
        }
        assert forall|k: int| 0 <= k < xs.len() - (i + 1) implies xs[(i + 1) + k] == #[trigger] ys[
            (j + 1) + k
        ] by {
            assert(xs[i + (k + 1)] == ys[j + (k + 1)]);
        }
        if i + 2 <= xs.len() {
            assert forall|k: int| 0 <= k < xs.len() - (i + 2) implies xs[(i + 2) + k]
                == #[trigger] ys[(j + 2) + k] by {
                assert(xs[i + (k + 2)] == ys[j + (k + 2)]);
            }
            lemma_merge_shift(xs, ys, i + 2, j + 2);
        }
        lemma_merge_shift(xs, ys, i + 1, j + 1);
    }
}

proof fn lemma_merge_nonempty(ls: Seq<Seq<char>>, i: int)
    requires
        0 <= i < ls.len(),
    ensures
        merge_broken(ls, i).len() >= 1,
{
}

/// Repairing broken lines twice repairs them once: a merged line carries
/// the verb phrase and the header comment, so it can neither start nor
/// complete a further merge, and pairs the first pass declined are
/// declined again.
proof fn lemma_merge_idempotent_at(ls: Seq<Seq<char>>, i: int)
    requires
        0 <= i,
    ensures
        merge_broken(merge_broken(ls, i), 0) == merge_broken(ls, i),
    decreases ls.len() - i,
{
    if i >= ls.len() {
    } else if i + 1 < ls.len() && is_fragment_line(ls[i]) && is_completion_line(ls[i + 1]) {
        let m = trim_end_spec(ls[i]) + trim_spec(ls[i + 1]);
        let rest = merge_broken(ls, i + 2);
        let out = seq![m] + rest;
        assert(merge_broken(ls, i) == out);
        lemma_merged_line_closed(ls[i], ls[i + 1]);
        lemma_merge_idempotent_at(ls, i + 2);
        assert(forall|k: int| 0 <= k < out.len() - 1 ==> out[1 + k] == #[trigger] rest[0 + k]);
        lemma_merge_shift(out, rest, 1, 0);
        assert(merge_broken(out, 0) == seq![out[0]] + merge_broken(out, 1));
        assert(merge_broken(out, 0) =~~= out);
    } else {
        let rest = merge_broken(ls, i + 1);
        let out = seq![ls[i]] + rest;
        assert(merge_broken(ls, i) == out);
        lemma_merge_idempotent_at(ls, i + 1);
        assert(forall|k: int| 0 <= k < out.len() - 1 ==> out[1 + k] == #[trigger] rest[0 + k]);
        lemma_merge_shift(out, rest, 1, 0);
        // the declined pair stays declined: the next output line is either
        // the old neighbour or a merged line, which completes nothing
        if out.len() > 1 && is_fragment_line(out[0]) && is_completion_line(out[1]) {
            assert(i + 1 < ls.len());
            assert(out[1] == rest[0]);
            if i + 2 < ls.len() && is_fragment_line(ls[i + 1]) && is_completion_line(ls[i + 2]) {
                assert(rest[0] == trim_end_spec(ls[i + 1]) + trim_spec(ls[i + 2]));
                lemma_merged_line_closed(ls[i + 1], ls[i + 2]);
                assert(false);
            } else {
                assert(rest[0] == ls[i + 1]);
                assert(false);
            }
        }
        assert(merge_broken(out, 0) == seq![out[0]] + merge_broken(out, 1));
        assert(merge_broken(out, 0) =~~= out);
    }
}

proof fn lemma_split_no_nl(s: Seq<char>)
    ensures
        forall|i: int, k: int|
            0 <= i < split_nl(s).len() && 0 <= k < split_nl(s)[i].len() ==> #[trigger] split_nl(
                s,
            )[i][k] != '\n',
    decreases s.len(),
{
    if s.len() == 0 {
    } else if s[0] == '\n' {
        lemma_split_no_nl(s.drop_first());
        assert forall|i: int, k: int|
            0 <= i < split_nl(s).len() && 0 <= k < split_nl(s)[i].len() implies #[trigger] split_nl(
            s,
        )[i][k] != '\n' by {
            if i > 0 {
                assert(split_nl(s)[i] == split_nl(s.drop_first())[i - 1]);
            }
        }
    } else {
        lemma_split_no_nl(s.drop_first());
        crate::text::lemma_split_nl_len(s.drop_first());
        assert forall|i: int, k: int|
            0 <= i < split_nl(s).len() && 0 <= k < split_nl(s)[i].len() implies #[trigger] split_nl(
            s,
        )[i][k] != '\n' by {
            let rest = split_nl(s.drop_first());
            if i == 0 {
                assert(split_nl(s)[0] == seq![s[0]] + rest[0]);
                if k > 0 {
                    assert(split_nl(s)[0][k] == rest[0][k - 1]);
                }
            } else {
                assert(split_nl(s)[i] == rest.drop_first()[i - 1]);
                assert(rest.drop_first()[i - 1] == rest[i]);
            }
        }
    }
}

proof fn lemma_split_single(l: Seq<char>)
    requires
        forall|k: int| 0 <= k < l.len() ==> l[k] != '\n',
    ensures
        split_nl(l) == seq![l],
    decreases l.len(),
{
    if l.len() == 0 {
        assert(split_nl(l) =~~= seq![l]);
    } else {
        assert(forall|k: int| 0 <= k < l.drop_first().len() ==> #[trigger] l.drop_first()[k]
            != '\n');
        lemma_split_single(l.drop_first());
        let rest = split_nl(l.drop_first());
        assert(split_nl(l) == seq![seq![l[0]] + rest[0]] + rest.drop_first());
        assert(rest[0] == l.drop_first());
        assert(rest.drop_first() =~~= Seq::<Seq<char>>::empty());
        assert(seq![l[0]] + l.drop_first() =~= l);
        assert(split_nl(l) =~~= seq![l]);
    }
}

proof fn lemma_split_line_prefix(a: Seq<char>, t: Seq<char>)
    requires
        forall|k: int| 0 <= k < a.len() ==> a[k] != '\n',
    ensures
        split_nl(a + seq!['\n'] + t) == seq![a] + split_nl(t),
    decreases a.len(),
{
    let s = a + seq!['\n'] + t;
    if a.len() == 0 {
        assert(s[0] == '\n');
        assert(s.drop_first() =~= t);
        assert(split_nl(s) == seq![Seq::<char>::empty()] + split_nl(s.drop_first()));
        assert(a =~= Seq::<char>::empty());
        assert(split_nl(s) =~~= seq![a] + split_nl(t));
    } else {
        assert(forall|k: int| 0 <= k < a.drop_first().len() ==> #[trigger] a.drop_first()[k]
            != '\n');
        lemma_split_line_prefix(a.drop_first(), t);
        assert(s[0] == a[0]);
        assert(s[0] != '\n');
        assert(s.drop_first() =~= a.drop_first() + seq!['\n'] + t);
        let rest = split_nl(s.drop_first());
        assert(rest == seq![a.drop_first()] + split_nl(t));
        assert(rest[0] == a.drop_first());
        assert(split_nl(s) == seq![seq![s[0]] + rest[0]] + rest.drop_first());
        assert(seq![s[0]] + rest[0] =~= a);
        assert(rest.drop_first() =~~= split_nl(t));
        assert(split_nl(s) =~~= seq![a] + split_nl(t));
    }
}

/// Splitting is a left inverse of joining, for line sequences whose lines
/// hold no newline.
proof fn lemma_split_join_inverse(ls: Seq<Seq<char>>)
    requires
        ls.len() >= 1,
        forall|i: int, k: int|
            0 <= i < ls.len() && 0 <= k < ls[i].len() ==> #[trigger] ls[i][k] != '\n',
    ensures
        split_nl(join_nl(ls)) == ls,
    decreases ls.len(),
{
    if ls.len() == 1 {
        assert(join_nl(ls) == ls[0]);
        lemma_split_single(ls[0]);
        assert(split_nl(join_nl(ls)) =~~= ls);
    } else {
        let rest = ls.drop_first();
        assert(forall|i: int, k: int|
            0 <= i < rest.len() && 0 <= k < rest[i].len() ==> #[trigger] rest[i][k] != '\n');
        lemma_split_join_inverse(rest);
        assert(join_nl(ls) == ls[0] + seq!['\n'] + join_nl(rest));
        lemma_split_line_prefix(ls[0], join_nl(rest));
        assert(split_nl(join_nl(ls)) =~~= ls);
    }
}

proof fn lemma_trim_no_nl(l: Seq<char>)
    requires
        forall|k: int| 0 <= k < l.len() ==> l[k] != '\n',
    ensures
        forall|k: int| 0 <= k < trim_end_spec(l).len() ==> #[trigger] trim_end_spec(l)[k] != '\n',
        forall|k: int| 0 <= k < trim_spec(l).len() ==> #[trigger] trim_spec(l)[k] != '\n',
{
    crate::text::lemma_ws_back(l, l.len() as int);
    assert(forall|k: int|
        0 <= k < trim_end_spec(l).len() ==> #[trigger] trim_end_spec(l)[k] == l[k]);
    crate::text::lemma_ws_end(l, 0);
    let a = ws_end(l, 0);
    let tst = crate::text::trim_start_spec(l);
    assert(forall|k: int| 0 <= k < tst.len() ==> #[trigger] tst[k] == l[a + k]);
    crate::text::lemma_ws_back(tst, tst.len() as int);
    assert(forall|k: int| 0 <= k < trim_spec(l).len() ==> #[trigger] trim_spec(l)[k] == tst[k]);
}

proof fn lemma_merge_no_nl(ls: Seq<Seq<char>>, i: int)
    requires
        0 <= i,
        forall|m: int, k: int|
            0 <= m < ls.len() && 0 <= k < ls[m].len() ==> #[trigger] ls[m][k] != '\n',
    ensures
        forall|m: int, k: int|
            0 <= m < merge_broken(ls, i).len() && 0 <= k < merge_broken(ls, i)[m].len()
                ==> #[trigger] merge_broken(ls, i)[m][k] != '\n',
    decreases ls.len() - i,
{
    if i >= ls.len() {
    } else if i + 1 < ls.len() && is_fragment_line(ls[i]) && is_completion_line(ls[i + 1]) {
        lemma_merge_no_nl(ls, i + 2);
        lemma_trim_no_nl(ls[i]);
        lemma_trim_no_nl(ls[i + 1]);
        let m0 = trim_end_spec(ls[i]) + trim_spec(ls[i + 1]);
        assert forall|m: int, k: int|
            0 <= m < merge_broken(ls, i).len() && 0 <= k < merge_broken(ls, i)[m].len() implies
            #[trigger] merge_broken(ls, i)[m][k] != '\n' by {
            if m == 0 {
                assert(merge_broken(ls, i)[0] == m0);
                if k < trim_end_spec(ls[i]).len() {
                    assert(m0[k] == trim_end_spec(ls[i])[k]);
                } else {
                    assert(m0[k] == trim_spec(ls[i + 1])[k - trim_end_spec(ls[i]).len()]);
                }
            } else {
                assert(merge_broken(ls, i)[m] == merge_broken(ls, i + 2)[m - 1]);
            }
        }
    } else {
        lemma_merge_no_nl(ls, i + 1);
        assert forall|m: int, k: int|
            0 <= m < merge_broken(ls, i).len() && 0 <= k < merge_broken(ls, i)[m].len() implies
            #[trigger] merge_broken(ls, i)[m][k] != '\n' by {
            if m > 0 {
                assert(merge_broken(ls, i)[m] == merge_broken(ls, i + 1)[m - 1]);
            }
        }
    }
}

/// Broken-line repair is idempotent on every input.
pub proof fn lemma_fix_lines_idempotent(s: Seq<char>)
    ensures
        fix_lines(fix_lines(s)) == fix_lines(s),
{
    let ls = split_nl(s);
    let merged = merge_broken(ls, 0);
    crate::text::lemma_split_nl_len(s);
    lemma_merge_nonempty(ls, 0);
    lemma_split_no_nl(s);
    lemma_merge_no_nl(ls, 0);
    lemma_split_join_inverse(merged);
    lemma_merge_idempotent_at(ls, 0);
}

proof fn lemma_prefix_end_shift(x: Seq<char>, y: Seq<char>, i: int, j: int)
    requires
        0 <= i <= x.len(),
        0 <= j <= y.len(),
        x.len() - i == y.len() - j,
        forall|m: int| 0 <= m < x.len() - i ==> x[i + m] == #[trigger] y[j + m],
    ensures
        match prefix_end_at(x, i) {
            Some(e) => prefix_end_at(y, j) == Some(e - i + j),
            None => prefix_end_at(y, j) is None,
        },
{
    reveal_strlit("base14-");
    crate::text::lemma_starts_at_shift(x, y, i, j, 0, "base14-"@);
    if starts_at(x, "base14-"@, i) {
        crate::text::lemma_dash_ident_end_shift(x, y, i, j, 7);
        let e = dash_ident_end(x, i + 7);
        lemma_dash_ident_end(x, i + 7);
        if e > i + 7 {
            crate::text::lemma_ws_end_shift(x, y, i, j, e - i);
        }
    }
}

proof fn lemma_strip_loop_terminal(l: Seq<char>, i: int)
    requires
        0 <= i <= l.len(),
    ensures
        prefix_end_at(l, strip_prefix_loop(l, i)) is None,
        strip_prefix_loop(l, i) != i ==> (strip_prefix_loop(l, i) == l.len() || !is_space_char(
            l[strip_prefix_loop(l, i)],
        )),
    decreases l.len() - i,
{
    match prefix_end_at(l, i) {
        Some(e) => {
            lemma_prefix_end_at(l, i, e);
            lemma_strip_loop_terminal(l, e);
            if strip_prefix_loop(l, e) == e {
                reveal_strlit("base14-");
                lemma_dash_ident_end(l, i + 7);
                lemma_ws_end(l, dash_ident_end(l, i + 7));
            }
        },
        None => {},
    }
}

/// Stripping a line's injected prefixes twice strips them once.
proof fn lemma_prefix_line_idempotent(l: Seq<char>)
    ensures
        prefixes_clean_line(prefixes_clean_line(l)) == prefixes_clean_line(l),
{
    lemma_ws_end(l, 0);
    let a = ws_end(l, 0);
    lemma_strip_prefix_loop(l, a);
    let j = strip_prefix_loop(l, a);
    lemma_strip_loop_terminal(l, a);
    let cl = prefixes_clean_line(l);
    assert(cl == l.subrange(0, a) + l.subrange(j, l.len() as int));
    assert(cl.len() - a == l.len() - j);
    assert forall|m: int| 0 <= m < cl.len() - a implies cl[a + m] == #[trigger] l[j + m] by {
        assert(cl[a + m] == l.subrange(j, l.len() as int)[m]);
    }
    assert forall|k: int| 0 <= k < a implies is_space_char(cl[k]) by {
        assert(cl[k] == l.subrange(0, a)[k]);
    }
    if a < cl.len() {
        assert(cl[a] == l[j]);
        if j == a {
            assert(!is_space_char(l[a]));
        } else {
            assert(!is_space_char(l[j]));
        }
    }
    crate::text::lemma_ws_run(cl, 0, a);
    assert(ws_end(cl, 0) == a);
    lemma_prefix_end_shift(cl, l, a, j);
    assert(prefix_end_at(cl, a) is None);
    assert(strip_prefix_loop(cl, a) == a);
    assert(prefixes_clean_line(cl) == cl.subrange(0, a) + cl.subrange(a, cl.len() as int));
    assert(prefixes_clean_line(cl) =~= cl);
}

proof fn lemma_prefix_line_no_nl(l: Seq<char>)
    requires
        forall|k: int| 0 <= k < l.len() ==> l[k] != '\n',
    ensures
        forall|k: int|
            0 <= k < prefixes_clean_line(l).len() ==> #[trigger] prefixes_clean_line(l)[k] != '\n',
{
    lemma_ws_end(l, 0);
    let a = ws_end(l, 0);
    lemma_strip_prefix_loop(l, a);
    let j = strip_prefix_loop(l, a);
    assert forall|k: int| 0 <= k < prefixes_clean_line(l).len() implies #[trigger
    ] prefixes_clean_line(l)[k] != '\n' by {
        if k < a {
            assert(prefixes_clean_line(l)[k] == l.subrange(0, a)[k]);
        } else {
            assert(prefixes_clean_line(l)[k] == l.subrange(j, l.len() as int)[k - a]);
        }
    }
}

/// Injected-prefix stripping is idempotent on every input.
pub proof fn lemma_prefixes_clean_idempotent(s: Seq<char>)
    ensures
        prefixes_clean(prefixes_clean(s)) == prefixes_clean(s),
{
    let ls = split_nl(s);
    let mapped = prefixes_clean_lines(ls);
    crate::text::lemma_split_nl_len(s);
    lemma_split_no_nl(s);
    assert(mapped.len() >= 1);
    assert forall|i: int, k: int|
        0 <= i < mapped.len() && 0 <= k < mapped[i].len() implies #[trigger] mapped[i][k] != '\n'
        by {
        assert(mapped[i] == prefixes_clean_line(ls[i]));
        assert(forall|m: int| 0 <= m < ls[i].len() ==> #[trigger] ls[i][m] != '\n');
        lemma_prefix_line_no_nl(ls[i]);
    }
    lemma_split_join_inverse(mapped);
    assert forall|i: int| 0 <= i < mapped.len() implies #[trigger] prefixes_clean_lines(mapped)[i]
        == mapped[i] by {
        assert(prefixes_clean_lines(mapped)[i] == prefixes_clean_line(mapped[i]));
        assert(mapped[i] == prefixes_clean_line(ls[i]));
        lemma_prefix_line_idempotent(ls[i]);
    }
    assert(prefixes_clean_lines(mapped) =~~= mapped);
}

/// A pattern absent from the whole text is absent from each of its lines.
proof fn lemma_line_pattern_transfer(s: Seq<char>, i: int, p: Seq<char>)
    requires
        0 <= i < split_nl(s).len(),
        forall|q: int| !starts_at(s, p, q),
    ensures
        !seq_has(split_nl(s)[i], p),
{
    crate::text::lemma_split_line_is_piece(s, i);
    let line = split_nl(s)[i];
    if seq_has(line, p) {
        let q = choose|q: int| starts_at(line, p, q);
        let (o, e): (int, int) = choose|o: int, e: int|
            0 <= o <= e <= s.len() && e - o == line.len() && line == #[trigger] s.subrange(o, e);
        assert(starts_at(s, p, o + q)) by {
            assert forall|k: int| 0 <= k < p.len() implies s[o + q + k] == #[trigger] p[k] by {
                assert(line[q + k] == p[k]);
                assert(line[q + k] == s.subrange(o, e)[q + k]);
            }
        }
        assert(false);
    }
}

proof fn lemma_merge_inert(ls: Seq<Seq<char>>, i: int)
    requires
        0 <= i <= ls.len(),
        forall|k: int| 0 <= k < ls.len() ==> !is_fragment_line(#[trigger] ls[k]),
    ensures
        merge_broken(ls, i) == ls.skip(i),
    decreases ls.len() - i,
{
    if i >= ls.len() {
        assert(merge_broken(ls, i) =~~= ls.skip(i));
    } else {
        lemma_merge_inert(ls, i + 1);
        assert(!is_fragment_line(ls[i]));
        assert(merge_broken(ls, i) == seq![ls[i]] + merge_broken(ls, i + 1));
        assert(seq![ls[i]] + ls.skip(i + 1) =~~= ls.skip(i));
    }
}

proof fn lemma_prefix_line_inert(l: Seq<char>)
    requires
        forall|q: int| !starts_at(l, "base14-"@, q),
    ensures
        prefixes_clean_line(l) == l,
{
    lemma_ws_end(l, 0);
    let a = ws_end(l, 0);
    assert(prefix_end_at(l, a) is None);
    assert(strip_prefix_loop(l, a) == a);
    assert(prefixes_clean_line(l) =~= l);
}

/// Normalization is idempotent. Each stage is idempotent on every input
/// taken alone (the per-stage lemmas above). For the pipeline as a whole
/// the property is stated for inputs in which no stage's pattern can
/// emerge from another stage's rewriting: text free of control sequences,
/// spinner glyphs, carriage returns, injected prefixes and header comments
/// is left unchanged, so normalizing it again changes nothing.
pub proof fn lemma_clean_input_idempotent(s: Seq<char>)
    requires
        forall|k: int| 0 <= k < s.len() ==> s[k] != '\u{1b}',
        forall|k: int| 0 <= k < s.len() ==> !is_spinner_char(#[trigger] s[k]),
        forall|k: int| 0 <= k < s.len() ==> s[k] != '\r',
        forall|q: int| !starts_at(s, "base14-"@, q),
        forall|q: int| !starts_at(s, "# aws_"@, q),
    ensures
        clean_input_spec(s) == s,
        clean_input_spec(clean_input_spec(s)) == clean_input_spec(s),
{
    lemma_strip_ansi_identity(s, 0);
    assert(ansi_clean(s) =~= s);
    lemma_spinner_clean_identity(s, 0);
    assert(spinner_clean(s) =~= s);
    crate::text::lemma_split_nl_len(s);
    assert forall|k: int| 0 <= k < split_nl(s).len() implies !is_fragment_line(
        #[trigger] split_nl(s)[k],
    ) by {
        lemma_line_pattern_transfer(s, k, "# aws_"@);
    }
    lemma_merge_inert(split_nl(s), 0);
    assert(split_nl(s).skip(0) =~~= split_nl(s));
    crate::text::lemma_join_split(s);
    assert(fix_lines(s) == s);
    assert forall|i: int| 0 <= i < split_nl(s).len() implies #[trigger] prefixes_clean_lines(
        split_nl(s),
    )[i] == split_nl(s)[i] by {
        lemma_line_pattern_transfer(s, i, "base14-"@);
        assert(!seq_has(split_nl(s)[i], "base14-"@));
        assert(forall|q: int| !starts_at(split_nl(s)[i], "base14-"@, q));
        lemma_prefix_line_inert(split_nl(s)[i]);
    }
    assert(prefixes_clean_lines(split_nl(s)) =~~= split_nl(s));
    assert(prefixes_clean(s) == s);
    assert forall|q: int| !starts_at(s, "base14-cd"@, q) by {
        if starts_at(s, "base14-cd"@, q) {
            reveal_strlit("base14-cd");
            reveal_strlit("base14-");
            assert(starts_at(s, "base14-"@, q)) by {
                assert forall|k: int| 0 <= k < 7 implies s[q + k] == #[trigger] "base14-"@[k] by {
                    assert(s[q + k] == "base14-cd"@[k]);
                }
            }
        }
    }
    lemma_cdk_identity(s, 0);
    assert(cdk_clean(s) =~= s);
    lemma_newline_norm_identity(s, 0);
    assert(newline_norm(s) =~= s);
}

/// Normalize a raw transcript. Total: every input yields a cleaned text.
pub fn clean_input(input: &str) -> (r: Result<String, TfdiffError>)
    ensures
        r is Ok,
        r->Ok_0@ == clean_input_spec(input@),
{
    let a = clean_ansi_codes(input);
    let b = clean_spinner_chars(a.as_str());
    let c = fix_broken_lines(b.as_str());
    let d = clean_prefixes(c.as_str());
    let e = clean_cdk_prefixes(d.as_str());
    let v = char_seq(e.as_str());
    let n = normalize_endings_chars(&v);
    Ok(chars_to_string(&n))
}

} // verus!
