//! Run-mode detection and summary extraction: the first line carrying a
//! summary marker decides the mode, and the counts are captured from the
//! plan or apply summary pattern on that line.

use vstd::prelude::*;

use crate::models::Metadata;
use crate::models::PlanMode;
use crate::models::Summary;
use crate::models::TerraformPlan;
use crate::models::TfdiffError;
use crate::parser::cleaner::clean_input;
use crate::parser::cleaner::clean_input_spec;
use crate::parser::diff::parse_resource_changes_core;
use crate::parser::diff::resources_model;
use crate::parser::diff::resources_spec;
use crate::text::split_newlines;
use crate::text::split_nl;
use crate::text::char_seq;
use crate::text::count_of_digits;
use crate::text::digit_end;
use crate::text::digits_to_count;
use crate::text::find_at;
use crate::text::has_pat;
use crate::text::lemma_digit_end;
use crate::text::lemma_digits_val_nonneg;
use crate::text::lemma_find_at_some;
use crate::text::scan_digits;
use crate::text::scan_ws;
use crate::text::seq_has;
use crate::text::starts_at;
use crate::text::starts_with_at;
use crate::text::ws_end;

verus! {

pub open spec fn line_has_plan(l: Seq<char>) -> bool {
    seq_has(l, "Plan:"@)
}

pub open spec fn line_has_apply(l: Seq<char>) -> bool {
    seq_has(l, "Apply complete!"@)
}

// ---------------------------------------------------------------------------
// mode detection
// ---------------------------------------------------------------------------

/// The mode announced by the first line from `i` on that carries a summary
/// marker; a line carrying both counts as a plan. No marker means `Plan`.
pub open spec fn detect_mode_spec(ls: Seq<Seq<char>>, i: int) -> PlanMode
    decreases ls.len() - i,
{
    if i < 0 || i >= ls.len() {
        PlanMode::Plan
    } else if line_has_plan(ls[i]) {
        PlanMode::Plan
    } else if line_has_apply(ls[i]) {
        PlanMode::Apply
    } else {
        detect_mode_spec(ls, i + 1)
    }
}

/// Classify a line sequence held as character vectors.
pub fn detect_mode_core(lines: &Vec<Vec<char>>) -> (r: PlanMode)
    ensures
        r == detect_mode_spec(lines.deep_view(), 0),
{
    let p_plan = char_seq("Plan:");
    let p_apply = char_seq("Apply complete!");
    let n = lines.len();
    let mut i: usize = 0;
    while i < n
        invariant
            i <= n,
            n == lines.deep_view().len(),
            p_plan@ == "Plan:"@,
            p_apply@ == "Apply complete!"@,
            detect_mode_spec(lines.deep_view(), 0) == detect_mode_spec(lines.deep_view(), i as int),
        decreases n - i,
    {
        proof {
            crate::text::lemma_deep_charvec(lines@[i as int]);
        }
        if has_pat(&lines[i], &p_plan) {
            return PlanMode::Plan;
        }
        if has_pat(&lines[i], &p_apply) {
            return PlanMode::Apply;
        }
        i = i + 1;
    }
    PlanMode::Plan
}

/// Classify the transcript as a dry-run plan or a completed apply. Total:
/// always succeeds, defaulting to `Plan` when no marker line exists.
pub fn detect_mode(lines: &[&str]) -> (r: Result<PlanMode, TfdiffError>)
    ensures
        r == Ok::<PlanMode, TfdiffError>(detect_mode_spec(lines.deep_view(), 0)),
{
    let ls = crate::text::to_char_lines(lines);
    Ok(detect_mode_core(&ls))
}

// ---------------------------------------------------------------------------
// summary extraction
// ---------------------------------------------------------------------------

/// Attempt the plan numeric pattern with the marker at `i`: `Plan:`, then
/// three digit runs separated by `to add,` / `to change,` / `to destroy`,
/// with flexible whitespace. Yields the three captured digit runs' bounds.
pub open spec fn plan_nums_at(l: Seq<char>, i: int) -> Option<(int, int, int, int, int, int)> {
    let a0 = ws_end(l, i + 5);
    let a1 = digit_end(l, a0);
    if a1 > a0 {
        let b0 = ws_end(l, a1);
        if starts_at(l, "to add,"@, b0) {
            let c0 = ws_end(l, b0 + 7);
            let c1 = digit_end(l, c0);
            if c1 > c0 {
                let d0 = ws_end(l, c1);
                if starts_at(l, "to change,"@, d0) {
                    let e0 = ws_end(l, d0 + 10);
                    let e1 = digit_end(l, e0);
                    if e1 > e0 {
                        let f0 = ws_end(l, e1);
                        if starts_at(l, "to destroy"@, f0) {
                            Some((a0, a1, c0, c1, e0, e1))
                        } else {
                            None
                        }
                    } else {
                        None
                    }
                } else {
                    None
                }
            } else {
                None
            }
        } else {
            None
        }
    } else {
        None
    }
}

/// The first `Plan:` occurrence at or after `i` whose tail matches the
/// numeric pattern.
pub open spec fn plan_match_from(l: Seq<char>, i: int) -> Option<(int, int, int, int, int, int)>
    decreases l.len() - i,
    via plan_match_from_decreases
{
    match find_at(l, "Plan:"@, i) {
        Some(j) => match plan_nums_at(l, j) {
            Some(t) => Some(t),
            None => plan_match_from(l, j + 1),
        },
        None => None,
    }
}

#[via_fn]
proof fn plan_match_from_decreases(l: Seq<char>, i: int) {
    reveal_strlit("Plan:");
    match find_at(l, "Plan:"@, i) {
        Some(j) => {
            lemma_find_at_some(l, "Plan:"@, i, j);
        },
        None => {},
    }
}

/// The counts captured from a line by the plan pattern: the three digit
/// runs read as counts, and zero for the read field; an unmatched line
/// yields the all-zero summary.
pub open spec fn plan_summary_of(l: Seq<char>) -> Summary {
    match plan_match_from(l, 0) {
        Some(t) => Summary {
            add: count_of_digits(l.subrange(t.0, t.1)) as usize,
            change: count_of_digits(l.subrange(t.2, t.3)) as usize,
            destroy: count_of_digits(l.subrange(t.4, t.5)) as usize,
            read: 0usize,
        },
        None => Summary { add: 0usize, change: 0usize, destroy: 0usize, read: 0usize },
    }
}

/// Attempt the apply numeric pattern with the marker at `i`:
/// `Apply complete!`, `Resources:`, then three digit runs followed by
/// `added,` / `changed,` / `destroyed`.
pub open spec fn apply_nums_at(l: Seq<char>, i: int) -> Option<(int, int, int, int, int, int)> {
    let r0 = ws_end(l, i + 15);
    if starts_at(l, "Resources:"@, r0) {
        let a0 = ws_end(l, r0 + 10);
        let a1 = digit_end(l, a0);
        if a1 > a0 {
            let b0 = ws_end(l, a1);
            if starts_at(l, "added,"@, b0) {
                let c0 = ws_end(l, b0 + 6);
                let c1 = digit_end(l, c0);
                if c1 > c0 {
                    let d0 = ws_end(l, c1);
                    if starts_at(l, "changed,"@, d0) {
                        let e0 = ws_end(l, d0 + 8);
                        let e1 = digit_end(l, e0);
                        if e1 > e0 {
                            let f0 = ws_end(l, e1);
                            if starts_at(l, "destroyed"@, f0) {
                                Some((a0, a1, c0, c1, e0, e1))
                            } else {
                                None
                            }
                        } else {
                            None
                        }
                    } else {
                        None
                    }
                } else {
                    None
                }
            } else {
                None
            }
        } else {
            None
        }
    } else {
        None
    }
}

/// The first `Apply complete!` occurrence at or after `i` whose tail
/// matches the numeric pattern.
pub open spec fn apply_match_from(l: Seq<char>, i: int) -> Option<(int, int, int, int, int, int)>
    decreases l.len() - i,
    via apply_match_from_decreases
{
    match find_at(l, "Apply complete!"@, i) {
        Some(j) => match apply_nums_at(l, j) {
            Some(t) => Some(t),
            None => apply_match_from(l, j + 1),
        },
        None => None,
    }
}

#[via_fn]
proof fn apply_match_from_decreases(l: Seq<char>, i: int) {
    reveal_strlit("Apply complete!");
    match find_at(l, "Apply complete!"@, i) {
        Some(j) => {
            lemma_find_at_some(l, "Apply complete!"@, i, j);
        },
        None => {},
    }
}

/// The counts captured from a line by the apply pattern.
pub open spec fn apply_summary_of(l: Seq<char>) -> Summary {
    match apply_match_from(l, 0) {
        Some(t) => Summary {
            add: count_of_digits(l.subrange(t.0, t.1)) as usize,
            change: count_of_digits(l.subrange(t.2, t.3)) as usize,
            destroy: count_of_digits(l.subrange(t.4, t.5)) as usize,
            read: 0usize,
        },
        None => Summary { add: 0usize, change: 0usize, destroy: 0usize, read: 0usize },
    }
}

/// Read one captured digit run as a count.
fn capture_count(l: &Vec<char>, a: usize, b: usize) -> (r: usize)
    requires
        a <= b <= l@.len(),
        digit_end(l@, a as int) == b,
    ensures
        r == count_of_digits(l@.subrange(a as int, b as int)),
{
    proof {
        lemma_digit_end(l@, a as int);
    }
    digits_to_count(l, a, b)
}

/// Attempt the plan numeric pattern with the marker at `j`.
fn plan_nums_exec(l: &Vec<char>, j: usize) -> (r: Option<(usize, usize, usize)>)
    requires
        j + 5 <= l@.len(),
    ensures
        match r {
            Some(t) => {
                &&& plan_nums_at(l@, j as int) is Some
                &&& {
                    let b = plan_nums_at(l@, j as int)->Some_0;
                    &&& t.0 == count_of_digits(l@.subrange(b.0, b.1))
                    &&& t.1 == count_of_digits(l@.subrange(b.2, b.3))
                    &&& t.2 == count_of_digits(l@.subrange(b.4, b.5))
                }
            },
            None => plan_nums_at(l@, j as int) is None,
        },
{
    let n = l.len();
    let p_add = char_seq("to add,");
    let p_change = char_seq("to change,");
    let p_destroy = char_seq("to destroy");
    proof {
        assert(j + 5 <= n);
    }
    let a0 = scan_ws(l, j + 5);
    let a1 = scan_digits(l, a0);
    if !(a1 > a0) {
        return None;
    }
    let b0 = scan_ws(l, a1);
    if !starts_with_at(l, &p_add, b0) {
        return None;
    }
    proof {
        reveal_strlit("to add,");
        assert(p_add@.len() == 7);
        assert(b0 + 7 <= n);
    }
    let c0 = scan_ws(l, b0 + 7);
    let c1 = scan_digits(l, c0);
    if !(c1 > c0) {
        return None;
    }
    let d0 = scan_ws(l, c1);
    if !starts_with_at(l, &p_change, d0) {
        return None;
    }
    proof {
        reveal_strlit("to change,");
        assert(p_change@.len() == 10);
        assert(d0 + 10 <= n);
    }
    let e0 = scan_ws(l, d0 + 10);
    let e1 = scan_digits(l, e0);
    if !(e1 > e0) {
        return None;
    }
    let f0 = scan_ws(l, e1);
    if !starts_with_at(l, &p_destroy, f0) {
        return None;
    }
    let va = capture_count(l, a0, a1);
    let vc = capture_count(l, c0, c1);
    let vd = capture_count(l, e0, e1);
    Some((va, vc, vd))
}

/// Attempt the apply numeric pattern with the marker at `j`.
fn apply_nums_exec(l: &Vec<char>, j: usize) -> (r: Option<(usize, usize, usize)>)
    requires
        j + 15 <= l@.len(),
    ensures
        match r {
            Some(t) => {
                &&& apply_nums_at(l@, j as int) is Some
                &&& {
                    let b = apply_nums_at(l@, j as int)->Some_0;
                    &&& t.0 == count_of_digits(l@.subrange(b.0, b.1))
                    &&& t.1 == count_of_digits(l@.subrange(b.2, b.3))
                    &&& t.2 == count_of_digits(l@.subrange(b.4, b.5))
                }
            },
            None => apply_nums_at(l@, j as int) is None,
        },
{
    let n = l.len();
    let p_res = char_seq("Resources:");
    let p_add = char_seq("added,");
    let p_change = char_seq("changed,");
    let p_destroy = char_seq("destroyed");
    proof {
        assert(j + 15 <= n);
    }
    let r0 = scan_ws(l, j + 15);
    if !starts_with_at(l, &p_res, r0) {
        return None;
    }
    proof {
        reveal_strlit("Resources:");
        assert(p_res@.len() == 10);
        assert(r0 + 10 <= n);
    }
    let a0 = scan_ws(l, r0 + 10);
    let a1 = scan_digits(l, a0);
    if !(a1 > a0) {
        return None;
    }
    let b0 = scan_ws(l, a1);
    if !starts_with_at(l, &p_add, b0) {
        return None;
    }
    proof {
        reveal_strlit("added,");
        assert(p_add@.len() == 6);
        assert(b0 + 6 <= n);
    }
    let c0 = scan_ws(l, b0 + 6);
    let c1 = scan_digits(l, c0);
    if !(c1 > c0) {
        return None;
    }
    let d0 = scan_ws(l, c1);
    if !starts_with_at(l, &p_change, d0) {
        return None;
    }
    proof {
        reveal_strlit("changed,");
        assert(p_change@.len() == 8);
        assert(d0 + 8 <= n);
    }
    let e0 = scan_ws(l, d0 + 8);
    let e1 = scan_digits(l, e0);
    if !(e1 > e0) {
        return None;
    }
    let f0 = scan_ws(l, e1);
    if !starts_with_at(l, &p_destroy, f0) {
        return None;
    }
    let va = capture_count(l, a0, a1);
    let vc = capture_count(l, c0, c1);
    let vd = capture_count(l, e0, e1);
    Some((va, vc, vd))
}

/// Capture the plan-form counts from one line.
fn parse_plan_summary(l: &Vec<char>) -> (r: Summary)
    ensures
        r == plan_summary_of(l@),
{
    let n = l.len();
    let p_plan = char_seq("Plan:");
    let mut i: usize = 0;
    loop
        invariant
            n == l@.len(),
            p_plan@ == "Plan:"@,
            plan_match_from(l@, 0) == plan_match_from(l@, i as int),
        decreases l@.len() + 1 - i,
    {
        match crate::text::find_pat_from(l, &p_plan, i) {
            Some(j) => {
                proof {
                    reveal_strlit("Plan:");
                    assert(p_plan@.len() == 5);
                }
                match plan_nums_exec(l, j) {
                    Some(t) => {
                        return Summary { add: t.0, change: t.1, destroy: t.2, read: 0 };
                    },
                    None => {
                        proof {
                            assert(j + 5 <= n);
                        }
                        i = j + 1;
                    },
                }
            },
            None => {
                return Summary { add: 0, change: 0, destroy: 0, read: 0 };
            },
        }
    }
}

/// Capture the apply-form counts from one line.
fn parse_apply_summary(l: &Vec<char>) -> (r: Summary)
    ensures
        r == apply_summary_of(l@),
{
    let n = l.len();
    let p_apply = char_seq("Apply complete!");
    let mut i: usize = 0;
    loop
        invariant
            n == l@.len(),
            p_apply@ == "Apply complete!"@,
            apply_match_from(l@, 0) == apply_match_from(l@, i as int),
        decreases l@.len() + 1 - i,
    {
        match crate::text::find_pat_from(l, &p_apply, i) {
            Some(j) => {
                proof {
                    reveal_strlit("Apply complete!");
                    assert(p_apply@.len() == 15);
                }
                match apply_nums_exec(l, j) {
                    Some(t) => {
                        return Summary { add: t.0, change: t.1, destroy: t.2, read: 0 };
                    },
                    None => {
                        proof {
                            assert(j + 15 <= n);
                        }
                        i = j + 1;
                    },
                }
            },
            None => {
                return Summary { add: 0, change: 0, destroy: 0, read: 0 };
            },
        }
    }
}

/// The summary recovered from the first line carrying a marker; all-zero
/// when no line matches either pattern.
pub open spec fn extract_summary_spec(ls: Seq<Seq<char>>, i: int) -> Summary
    decreases ls.len() - i,
{
    if i < 0 || i >= ls.len() {
        Summary { add: 0usize, change: 0usize, destroy: 0usize, read: 0usize }
    } else if line_has_plan(ls[i]) {
        plan_summary_of(ls[i])
    } else if line_has_apply(ls[i]) {
        apply_summary_of(ls[i])
    } else {
        extract_summary_spec(ls, i + 1)
    }
}

/// Recover the counts from a line sequence held as character vectors.
pub fn extract_summary_core(lines: &Vec<Vec<char>>) -> (r: Summary)
    ensures
        r == extract_summary_spec(lines.deep_view(), 0),
{
    let p_plan = char_seq("Plan:");
    let p_apply = char_seq("Apply complete!");
    let n = lines.len();
    let mut i: usize = 0;
    while i < n
        invariant
            i <= n,
            n == lines.deep_view().len(),
            p_plan@ == "Plan:"@,
            p_apply@ == "Apply complete!"@,
            extract_summary_spec(lines.deep_view(), 0) == extract_summary_spec(
                lines.deep_view(),
                i as int,
            ),
        decreases n - i,
    {
        proof {
            crate::text::lemma_deep_charvec(lines@[i as int]);
        }
        if has_pat(&lines[i], &p_plan) {
            return parse_plan_summary(&lines[i]);
        }
        if has_pat(&lines[i], &p_apply) {
            return parse_apply_summary(&lines[i]);
        }
        i = i + 1;
    }
    Summary { add: 0, change: 0, destroy: 0, read: 0 }
}

/// Recover the aggregate counts from the first summary line. Total: always
/// succeeds, yielding the all-zero summary when nothing matches.
pub fn extract_summary(lines: &[&str]) -> (r: Result<Summary, TfdiffError>)
    ensures
        r == Ok::<Summary, TfdiffError>(extract_summary_spec(lines.deep_view(), 0)),
{
    let ls = crate::text::to_char_lines(lines);
    Ok(extract_summary_core(&ls))
}

// ---------------------------------------------------------------------------
// laws
// ---------------------------------------------------------------------------

/// Plan summary fidelity: for any three digit runs whose values fit the
/// machine word, the literal line `Plan: {a} to add, {c} to change, {d} to
/// destroy.` yields exactly those values, with the read count zero.
#[verifier::rlimit(100)]
pub proof fn lemma_plan_summary_fidelity(a: Seq<char>, c: Seq<char>, d: Seq<char>)
    requires
        a.len() > 0,
        c.len() > 0,
        d.len() > 0,
        forall|k: int| 0 <= k < a.len() ==> crate::text::is_digit_char(#[trigger] a[k]),
        forall|k: int| 0 <= k < c.len() ==> crate::text::is_digit_char(#[trigger] c[k]),
        forall|k: int| 0 <= k < d.len() ==> crate::text::is_digit_char(#[trigger] d[k]),
        crate::text::digits_val(a) <= usize::MAX,
        crate::text::digits_val(c) <= usize::MAX,
        crate::text::digits_val(d) <= usize::MAX,
    ensures
        plan_summary_of(
            "Plan: "@ + a + " to add, "@ + c + " to change, "@ + d + " to destroy."@,
        ) == (Summary {
            add: crate::text::digits_val(a) as usize,
            change: crate::text::digits_val(c) as usize,
            destroy: crate::text::digits_val(d) as usize,
            read: 0usize,
        }),
{
    reveal_strlit("Plan: ");
    reveal_strlit("Plan:");
    reveal_strlit(" to add, ");
    reveal_strlit("to add,");
    reveal_strlit(" to change, ");
    reveal_strlit("to change,");
    reveal_strlit(" to destroy.");
    reveal_strlit("to destroy");
    let l = "Plan: "@ + a + " to add, "@ + c + " to change, "@ + d + " to destroy."@;
    let na = a.len() as int;
    let nc = c.len() as int;
    let nd = d.len() as int;
    let o2 = 6 + na;
    let o3 = o2 + 9;
    let o4 = o3 + nc;
    let o5 = o4 + 12;
    let o6 = o5 + nd;
    assert(l.len() == o6 + 12);
    assert forall|k: int| 0 <= k < 6 implies l[k] == "Plan: "@[k] by {}
    assert forall|k: int| 0 <= k < na implies l[6 + k] == a[k] by {}
    assert forall|k: int| 0 <= k < 9 implies l[o2 + k] == " to add, "@[k] by {}
    assert forall|k: int| 0 <= k < nc implies l[o3 + k] == c[k] by {}
    assert forall|k: int| 0 <= k < 12 implies l[o4 + k] == " to change, "@[k] by {}
    assert forall|k: int| 0 <= k < nd implies l[o5 + k] == d[k] by {}
    assert forall|k: int| 0 <= k < 12 implies l[o6 + k] == " to destroy."@[k] by {}
    // the marker at the start of the line
    assert(starts_at(l, "Plan:"@, 0));
    assert(find_at(l, "Plan:"@, 0) == Some(0int));
    // the three captured digit runs, each delimited by known characters
    crate::text::lemma_ws_run(l, 5, 6);
    crate::text::lemma_digit_run(l, 6, o2);
    crate::text::lemma_ws_run(l, o2, o2 + 1);
    assert(starts_at(l, "to add,"@, o2 + 1));
    crate::text::lemma_ws_run(l, o2 + 8, o3);
    crate::text::lemma_digit_run(l, o3, o4);
    crate::text::lemma_ws_run(l, o4, o4 + 1);
    assert(starts_at(l, "to change,"@, o4 + 1));
    crate::text::lemma_ws_run(l, o4 + 11, o5);
    crate::text::lemma_digit_run(l, o5, o6);
    crate::text::lemma_ws_run(l, o6, o6 + 1);
    assert(starts_at(l, "to destroy"@, o6 + 1));
    assert(plan_nums_at(l, 0) == Some((6int, o2, o3, o4, o5, o6)));
    assert(plan_match_from(l, 0) == Some((6int, o2, o3, o4, o5, o6)));
    // the captured runs are the given digit sequences
    assert(l.subrange(6, o2) =~= a);
    assert(l.subrange(o3, o4) =~= c);
    assert(l.subrange(o5, o6) =~= d);
    crate::text::lemma_digits_val_nonneg(a);
    crate::text::lemma_digits_val_nonneg(c);
    crate::text::lemma_digits_val_nonneg(d);
}

/// Apply summary fidelity: for any three digit runs whose values fit the
/// machine word, the literal line `Apply complete! Resources: {a} added,
/// {c} changed, {d} destroyed.` yields exactly those values.
#[verifier::rlimit(100)]
pub proof fn lemma_apply_summary_fidelity(a: Seq<char>, c: Seq<char>, d: Seq<char>)
    requires
        a.len() > 0,
        c.len() > 0,
        d.len() > 0,
        forall|k: int| 0 <= k < a.len() ==> crate::text::is_digit_char(#[trigger] a[k]),
        forall|k: int| 0 <= k < c.len() ==> crate::text::is_digit_char(#[trigger] c[k]),
        forall|k: int| 0 <= k < d.len() ==> crate::text::is_digit_char(#[trigger] d[k]),
        crate::text::digits_val(a) <= usize::MAX,
        crate::text::digits_val(c) <= usize::MAX,
        crate::text::digits_val(d) <= usize::MAX,
    ensures
        apply_summary_of(
            "Apply complete! Resources: "@ + a + " added, "@ + c + " changed, "@ + d
                + " destroyed."@,
        ) == (Summary {
            add: crate::text::digits_val(a) as usize,
            change: crate::text::digits_val(c) as usize,
            destroy: crate::text::digits_val(d) as usize,
            read: 0usize,
        }),
{
    reveal_strlit("Apply complete! Resources: ");
    reveal_strlit("Apply complete!");
    reveal_strlit("Resources:");
    reveal_strlit(" added, ");
    reveal_strlit("added,");
    reveal_strlit(" changed, ");
    reveal_strlit("changed,");
    reveal_strlit(" destroyed.");
    reveal_strlit("destroyed");
    let l = "Apply complete! Resources: "@ + a + " added, "@ + c + " changed, "@ + d
        + " destroyed."@;
    let na = a.len() as int;
    let nc = c.len() as int;
    let nd = d.len() as int;
    let o1: int = 27;
    let o2 = o1 + na;
    let o3 = o2 + 8;
    let o4 = o3 + nc;
    let o5 = o4 + 10;
    let o6 = o5 + nd;
    assert(l.len() == o6 + 11);
    assert forall|k: int| 0 <= k < 27 implies l[k] == "Apply complete! Resources: "@[k] by {}
    assert forall|k: int| 0 <= k < na implies l[o1 + k] == a[k] by {}
    assert forall|k: int| 0 <= k < 8 implies l[o2 + k] == " added, "@[k] by {}
    assert forall|k: int| 0 <= k < nc implies l[o3 + k] == c[k] by {}
    assert forall|k: int| 0 <= k < 10 implies l[o4 + k] == " changed, "@[k] by {}
    assert forall|k: int| 0 <= k < nd implies l[o5 + k] == d[k] by {}
    assert forall|k: int| 0 <= k < 11 implies l[o6 + k] == " destroyed."@[k] by {}
    assert(starts_at(l, "Apply complete!"@, 0));
    assert(find_at(l, "Apply complete!"@, 0) == Some(0int));
    // `Apply complete!` is 15 characters; position 15 is the space before
    // `Resources:`, which ends at 26, and the space at 26 precedes the run
    crate::text::lemma_ws_run(l, 15, 16);
    assert(starts_at(l, "Resources:"@, 16));
    crate::text::lemma_ws_run(l, 26, o1);
    crate::text::lemma_digit_run(l, o1, o2);
    crate::text::lemma_ws_run(l, o2, o2 + 1);
    assert(starts_at(l, "added,"@, o2 + 1));
    crate::text::lemma_ws_run(l, o2 + 7, o3);
    crate::text::lemma_digit_run(l, o3, o4);
    crate::text::lemma_ws_run(l, o4, o4 + 1);
    assert(starts_at(l, "changed,"@, o4 + 1));
    crate::text::lemma_ws_run(l, o4 + 9, o5);
    crate::text::lemma_digit_run(l, o5, o6);
    crate::text::lemma_ws_run(l, o6, o6 + 1);
    assert(starts_at(l, "destroyed"@, o6 + 1));
    assert(apply_nums_at(l, 0) == Some((o1, o2, o3, o4, o5, o6)));
    assert(apply_match_from(l, 0) == Some((o1, o2, o3, o4, o5, o6)));
    assert(l.subrange(o1, o2) =~= a);
    assert(l.subrange(o3, o4) =~= c);
    assert(l.subrange(o5, o6) =~= d);
    crate::text::lemma_digits_val_nonneg(a);
    crate::text::lemma_digits_val_nonneg(c);
    crate::text::lemma_digits_val_nonneg(d);
}

// ---------------------------------------------------------------------------
// the whole pipeline
// ---------------------------------------------------------------------------

/// The normalized transcript as a line sequence.
pub open spec fn cleaned_lines(s: Seq<char>) -> Seq<Seq<char>> {
    split_nl(clean_input_spec(s))
}

/// Parse a raw transcript into a plan: normalize, detect the mode, extract
/// the summary, and scan the resource blocks. Total: every input yields a
/// plan, with no data sources or warnings and empty metadata; the parser
/// never marks a resource applied.
pub fn parse_terraform_output(input: &str) -> (r: Result<TerraformPlan, TfdiffError>)
    ensures
        r is Ok,
        ({
            let plan = r->Ok_0;
            let ls = cleaned_lines(input@);
            &&& plan.mode == detect_mode_spec(ls, 0)
            &&& plan.summary == extract_summary_spec(ls, 0)
            &&& resources_model(plan.resources) == resources_spec(ls)
            &&& plan.data_sources@.len() == 0
            &&& plan.warnings@.len() == 0
            &&& plan.metadata.terraform_version is None
            &&& plan.metadata.timestamp is None
            &&& plan.metadata.duration is None
        }),
{
    let cleaned = match clean_input(input) {
        Ok(c) => c,
        Err(e) => {
            proof {
                assert(false);
            }
            return Err(e);
        },
    };
    let v = crate::text::char_seq(cleaned.as_str());
    let ls = split_newlines(&v);
    let mode = detect_mode_core(&ls);
    let summary = extract_summary_core(&ls);
    let resources = parse_resource_changes_core(&ls);
    Ok(
        TerraformPlan {
            mode,
            summary,
            resources,
            data_sources: Vec::new(),
            warnings: Vec::new(),
            metadata: Metadata::default(),
        },
    )
}

} // verus!
