//! The resource block state machine: recognizes resource action headers,
//! tracks block boundaries by brace depth, and hands the lines inside a
//! block to the attribute parser matching the resource's action.

use vstd::prelude::*;
use vstd::string::StringExecFns;

use crate::models::ActionType;
use crate::models::Change;
use crate::models::ChangeModel;
use crate::models::Resource;
use crate::models::ResourceModel;
use crate::models::TfValue;
use crate::models::VModel;
use crate::models::attrs_model;
use crate::models::change_model;
use crate::models::changes_model;
use crate::models::resource_model;
use crate::models::value_model;
use crate::parser::value::coerce_spec;
use crate::parser::value::parse_terraform_value;
use crate::text::char_seq;
use crate::text::chars_to_string;
use crate::text::find_at;
use crate::text::find_pat_from;
use crate::text::name_end;
use crate::text::scan_name_chars;
use crate::text::scan_type_chars;
use crate::text::scan_ws;
use crate::text::seq_has;
use crate::text::has_pat;
use crate::text::starts_at;
use crate::text::starts_with_at;
use crate::text::subvec;
use crate::text::append_vec;
use crate::text::trim_spec;
use crate::text::trim_start_spec;
use crate::text::trim_vec;
use crate::text::type_end;
use crate::text::ws_end;

verus! {

// ---------------------------------------------------------------------------
// resource action headers
// ---------------------------------------------------------------------------

/// Attempt a header match with the comment mark at `i`: `#`, whitespace, a
/// type token, `.`, a name token, whitespace, then either the verb phrase
/// or a parenthetical annotation followed by the verb phrase. Yields the
/// bounds of the type and name tokens.
pub open spec fn header_try_at(l: Seq<char>, i: int, verb: Seq<char>) -> Option<
    (int, int, int, int),
> {
    if 0 <= i < l.len() && l[i] == '#' {
        let w = ws_end(l, i + 1);
        if w > i + 1 {
            let t1 = type_end(l, w);
            if t1 > w && t1 < l.len() && l[t1] == '.' {
                let n1 = name_end(l, t1 + 1);
                if n1 > t1 + 1 {
                    let w2 = ws_end(l, n1);
                    if w2 > n1 {
                        if starts_at(l, verb, w2) {
                            Some((w, t1, t1 + 1, n1))
                        } else if w2 < l.len() && l[w2] == '(' {
                            match find_at(l, seq![')'], w2 + 1) {
                                Some(p) => {
                                    let w3 = ws_end(l, p + 1);
                                    if w3 > p + 1 && starts_at(l, verb, w3) {
                                        Some((w, t1, t1 + 1, n1))
                                    } else {
                                        None
                                    }
                                },
                                None => None,
                            }
                        } else {
                            None
                        }
                    } else {
                        None
                    }
                } else {
                    None
                }
            } else {
                None
            }
        } else {
            None
        }
    } else {
        None
    }
}

/// The first position at or after `i` where the header pattern matches.
pub open spec fn header_find(l: Seq<char>, i: int, verb: Seq<char>) -> Option<(int, int, int, int)>
    decreases l.len() - i,
{
    if i < 0 || i >= l.len() {
        None
    } else if header_try_at(l, i, verb) is Some {
        header_try_at(l, i, verb)
    } else {
        header_find(l, i + 1, verb)
    }
}

/// The action, type token and name token announced by a header line, if
/// any; the created, updated and destroyed verbs are tried in that order.
pub open spec fn header_spec(l: Seq<char>) -> Option<(ActionType, Seq<char>, Seq<char>)> {
    match header_find(l, 0, "will be created"@) {
        Some(b) => Some((ActionType::Create, l.subrange(b.0, b.1), l.subrange(b.2, b.3))),
        None => match header_find(l, 0, "will be updated"@) {
            Some(b) => Some((ActionType::Update, l.subrange(b.0, b.1), l.subrange(b.2, b.3))),
            None => match header_find(l, 0, "will be destroyed"@) {
                Some(b) => Some((ActionType::Destroy, l.subrange(b.0, b.1), l.subrange(b.2, b.3))),
                None => None,
            },
        },
    }
}

/// The provider token of a resource type: the text before the first
/// underscore, or `unknown` when there is none or it is empty.
pub open spec fn provider_of(t: Seq<char>) -> Seq<char> {
    match find_at(t, seq!['_'], 0) {
        Some(k) => if k > 0 {
            t.subrange(0, k)
        } else {
            "unknown"@
        },
        None => "unknown"@,
    }
}

/// A freshly opened resource: identity `type.name`, provider derived from
/// the type, no changes or attributes yet, not applied.
pub open spec fn new_resource_model(a: ActionType, ty: Seq<char>, nm: Seq<char>) -> ResourceModel {
    ResourceModel {
        id: ty + seq!['.'] + nm,
        name: nm,
        res_type: ty,
        provider: provider_of(ty),
        action: a,
        changes: Seq::empty(),
        attributes: Seq::empty(),
        applied: false,
    }
}

fn header_try_exec(l: &Vec<char>, i: usize, verb: &Vec<char>, close: &Vec<char>) -> (r: Option<
    (usize, usize, usize, usize),
>)
    requires
        i < l@.len(),
        close@ == seq![')'],
    ensures
        match r {
            Some(b) => {
                &&& header_try_at(l@, i as int, verb@) == Some(
                    (b.0 as int, b.1 as int, b.2 as int, b.3 as int),
                )
                &&& b.0 <= b.1 <= l@.len()
                &&& b.2 <= b.3 <= l@.len()
            },
            None => header_try_at(l@, i as int, verb@) is None,
        },
{
    let n = l.len();
    if l[i] != '#' {
        return None;
    }
    let w = scan_ws(l, i + 1);
    if !(w > i + 1) {
        return None;
    }
    let t1 = scan_type_chars(l, w);
    if !(t1 > w && t1 < n) {
        return None;
    }
    if l[t1] != '.' {
        return None;
    }
    let n1 = scan_name_chars(l, t1 + 1);
    if !(n1 > t1 + 1) {
        return None;
    }
    let w2 = scan_ws(l, n1);
    if !(w2 > n1) {
        return None;
    }
    if starts_with_at(l, verb, w2) {
        return Some((w, t1, t1 + 1, n1));
    }
    if w2 < n && l[w2] == '(' {
        match find_pat_from(l, close, w2 + 1) {
            Some(p) => {
                proof {
                    assert(p + 1 <= l@.len());
                }
                let w3 = scan_ws(l, p + 1);
                if w3 > p + 1 && starts_with_at(l, verb, w3) {
                    Some((w, t1, t1 + 1, n1))
                } else {
                    None
                }
            },
            None => None,
        }
    } else {
        None
    }
}

fn header_find_exec(l: &Vec<char>, verb: &Vec<char>) -> (r: Option<(usize, usize, usize, usize)>)
    ensures
        match r {
            Some(b) => {
                &&& header_find(l@, 0, verb@) == Some(
                    (b.0 as int, b.1 as int, b.2 as int, b.3 as int),
                )
                &&& b.0 <= b.1 <= l@.len()
                &&& b.2 <= b.3 <= l@.len()
            },
            None => header_find(l@, 0, verb@) is None,
        },
{
    let close = char_seq(")");
    proof {
        reveal_strlit(")");
        assert(close@ =~= seq![')']);
    }
    let n = l.len();
    let mut i: usize = 0;
    while i < n
        invariant
            i <= n,
            n == l@.len(),
            close@ == seq![')'],
            header_find(l@, 0, verb@) == header_find(l@, i as int, verb@),
        decreases n - i,
    {
        match header_try_exec(l, i, verb, &close) {
            Some(b) => {
                return Some(b);
            },
            None => {
                i = i + 1;
            },
        }
    }
    None
}

/// Derive the provider from a type token.
fn provider_exec(ty: &Vec<char>) -> (r: String)
    ensures
        r@ == provider_of(ty@),
{
    let mut us: Vec<char> = Vec::new();
    us.push('_');
    proof {
        assert(us@ =~= seq!['_']);
    }
    match find_pat_from(ty, &us, 0) {
        Some(k) => {
            if k > 0 {
                let p = subvec(ty, 0, k);
                chars_to_string(&p)
            } else {
                String::from_str("unknown")
            }
        },
        None => String::from_str("unknown"),
    }
}

/// Build the fresh resource a header announces from the captured type and
/// name token bounds.
fn create_resource_from_captures(
    l: &Vec<char>,
    b: (usize, usize, usize, usize),
    action: ActionType,
) -> (r: Resource)
    requires
        b.0 <= b.1 <= l@.len(),
        b.2 <= b.3 <= l@.len(),
    ensures
        resource_model(r) == new_resource_model(
            action,
            l@.subrange(b.0 as int, b.1 as int),
            l@.subrange(b.2 as int, b.3 as int),
        ),
{
    let ty = subvec(l, b.0, b.1);
    let nm = subvec(l, b.2, b.3);
    let provider = provider_exec(&ty);
    let mut idv = subvec(l, b.0, b.1);
    idv.push('.');
    append_vec(&mut idv, &nm);
    proof {
        assert(idv@ =~= ty@ + seq!['.'] + nm@);
    }
    let r = Resource {
        id: chars_to_string(&idv),
        name: chars_to_string(&nm),
        res_type: chars_to_string(&ty),
        provider,
        action,
        changes: Vec::new(),
        attributes: Vec::new(),
        applied: false,
    };
    proof {
        assert(changes_model(r.changes) =~= Seq::<ChangeModel>::empty());
        assert(attrs_model(r.attributes) =~= Seq::<(Seq<char>, VModel)>::empty());
    }
    r
}

/// Recognize a resource action header anywhere in the line and open the
/// announced resource.
fn parse_resource_action_line(l: &Vec<char>) -> (r: Option<Resource>)
    ensures
        match r {
            Some(res) => {
                &&& header_spec(l@) is Some
                &&& resource_model(res) == new_resource_model(
                    header_spec(l@)->Some_0.0,
                    header_spec(l@)->Some_0.1,
                    header_spec(l@)->Some_0.2,
                )
            },
            None => header_spec(l@) is None,
        },
{
    let v_created = char_seq("will be created");
    let v_updated = char_seq("will be updated");
    let v_destroyed = char_seq("will be destroyed");
    match header_find_exec(l, &v_created) {
        Some(b) => {
            return Some(create_resource_from_captures(l, b, ActionType::Create));
        },
        None => {},
    }
    match header_find_exec(l, &v_updated) {
        Some(b) => {
            return Some(create_resource_from_captures(l, b, ActionType::Update));
        },
        None => {},
    }
    match header_find_exec(l, &v_destroyed) {
        Some(b) => {
            return Some(create_resource_from_captures(l, b, ActionType::Destroy));
        },
        None => {},
    }
    None
}

// ---------------------------------------------------------------------------
// flat attribute lines (create, destroy, read)
// ---------------------------------------------------------------------------

/// The leading change marker of a trimmed attribute line, if any.
pub open spec fn flat_marker(t: Seq<char>) -> Option<char> {
    if t.len() > 0 && (t[0] == '~' || t[0] == '+' || t[0] == '-') {
        Some(t[0])
    } else {
        None
    }
}

/// The line after the marker and the whitespace that follows it.
pub open spec fn flat_rest(t: Seq<char>) -> Seq<char> {
    match flat_marker(t) {
        Some(m) => t.subrange(ws_end(t, 1), t.len() as int),
        None => t,
    }
}

/// The display prefix a marker contributes to a surviving raw value.
pub open spec fn marker_text(m: Option<char>) -> Seq<char> {
    match m {
        Some(c) => if c == '+' {
            "+ "@
        } else if c == '-' {
            "- "@
        } else {
            "~ "@
        },
        None => Seq::empty(),
    }
}

/// Parse one trimmed line inside a create, destroy or read block into a
/// flat attribute entry. An arrow collapses to the display text
/// `old → new`; a line carrying the `(known after apply)` sentinel records
/// that literal; otherwise the marker is prefixed onto the raw value.
pub open spec fn flat_attr_spec(t: Seq<char>) -> Option<(Seq<char>, VModel)> {
    let m = flat_marker(t);
    let rest = flat_rest(t);
    match find_at(rest, seq!['='], 0) {
        Some(e) => if e >= 1 {
            let name = trim_spec(rest.subrange(0, e));
            let after = rest.subrange(e + 1, rest.len() as int);
            let arrow = find_at(after, "->"@, 0);
            if arrow is Some && trim_spec(after.subrange(0, arrow->Some_0)).len() > 0 && trim_spec(
                after.subrange(arrow->Some_0 + 2, after.len() as int),
            ).len() > 0 {
                Some(
                    (
                        name,
                        VModel::Str(
                            trim_spec(after.subrange(0, arrow->Some_0)) + " → "@ + trim_spec(
                                after.subrange(arrow->Some_0 + 2, after.len() as int),
                            ),
                        ),
                    ),
                )
            } else if seq_has(t, "(known after apply)"@) {
                Some((name, VModel::Str("(known after apply)"@)))
            } else if trim_spec(after).len() > 0 {
                Some((name, VModel::Str(marker_text(m) + trim_spec(after))))
            } else {
                None
            }
        } else {
            None
        },
        None => None,
    }
}

/// Parse one trimmed flat attribute line.
fn parse_attribute_change(t: &Vec<char>) -> (r: Option<(String, TfValue)>)
    ensures
        match r {
            Some(kv) => flat_attr_spec(t@) == Some((kv.0@, value_model(kv.1))),
            None => flat_attr_spec(t@) is None,
        },
{
    let n = t.len();
    let marked = n > 0 && (t[0] == '~' || t[0] == '+' || t[0] == '-');
    let rest = if marked {
        let a = scan_ws(t, 1);
        subvec(t, a, n)
    } else {
        subvec(t, 0, n)
    };
    proof {
        assert(rest@ =~= flat_rest(t@));
    }
    let mut eqpat: Vec<char> = Vec::new();
    eqpat.push('=');
    proof {
        assert(eqpat@ =~= seq!['=']);
    }
    let e = match find_pat_from(&rest, &eqpat, 0) {
        Some(e) => e,
        None => {
            return None;
        },
    };
    if e < 1 {
        return None;
    }
    let namev = trim_vec(&subvec(&rest, 0, e));
    let after = subvec(&rest, e + 1, rest.len());
    let p_arrow = char_seq("->");
    let arrow = find_pat_from(&after, &p_arrow, 0);
    match arrow {
        Some(a) => {
            proof {
                reveal_strlit("->");
                assert(p_arrow@.len() == 2);
            }
            let oldv = trim_vec(&subvec(&after, 0, a));
            let newv = trim_vec(&subvec(&after, a + 2, after.len()));
            if oldv.len() > 0 && newv.len() > 0 {
                let mut valv = oldv;
                let mid = char_seq(" → ");
                append_vec(&mut valv, &mid);
                append_vec(&mut valv, &newv);
                return Some((chars_to_string(&namev), TfValue::Str(chars_to_string(&valv))));
            }
            sentinel_or_simple(t, &rest, &namev, &after, marked)
        },
        None => sentinel_or_simple(t, &rest, &namev, &after, marked),
    }
}

/// The sentinel and plain branches of flat attribute parsing, shared by
/// the arrow-failure paths.
fn sentinel_or_simple(
    t: &Vec<char>,
    rest: &Vec<char>,
    namev: &Vec<char>,
    after: &Vec<char>,
    marked: bool,
) -> (r: Option<(String, TfValue)>)
    requires
        rest@ == flat_rest(t@),
        find_at(rest@, seq!['='], 0) is Some,
        find_at(rest@, seq!['='], 0)->Some_0 >= 1,
        namev@ == trim_spec(rest@.subrange(0, find_at(rest@, seq!['='], 0)->Some_0)),
        after@ == rest@.subrange(find_at(rest@, seq!['='], 0)->Some_0 + 1, rest@.len() as int),
        !({
            let arrow = find_at(after@, "->"@, 0);
            arrow is Some && trim_spec(after@.subrange(0, arrow->Some_0)).len() > 0 && trim_spec(
                after@.subrange(arrow->Some_0 + 2, after@.len() as int),
            ).len() > 0
        }),
        marked == (t@.len() > 0 && (t@[0] == '~' || t@[0] == '+' || t@[0] == '-')),
    ensures
        match r {
            Some(kv) => flat_attr_spec(t@) == Some((kv.0@, value_model(kv.1))),
            None => flat_attr_spec(t@) is None,
        },
{
    let p_known = char_seq("(known after apply)");
    if has_pat(t, &p_known) {
        return Some((chars_to_string(namev), TfValue::Str(chars_to_string(&p_known))));
    }
    let val = trim_vec(after);
    if val.len() == 0 {
        return None;
    }
    let mut out: Vec<char> = Vec::new();
    if marked {
        let c = t[0];
        out.push(c);
        out.push(' ');
        proof {
            reveal_strlit("+ ");
            reveal_strlit("- ");
            reveal_strlit("~ ");
            assert(out@ =~= marker_text(flat_marker(t@)));
        }
    } else {
        proof {
            assert(out@ =~= marker_text(flat_marker(t@)));
        }
    }
    append_vec(&mut out, &val);
    Some((chars_to_string(namev), TfValue::Str(chars_to_string(&out))))
}

// ---------------------------------------------------------------------------
// update change lines
// ---------------------------------------------------------------------------

/// The strict two-character marker of an update line.
pub open spec fn update_marker(t: Seq<char>) -> Option<char> {
    if t.len() >= 2 && t[1] == ' ' && (t[0] == '~' || t[0] == '+' || t[0] == '-') {
        Some(t[0])
    } else {
        None
    }
}

/// Parse one trimmed line inside an update block into a change record.
/// Marked lines yield arrow modifications, additions or removals, with
/// both sides coerced; an unmarked line carrying the `(known after apply)`
/// sentinel with no arrow yields a computed change; anything else is
/// unchanged context and ignored.
pub open spec fn update_change_spec(t: Seq<char>) -> Option<ChangeModel> {
    if t.len() == 0 || t[0] == '#' || t == "{"@ || t == "}"@ {
        None
    } else {
        match update_marker(t) {
            Some(m) => {
                let rest = t.subrange(2, t.len() as int);
                if seq_has(rest, " -> "@) && seq_has(rest, " = "@) {
                    match find_at(rest, " = "@, 0) {
                        Some(e) => {
                            let name = trim_spec(rest.subrange(0, e));
                            let values = rest.subrange(e + 3, rest.len() as int);
                            match find_at(values, " -> "@, 0) {
                                Some(a) => Some(
                                    ChangeModel {
                                        path: seq![name],
                                        before: Some(coerce_spec(values.subrange(0, a))),
                                        after: Some(
                                            coerce_spec(
                                                values.subrange(a + 4, values.len() as int),
                                            ),
                                        ),
                                        sensitive: false,
                                        computed: false,
                                    },
                                ),
                                None => None,
                            }
                        },
                        None => None,
                    }
                } else if m == '+' && seq_has(rest, " = "@) {
                    match find_at(rest, " = "@, 0) {
                        Some(e) => {
                            let value = trim_spec(rest.subrange(e + 3, rest.len() as int));
                            Some(
                                ChangeModel {
                                    path: seq![trim_spec(rest.subrange(0, e))],
                                    before: None,
                                    after: Some(coerce_spec(value)),
                                    sensitive: false,
                                    computed: value == "(known after apply)"@,
                                },
                            )
                        },
                        None => None,
                    }
                } else if m == '-' && seq_has(rest, " = "@) {
                    match find_at(rest, " = "@, 0) {
                        Some(e) => Some(
                            ChangeModel {
                                path: seq![trim_spec(rest.subrange(0, e))],
                                before: Some(
                                    coerce_spec(trim_spec(rest.subrange(e + 3, rest.len() as int))),
                                ),
                                after: None,
                                sensitive: false,
                                computed: false,
                            },
                        ),
                        None => None,
                    }
                } else {
                    None
                }
            },
            None => {
                if seq_has(t, "(known after apply)"@) && !seq_has(t, " -> "@) {
                    let path = match find_at(t, " = "@, 0) {
                        Some(e) => seq![trim_spec(t.subrange(0, e))],
                        None => Seq::<Seq<char>>::empty(),
                    };
                    Some(
                        ChangeModel {
                            path,
                            before: None,
                            after: None,
                            sensitive: false,
                            computed: true,
                        },
                    )
                } else {
                    None
                }
            },
        }
    }
}

/// Build a one-segment path.
fn path_one(namev: &Vec<char>) -> (r: Vec<String>)
    ensures
        r.deep_view() == seq![namev@],
{
    let mut r: Vec<String> = Vec::new();
    r.push(chars_to_string(namev));
    proof {
        assert(r.deep_view() =~= seq![namev@]);
    }
    r
}

/// Parse one trimmed update line.
fn parse_update_change(t: &Vec<char>) -> (r: Option<Change>)
    ensures
        match r {
            Some(c) => update_change_spec(t@) == Some(change_model(c)),
            None => update_change_spec(t@) is None,
        },
{
    let n = t.len();
    let p_open = char_seq("{");
    let p_close = char_seq("}");
    if n == 0 || t[0] == '#' || crate::parser::value::eq_pat(t, &p_open) || crate::parser::value::eq_pat(
        t,
        &p_close,
    ) {
        return None;
    }
    let p_arrow = char_seq(" -> ");
    let p_eq = char_seq(" = ");
    let p_known = char_seq("(known after apply)");
    let has_marker = n >= 2 && t[1] == ' ' && (t[0] == '~' || t[0] == '+' || t[0] == '-');
    if !has_marker {
        if has_pat(t, &p_known) && !has_pat(t, &p_arrow) {
            let path = match find_pat_from(t, &p_eq, 0) {
                Some(e) => {
                    proof {
                        reveal_strlit(" = ");
                    }
                    path_one(&trim_vec(&subvec(t, 0, e)))
                },
                None => {
                    let empty_path: Vec<String> = Vec::new();
                    proof {
                        assert(empty_path.deep_view() =~= Seq::<Seq<char>>::empty());
                    }
                    empty_path
                },
            };
            return Some(
                Change { path, before: None, after: None, sensitive: false, computed: true },
            );
        }
        return None;
    }
    let m = t[0];
    let rest = subvec(t, 2, n);
    proof {
        assert(rest@ =~= t@.subrange(2, t@.len() as int));
    }
    if has_pat(&rest, &p_arrow) && has_pat(&rest, &p_eq) {
        let e = match find_pat_from(&rest, &p_eq, 0) {
            Some(e) => e,
            None => {
                proof {
                    crate::text::lemma_find_at_none(rest@, " = "@, 0);
                }
                return None;
            },
        };
        proof {
            reveal_strlit(" = ");
            assert(p_eq@.len() == 3);
        }
        let namev = trim_vec(&subvec(&rest, 0, e));
        let values = subvec(&rest, e + 3, rest.len());
        match find_pat_from(&values, &p_arrow, 0) {
            Some(a) => {
                proof {
                    reveal_strlit(" -> ");
                    assert(p_arrow@.len() == 4);
                }
                let oldraw = subvec(&values, 0, a);
                let newraw = subvec(&values, a + 4, values.len());
                let before = parse_terraform_value(&oldraw);
                let after = parse_terraform_value(&newraw);
                return Some(
                    Change {
                        path: path_one(&namev),
                        before: Some(before),
                        after: Some(after),
                        sensitive: false,
                        computed: false,
                    },
                );
            },
            None => {
                return None;
            },
        }
    }
    if (m == '+' || m == '-') && has_pat(&rest, &p_eq) {
        let e = match find_pat_from(&rest, &p_eq, 0) {
            Some(e) => e,
            None => {
                proof {
                    crate::text::lemma_find_at_none(rest@, " = "@, 0);
                }
                return None;
            },
        };
        proof {
            reveal_strlit(" = ");
            assert(p_eq@.len() == 3);
        }
        let namev = trim_vec(&subvec(&rest, 0, e));
        let valv = trim_vec(&subvec(&rest, e + 3, rest.len()));
        let value = parse_terraform_value(&valv);
        if m == '+' {
            let computed = crate::parser::value::eq_pat(&valv, &p_known);
            return Some(
                Change {
                    path: path_one(&namev),
                    before: None,
                    after: Some(value),
                    sensitive: false,
                    computed,
                },
            );
        } else {
            return Some(
                Change {
                    path: path_one(&namev),
                    before: Some(value),
                    after: None,
                    sensitive: false,
                    computed: false,
                },
            );
        }
    }
    None
}

// ---------------------------------------------------------------------------
// the state machine
// ---------------------------------------------------------------------------

/// Track brace depth across one line: `{` deepens, `}` shallows, and a
/// closing brace at depth one or on a balanced line exits the block
/// (`None`). The depth saturates at the machine word, far beyond any
/// input that fits in memory.
pub open spec fn brace_scan(t: Seq<char>, i: int, d: int) -> Option<int>
    decreases t.len() - i,
{
    if i < 0 || i >= t.len() {
        Some(d)
    } else if t[i] == '{' {
        brace_scan(t, i + 1, if d < usize::MAX { d + 1 } else { d })
    } else if t[i] == '}' {
        if d <= 1 {
            None
        } else {
            brace_scan(t, i + 1, d - 1)
        }
    } else {
        brace_scan(t, i + 1, d)
    }
}

fn brace_scan_exec(t: &Vec<char>, d0: usize) -> (r: Option<usize>)
    ensures
        match r {
            Some(d2) => brace_scan(t@, 0, d0 as int) == Some(d2 as int),
            None => brace_scan(t@, 0, d0 as int) is None,
        },
{
    let n = t.len();
    let mut i: usize = 0;
    let mut d = d0;
    while i < n
        invariant
            i <= n,
            n == t@.len(),
            brace_scan(t@, 0, d0 as int) == brace_scan(t@, i as int, d as int),
        decreases n - i,
    {
        let c = t[i];
        if c == '{' {
            if d < usize::MAX {
                d = d + 1;
            }
        } else if c == '}' {
            if d <= 1 {
                return None;
            }
            d = d - 1;
        }
        i = i + 1;
    }
    Some(d)
}

/// A line that opens a resource declaration body.
pub open spec fn is_block_start(t: Seq<char>) -> bool {
    starts_at(t, "+ resource"@, 0) || starts_at(t, "~ resource"@, 0) || starts_at(
        t,
        "- resource"@,
        0,
    )
}

/// Insert into an attribute list keyed by name: an existing key keeps its
/// position and takes the new value, a new key is appended.
pub open spec fn attrs_insert(
    attrs: Seq<(Seq<char>, VModel)>,
    k: Seq<char>,
    v: VModel,
) -> Seq<(Seq<char>, VModel)>
    decreases attrs.len(),
{
    if attrs.len() == 0 {
        seq![(k, v)]
    } else if attrs[0].0 == k {
        seq![(k, v)] + attrs.drop_first()
    } else {
        seq![attrs[0]] + attrs_insert(attrs.drop_first(), k, v)
    }
}

proof fn lemma_attrs_insert_found(attrs: Seq<(Seq<char>, VModel)>, k: Seq<char>, v: VModel, j: int)
    requires
        0 <= j < attrs.len(),
        attrs[j].0 == k,
        forall|m: int| 0 <= m < j ==> attrs[m].0 != k,
    ensures
        attrs_insert(attrs, k, v) =~= attrs.update(j, (k, v)),
    decreases attrs.len(),
{
    if j == 0 {
        assert(attrs_insert(attrs, k, v) =~= seq![(k, v)] + attrs.drop_first());
        assert(seq![(k, v)] + attrs.drop_first() =~= attrs.update(0, (k, v)));
    } else {
        assert(attrs[0].0 != k);
        lemma_attrs_insert_found(attrs.drop_first(), k, v, j - 1);
        assert(attrs.drop_first().update(j - 1, (k, v)) =~= attrs.update(j, (k, v)).drop_first());
        assert(attrs_insert(attrs, k, v) =~= seq![attrs[0]] + attrs_insert(
            attrs.drop_first(),
            k,
            v,
        ));
    }
}

proof fn lemma_attrs_insert_absent(attrs: Seq<(Seq<char>, VModel)>, k: Seq<char>, v: VModel)
    requires
        forall|m: int| 0 <= m < attrs.len() ==> attrs[m].0 != k,
    ensures
        attrs_insert(attrs, k, v) =~= attrs.push((k, v)),
    decreases attrs.len(),
{
    if attrs.len() == 0 {
    } else {
        lemma_attrs_insert_absent(attrs.drop_first(), k, v);
        assert(attrs.drop_first().push((k, v)) =~= attrs.push((k, v)).drop_first());
    }
}

fn attrs_insert_exec(attrs: &mut Vec<(String, TfValue)>, k: String, v: TfValue)
    ensures
        attrs_model(*final(attrs)) == attrs_insert(attrs_model(*old(attrs)), k@, value_model(v)),
{
    let n = attrs.len();
    let mut j: usize = 0;
    while j < n
        invariant
            j <= n,
            n == attrs@.len(),
            *attrs == *old(attrs),
            forall|m: int| 0 <= m < j ==> attrs_model(*attrs)[m].0 != k@,
        decreases n - j,
    {
        if attrs[j].0 == k {
            proof {
                assert(attrs_model(*attrs)[j as int].0 == k@);
                lemma_attrs_insert_found(attrs_model(*attrs), k@, value_model(v), j as int);
            }
            let ghost before = attrs_model(*attrs);
            let _ = attrs.remove(j);
            attrs.insert(j, (k, v));
            proof {
                assert(attrs@ =~= old(attrs)@.update(j as int, (k, v)));
                assert(attrs_model(*attrs) =~= before.update(j as int, (k@, value_model(v))));
            }
            return ;
        }
        proof {
            assert(attrs_model(*attrs)[j as int].0 == attrs@[j as int].0@);
        }
        j = j + 1;
    }
    proof {
        lemma_attrs_insert_absent(attrs_model(*attrs), k@, value_model(v));
    }
    let ghost before = attrs_model(*attrs);
    attrs.push((k, v));
    proof {
        assert(attrs_model(*attrs) =~= before.push((k@, value_model(v))));
    }
}

/// Ghost state of the scan: the resource being built, the brace depth when
/// inside its declaration body, and the finished resources in source
/// order.
pub struct MachineModel {
    pub cur: Option<ResourceModel>,
    pub depth: Option<int>,
    pub done: Seq<ResourceModel>,
}

/// One step of the scan, as described by the header, block start, and
/// brace rules; only the top-level lines of a block (depth one) feed the
/// attribute parser, and nested lines are consumed silently.
pub open spec fn machine_step(st: MachineModel, line: Seq<char>) -> MachineModel {
    let t = trim_spec(line);
    match header_spec(line) {
        Some(h) => MachineModel {
            done: st.done + (match st.cur {
                Some(r) => seq![r],
                None => Seq::empty(),
            }),
            cur: Some(new_resource_model(h.0, h.1, h.2)),
            depth: None,
        },
        None => {
            if st.cur is Some && is_block_start(t) {
                MachineModel { depth: brace_scan(t, 0, 0), ..st }
            } else if st.cur is Some && st.depth is Some {
                let d = st.depth->Some_0;
                let r = st.cur->Some_0;
                match brace_scan(t, 0, d) {
                    None => MachineModel { depth: None, ..st },
                    Some(d2) => {
                        let r2 = if d == 1 {
                            if r.action == ActionType::Update {
                                match update_change_spec(t) {
                                    Some(c) => ResourceModel { changes: r.changes.push(c), ..r },
                                    None => r,
                                }
                            } else {
                                match flat_attr_spec(t) {
                                    Some(kv) => ResourceModel {
                                        attributes: attrs_insert(r.attributes, kv.0, kv.1),
                                        ..r
                                    },
                                    None => r,
                                }
                            }
                        } else {
                            r
                        };
                        MachineModel { cur: Some(r2), depth: Some(d2), done: st.done }
                    },
                }
            } else {
                st
            }
        },
    }
}

/// The state after the first `i` lines.
pub open spec fn run_lines(ls: Seq<Seq<char>>, i: int) -> MachineModel
    decreases i,
{
    if i <= 0 {
        MachineModel { cur: None, depth: None, done: Seq::empty() }
    } else {
        machine_step(run_lines(ls, i - 1), ls[i - 1])
    }
}

/// The resources emitted for a line sequence: those closed during the
/// scan, with the resource still being built flushed at the end.
pub open spec fn resources_spec(ls: Seq<Seq<char>>) -> Seq<ResourceModel> {
    let st = run_lines(ls, ls.len() as int);
    st.done + (match st.cur {
        Some(r) => seq![r],
        None => Seq::empty(),
    })
}

pub open spec fn opt_resource_model(c: Option<Resource>) -> Option<ResourceModel> {
    match c {
        Some(r) => Some(resource_model(r)),
        None => None,
    }
}

pub open spec fn opt_depth_model(d: Option<usize>) -> Option<int> {
    match d {
        Some(x) => Some(x as int),
        None => None,
    }
}

/// Ghost model of a finished resource list.
pub open spec fn resources_model(v: Vec<Resource>) -> Seq<ResourceModel> {
    Seq::new(v.len() as nat, |i: int| resource_model(v[i]))
}

/// Scan a line sequence held as character vectors.
pub fn parse_resource_changes_core(lines: &Vec<Vec<char>>) -> (r: Vec<Resource>)
    ensures
        resources_model(r) == resources_spec(lines.deep_view()),
{
    let ghost dv = lines.deep_view();
    let p_plus = char_seq("+ resource");
    let p_tilde = char_seq("~ resource");
    let p_minus = char_seq("- resource");
    let n = lines.len();
    let mut cur: Option<Resource> = None;
    let mut depth: Option<usize> = None;
    let mut done: Vec<Resource> = Vec::new();
    proof {
        assert(resources_model(done) =~= Seq::<ResourceModel>::empty());
    }
    let mut i: usize = 0;
    while i < n
        invariant
            i <= n,
            n == dv.len(),
            dv == lines.deep_view(),
            p_plus@ == "+ resource"@,
            p_tilde@ == "~ resource"@,
            p_minus@ == "- resource"@,
            opt_resource_model(cur) == run_lines(dv, i as int).cur,
            opt_depth_model(depth) == run_lines(dv, i as int).depth,
            resources_model(done) == run_lines(dv, i as int).done,
        decreases n - i,
    {
        let ghost st = run_lines(dv, i as int);
        let ghost st2 = machine_step(st, dv[i as int]);
        proof {
            assert(run_lines(dv, i + 1) == st2);
        }
        proof {
            crate::text::lemma_deep_charvec(lines@[i as int]);
        }
        let t = trim_vec(&lines[i]);
        match parse_resource_action_line(&lines[i]) {
            Some(res) => {
                let ghost old_done = resources_model(done);
                match cur {
                    Some(c) => {
                        done.push(c);
                        proof {
                            assert(resources_model(done) =~= old_done.push(resource_model(c)));
                            assert(old_done.push(resource_model(c)) =~= st.done + seq![
                                resource_model(c)
                            ]);
                        }
                    },
                    None => {
                        proof {
                            assert(st.done + Seq::<ResourceModel>::empty() =~= st.done);
                        }
                    },
                }
                cur = Some(res);
                depth = None;
            },
            None => {
                let is_start = starts_with_at(&t, &p_plus, 0) || starts_with_at(&t, &p_tilde, 0)
                    || starts_with_at(&t, &p_minus, 0);
                if cur.is_some() && is_start {
                    depth = brace_scan_exec(&t, 0);
                } else if cur.is_some() && depth.is_some() {
                    let d = depth.unwrap();
                    match brace_scan_exec(&t, d) {
                        None => {
                            depth = None;
                        },
                        Some(d2) => {
                            if d == 1 {
                                let mut resv = cur.unwrap();
                                let ghost rm = resource_model(resv);
                                if resv.action == ActionType::Update {
                                    match parse_update_change(&t) {
                                        Some(c) => {
                                            let ghost old_ch = changes_model(resv.changes);
                                            let ghost cm = change_model(c);
                                            resv.changes.push(c);
                                            proof {
                                                assert(changes_model(resv.changes) =~= old_ch.push(
                                                    cm,
                                                ));
                                            }
                                        },
                                        None => {},
                                    }
                                } else {
                                    match parse_attribute_change(&t) {
                                        Some(kv) => {
                                            attrs_insert_exec(&mut resv.attributes, kv.0, kv.1);
                                        },
                                        None => {},
                                    }
                                }
                                cur = Some(resv);
                            }
                            depth = Some(d2);
                        },
                    }
                }
            },
        }
        i = i + 1;
    }
    let ghost stf = run_lines(dv, n as int);
    let ghost old_done = resources_model(done);
    match cur {
        Some(c) => {
            done.push(c);
            proof {
                assert(resources_model(done) =~= old_done.push(resource_model(c)));
                assert(old_done.push(resource_model(c)) =~= stf.done + seq![resource_model(c)]);
            }
        },
        None => {
            proof {
                assert(stf.done + Seq::<ResourceModel>::empty() =~= stf.done);
            }
        },
    }
    done
}

// ---------------------------------------------------------------------------
// laws
// ---------------------------------------------------------------------------

/// A resource as the scan maintains it: never marked applied, and every
/// change record carries a before value, an after value, or the computed
/// mark.
pub open spec fn resource_ok(r: ResourceModel) -> bool {
    &&& !r.applied
    &&& forall|j: int| 0 <= j < r.changes.len() ==> crate::models::change_wf(#[trigger] r.changes[j])
}

spec fn state_ok(st: MachineModel) -> bool {
    &&& (st.cur is Some ==> resource_ok(st.cur->Some_0))
    &&& forall|i: int| 0 <= i < st.done.len() ==> resource_ok(#[trigger] st.done[i])
}

proof fn lemma_update_change_wf(t: Seq<char>)
    requires
        update_change_spec(t) is Some,
    ensures
        crate::models::change_wf(update_change_spec(t)->Some_0),
{
}

proof fn lemma_step_ok(st: MachineModel, line: Seq<char>)
    requires
        state_ok(st),
    ensures
        state_ok(machine_step(st, line)),
{
    let t = trim_spec(line);
    let st2 = machine_step(st, line);
    match header_spec(line) {
        Some(h) => {
            assert forall|i: int| 0 <= i < st2.done.len() implies resource_ok(
                #[trigger] st2.done[i],
            ) by {
                if i < st.done.len() {
                } else {
                    assert(st2.done[i] == st.cur->Some_0);
                }
            }
        },
        None => {
            if st.cur is Some && is_block_start(t) {
            } else if st.cur is Some && st.depth is Some {
                let d = st.depth->Some_0;
                let r = st.cur->Some_0;
                match brace_scan(t, 0, d) {
                    None => {},
                    Some(d2) => {
                        if d == 1 && r.action == ActionType::Update {
                            match update_change_spec(t) {
                                Some(c) => {
                                    lemma_update_change_wf(t);
                                    let r2 = st2.cur->Some_0;
                                    assert forall|j: int| 0 <= j < r2.changes.len() implies
                                        crate::models::change_wf(#[trigger] r2.changes[j]) by {
                                        if j < r.changes.len() {
                                            assert(r2.changes[j] == r.changes[j]);
                                        } else {
                                            assert(r2.changes[j] == c);
                                        }
                                    }
                                },
                                None => {},
                            }
                        }
                    },
                }
            }
        },
    }
}

proof fn lemma_run_ok(ls: Seq<Seq<char>>, i: int)
    ensures
        state_ok(run_lines(ls, i)),
    decreases i,
{
    if i <= 0 {
    } else {
        lemma_run_ok(ls, i - 1);
        lemma_step_ok(run_lines(ls, i - 1), ls[i - 1]);
    }
}

/// Emitted-plan invariant: every resource the scan emits is unapplied, and
/// every change record it carries has a before value, an after value, or
/// the computed mark — a change with none of the three never occurs.
pub proof fn lemma_emitted_resources_ok(ls: Seq<Seq<char>>)
    ensures
        forall|i: int|
            0 <= i < resources_spec(ls).len() ==> resource_ok(#[trigger] resources_spec(ls)[i]),
{
    lemma_run_ok(ls, ls.len() as int);
    let st = run_lines(ls, ls.len() as int);
    assert forall|i: int| 0 <= i < resources_spec(ls).len() implies resource_ok(
        #[trigger] resources_spec(ls)[i],
    ) by {
        if i < st.done.len() {
            assert(resources_spec(ls)[i] == st.done[i]);
        } else {
            assert(resources_spec(ls)[i] == st.cur->Some_0);
        }
    }
}

proof fn lemma_header_find_no_hash(l: Seq<char>, i: int, verb: Seq<char>)
    requires
        forall|k: int| 0 <= k < l.len() ==> l[k] != '#',
    ensures
        header_find(l, i, verb) is None,
    decreases l.len() - i,
{
    if i < 0 || i >= l.len() {
    } else {
        assert(header_try_at(l, i, verb) is None);
        lemma_header_find_no_hash(l, i + 1, verb);
    }
}

proof fn lemma_brace_scan_skip(l: Seq<char>, i: int, j: int, d: int)
    requires
        0 <= i <= j <= l.len(),
        forall|k: int| i <= k < j ==> #[trigger] l[k] != '{' && l[k] != '}',
    ensures
        brace_scan(l, i, d) == brace_scan(l, j, d),
    decreases j - i,
{
    if i < j {
        lemma_brace_scan_skip(l, i + 1, j, d);
    }
}

/// The constructed header line announces a creation with the given type
/// and name tokens.
#[verifier::rlimit(100)]
proof fn lemma_header_line_create(ty: Seq<char>, nm: Seq<char>)
    requires
        ty.len() > 0,
        nm.len() > 0,
        forall|k: int| 0 <= k < ty.len() ==> crate::text::is_type_char(#[trigger] ty[k]),
        forall|k: int| 0 <= k < nm.len() ==> crate::text::is_name_char(#[trigger] nm[k]),
    ensures
        header_spec("# "@ + ty + "."@ + nm + " will be created"@) == Some(
            (ActionType::Create, ty, nm),
        ),
{
    reveal_strlit("# ");
    reveal_strlit(".");
    reveal_strlit(" will be created");
    reveal_strlit("will be created");
    let header = "# "@ + ty + "."@ + nm + " will be created"@;
    let tn = ty.len() as int;
    let nn = nm.len() as int;
    assert(header.len() == tn + nn + 19);
    assert(header[0] == '#');
    assert(header[1] == ' ');
    assert forall|k: int| 0 <= k < tn implies header[2 + k] == ty[k] by {}
    assert(header[2 + tn] == '.');
    assert forall|k: int| 0 <= k < nn implies header[3 + tn + k] == nm[k] by {}
    assert forall|k: int| 0 <= k < 16 implies header[3 + tn + nn + k] == " will be created"@[k]
        by {}
    crate::text::lemma_ws_run(header, 1, 2);
    crate::text::lemma_type_run(header, 2, 2 + tn);
    crate::text::lemma_name_run(header, 3 + tn, 3 + tn + nn);
    crate::text::lemma_ws_run(header, 3 + tn + nn, 4 + tn + nn);
    assert(starts_at(header, "will be created"@, 4 + tn + nn));
    assert(header_try_at(header, 0, "will be created"@) == Some((2int, 2 + tn, 3 + tn, 3 + tn + nn)));
    assert(header_find(header, 0, "will be created"@) == Some(
        (2int, 2 + tn, 3 + tn, 3 + tn + nn),
    ));
    assert(header.subrange(2, 2 + tn) =~= ty);
    assert(header.subrange(3 + tn, 3 + tn + nn) =~= nm);
}

/// The constructed opening line is a block start, is its own trim, carries
/// no header, and enters brace depth one.
#[verifier::rlimit(100)]
proof fn lemma_opening_line_facts(ty: Seq<char>, nm: Seq<char>)
    requires
        ty.len() > 0,
        nm.len() > 0,
        forall|k: int| 0 <= k < ty.len() ==> crate::text::is_type_char(#[trigger] ty[k]),
        forall|k: int| 0 <= k < nm.len() ==> crate::text::is_name_char(#[trigger] nm[k]),
    ensures
        ({
            let opening = "+ resource \""@ + ty + "\" \""@ + nm + "\" {"@;
            &&& header_spec(opening) is None
            &&& trim_spec(opening) == opening
            &&& is_block_start(opening)
            &&& brace_scan(opening, 0, 0) == Some(1int)
        }),
{
    reveal_strlit("will be created");
    reveal_strlit("will be updated");
    reveal_strlit("will be destroyed");
    reveal_strlit("+ resource \"");
    reveal_strlit("\" \"");
    reveal_strlit("\" {");
    reveal_strlit("+ resource");
    let opening = "+ resource \""@ + ty + "\" \""@ + nm + "\" {"@;
    let tn = ty.len() as int;
    let nn = nm.len() as int;
    assert(opening.len() == tn + nn + 18);
    assert forall|k: int| 0 <= k < 12 implies opening[k] == "+ resource \""@[k] by {}
    assert forall|k: int| 0 <= k < tn implies opening[12 + k] == ty[k] by {}
    assert forall|k: int| 0 <= k < 3 implies opening[12 + tn + k] == "\" \""@[k] by {}
    assert forall|k: int| 0 <= k < nn implies opening[15 + tn + k] == nm[k] by {}
    assert forall|k: int| 0 <= k < 3 implies opening[15 + tn + nn + k] == "\" {"@[k] by {}
    assert forall|k: int| 0 <= k < opening.len() implies opening[k] != '#' by {
        if 12 <= k < 12 + tn {
            assert(crate::text::is_type_char(opening[k]));
        } else if 15 + tn <= k < 15 + tn + nn {
            assert(crate::text::is_name_char(opening[k]));
        }
    }
    lemma_header_find_no_hash(opening, 0, "will be created"@);
    lemma_header_find_no_hash(opening, 0, "will be updated"@);
    lemma_header_find_no_hash(opening, 0, "will be destroyed"@);
    crate::text::lemma_ws_end(opening, 0);
    assert(trim_start_spec(opening) =~= opening);
    crate::text::lemma_ws_back(trim_start_spec(opening), opening.len() as int);
    assert(!crate::text::is_space_char(opening[opening.len() - 1]));
    assert(trim_spec(opening) =~= opening);
    assert(starts_at(opening, "+ resource"@, 0));
    assert forall|k: int| 0 <= k < opening.len() - 1 implies #[trigger] opening[k] != '{'
        && opening[k] != '}' by {
        if 12 <= k < 12 + tn {
            assert(crate::text::is_type_char(opening[k]));
        } else if 15 + tn <= k < 15 + tn + nn {
            assert(crate::text::is_name_char(opening[k]));
        }
    }
    lemma_brace_scan_skip(opening, 0, opening.len() - 1, 0);
    assert(opening[opening.len() - 1] == '{');
    assert(brace_scan(opening, opening.len() - 1, 0) == brace_scan(opening, opening.len() as int, 1));
}

/// Resource identity: a header line announcing `type.name will be created`
/// followed by its matching `+ resource "type" "name" {` opening emits
/// exactly one resource, with the action, identity, name, type and derived
/// provider as captured, no changes or attributes, and not applied.
pub proof fn lemma_resource_identity(ty: Seq<char>, nm: Seq<char>)
    requires
        ty.len() > 0,
        nm.len() > 0,
        forall|k: int| 0 <= k < ty.len() ==> crate::text::is_type_char(#[trigger] ty[k]),
        forall|k: int| 0 <= k < nm.len() ==> crate::text::is_name_char(#[trigger] nm[k]),
    ensures
        ({
            let header = "# "@ + ty + "."@ + nm + " will be created"@;
            let opening = "+ resource \""@ + ty + "\" \""@ + nm + "\" {"@;
            resources_spec(seq![header, opening]) == seq![
                new_resource_model(ActionType::Create, ty, nm),
            ]
        }),
{
    let header = "# "@ + ty + "."@ + nm + " will be created"@;
    let opening = "+ resource \""@ + ty + "\" \""@ + nm + "\" {"@;
    lemma_header_line_create(ty, nm);
    lemma_opening_line_facts(ty, nm);
    let ls = seq![header, opening];
    let st0 = run_lines(ls, 0);
    let st1 = run_lines(ls, 1);
    let st2 = run_lines(ls, 2);
    assert(st1 == machine_step(st0, header));
    assert(st1.cur == Some(new_resource_model(ActionType::Create, ty, nm)));
    assert(st1.done =~= Seq::<ResourceModel>::empty());
    assert(st2 == machine_step(st1, opening));
    assert(st2.cur == st1.cur);
    assert(st2.done =~= Seq::<ResourceModel>::empty());
    assert(resources_spec(ls) =~= seq![new_resource_model(ActionType::Create, ty, nm)]);
}

/// Scan the line sequence once and emit one resource per recognized block,
/// in source order.
pub fn parse_resource_changes(lines: &[&str]) -> (r: Vec<Resource>)
    ensures
        resources_model(r) == resources_spec(lines.deep_view()),
{
    let ls = crate::text::to_char_lines(lines);
    parse_resource_changes_core(&ls)
}

} // verus!
