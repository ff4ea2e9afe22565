//! The data model of a parsed plan: run mode, aggregate summary, resources
//! with their per-attribute changes, data sources, warnings and metadata.
//!
//! Every executable type has a ghost model (a `..Model` type over `Seq` and
//! `int`) so that contracts can speak about values mathematically; the
//! `.._model` spec functions map one to the other.

use vstd::prelude::*;

verus! {

broadcast use vstd::std_specs::vec::axiom_vec_index_decreases;

/// Whether the transcript describes a dry run or a completed apply.
#[derive(Debug, Clone, Copy, PartialEq, Eq, Structural)]
pub enum PlanMode {
    Plan,
    Apply,
}

/// Aggregate counts recovered from the summary line.
#[derive(Debug, Clone, Copy, PartialEq, Eq, Structural)]
pub struct Summary {
    pub add: usize,
    pub change: usize,
    pub destroy: usize,
    pub read: usize,
}

impl Default for Summary {
    /// The all-zero summary, used when no summary line is recognized.
    fn default() -> (r: Summary)
        ensures
            r == (Summary { add: 0usize, change: 0usize, destroy: 0usize, read: 0usize }),
    {
        Summary { add: 0, change: 0, destroy: 0, read: 0 }
    }
}

/// The action a resource block announces.
#[derive(Debug, Clone, Copy, PartialEq, Eq, Structural)]
pub enum ActionType {
    Create,
    Update,
    Destroy,
    Read,
    NoOp,
}

/// Severity of a warning attached to the plan.
#[derive(Debug, Clone, Copy, PartialEq, Eq, Structural)]
pub enum WarningLevel {
    Info,
    Warning,
    Error,
}

/// A typed attribute value. Numbers that fit `i64` are `Int`; other numeric
/// literals keep their source text in `Num`. `Array` and `Object` only arise
/// from structured parsing of bracketed literals.
#[derive(Debug, PartialEq)]
pub enum TfValue {
    Null,
    Bool(bool),
    Int(i64),
    Num(String),
    Str(String),
    Array(Vec<TfValue>),
    Object(Vec<(String, TfValue)>),
}

/// Ghost model of `TfValue`.
pub enum VModel {
    Null,
    Bool(bool),
    Int(int),
    Num(Seq<char>),
    Str(Seq<char>),
    Arr(Seq<VModel>),
    Obj(Seq<(Seq<char>, VModel)>),
}

/// Ghost model of a `TfValue`, structurally mapping each variant.
pub open spec fn value_model(v: TfValue) -> VModel
    decreases v,
{
    match v {
        TfValue::Null => VModel::Null,
        TfValue::Bool(b) => VModel::Bool(b),
        TfValue::Int(i) => VModel::Int(i as int),
        TfValue::Num(s) => VModel::Num(s@),
        TfValue::Str(s) => VModel::Str(s@),
        // the range guards keep the recursion well founded; out-of-range
        // indices are never read
        TfValue::Array(items) => VModel::Arr(
            Seq::new(
                items.len() as nat,
                |i: int|
                    if 0 <= i < items.len() {
                        value_model(items[i])
                    } else {
                        VModel::Null
                    },
            ),
        ),
        TfValue::Object(fields) => VModel::Obj(
            Seq::new(
                fields.len() as nat,
                |i: int|
                    if 0 <= i < fields.len() {
                        (fields[i].0@, value_model(fields[i].1))
                    } else {
                        (Seq::empty(), VModel::Null)
                    },
            ),
        ),
    }
}

pub open spec fn opt_value_model(v: Option<TfValue>) -> Option<VModel> {
    match v {
        Some(x) => Some(value_model(x)),
        None => None,
    }
}

/// One path-scoped before/after record inside an update block.
#[derive(Debug, PartialEq)]
pub struct Change {
    pub path: Vec<String>,
    pub before: Option<TfValue>,
    pub after: Option<TfValue>,
    pub sensitive: bool,
    pub computed: bool,
}

/// Ghost model of `Change`.
pub struct ChangeModel {
    pub path: Seq<Seq<char>>,
    pub before: Option<VModel>,
    pub after: Option<VModel>,
    pub sensitive: bool,
    pub computed: bool,
}

pub open spec fn change_model(c: Change) -> ChangeModel {
    ChangeModel {
        path: c.path.deep_view(),
        before: opt_value_model(c.before),
        after: opt_value_model(c.after),
        sensitive: c.sensitive,
        computed: c.computed,
    }
}

/// A change record must carry a before value, an after value, or be marked
/// computed; the parser never emits one with none of the three.
pub open spec fn change_wf(c: ChangeModel) -> bool {
    c.before is Some || c.after is Some || c.computed
}

/// One resource block of the transcript.
#[derive(Debug, PartialEq)]
pub struct Resource {
    pub id: String,
    pub name: String,
    pub res_type: String,
    pub provider: String,
    pub action: ActionType,
    pub changes: Vec<Change>,
    pub attributes: Vec<(String, TfValue)>,
    pub applied: bool,
}

/// Ghost model of `Resource`.
pub struct ResourceModel {
    pub id: Seq<char>,
    pub name: Seq<char>,
    pub res_type: Seq<char>,
    pub provider: Seq<char>,
    pub action: ActionType,
    pub changes: Seq<ChangeModel>,
    pub attributes: Seq<(Seq<char>, VModel)>,
    pub applied: bool,
}

/// Ghost model of a change list.
pub open spec fn changes_model(v: Vec<Change>) -> Seq<ChangeModel> {
    Seq::new(v.len() as nat, |i: int| change_model(v[i]))
}

/// Ghost model of an attribute list.
pub open spec fn attrs_model(v: Vec<(String, TfValue)>) -> Seq<(Seq<char>, VModel)> {
    Seq::new(v.len() as nat, |i: int| (v[i].0@, value_model(v[i].1)))
}

pub open spec fn resource_model(r: Resource) -> ResourceModel {
    ResourceModel {
        id: r.id@,
        name: r.name@,
        res_type: r.res_type@,
        provider: r.provider@,
        action: r.action,
        changes: changes_model(r.changes),
        attributes: attrs_model(r.attributes),
        applied: r.applied,
    }
}

/// A read-only entity: like a resource, but with no action or change list.
#[derive(Debug, PartialEq)]
pub struct DataSource {
    pub id: String,
    pub name: String,
    pub res_type: String,
    pub provider: String,
    pub attributes: Vec<(String, TfValue)>,
}

/// A diagnostic message attached to the plan.
#[derive(Debug, Clone, PartialEq)]
pub struct Warning {
    pub message: String,
    pub level: WarningLevel,
}

/// Optional information about the run itself.
#[derive(Debug, Clone, PartialEq)]
pub struct Metadata {
    pub terraform_version: Option<String>,
    pub timestamp: Option<String>,
    pub duration: Option<String>,
}

impl Default for Metadata {
    fn default() -> (r: Metadata)
        ensures
            r.terraform_version is None,
            r.timestamp is None,
            r.duration is None,
    {
        Metadata { terraform_version: None, timestamp: None, duration: None }
    }
}

/// The complete parsed plan.
#[derive(Debug)]
pub struct TerraformPlan {
    pub mode: PlanMode,
    pub summary: Summary,
    pub resources: Vec<Resource>,
    pub data_sources: Vec<DataSource>,
    pub warnings: Vec<Warning>,
    pub metadata: Metadata,
}

impl Default for TerraformPlan {
    /// An empty plan: mode `Plan`, all-zero summary, no entities.
    fn default() -> (r: TerraformPlan)
        ensures
            r.mode == PlanMode::Plan,
            r.summary == (Summary { add: 0usize, change: 0usize, destroy: 0usize, read: 0usize }),
            r.resources@.len() == 0,
            r.data_sources@.len() == 0,
            r.warnings@.len() == 0,
            r.metadata.terraform_version is None,
            r.metadata.timestamp is None,
            r.metadata.duration is None,
    {
        TerraformPlan {
            mode: PlanMode::Plan,
            summary: Summary::default(),
            resources: Vec::new(),
            data_sources: Vec::new(),
            warnings: Vec::new(),
            metadata: Metadata::default(),
        }
    }
}

/// Errors of the surrounding application. The parsing pipeline itself is
/// total and never produces one; the variants carry rendered messages for
/// the callers that do I/O or serialization around the library.
#[derive(Debug, Clone, PartialEq)]
pub enum TfdiffError {
    ParseError(String),
    IoError(String),
    JsonError(String),
    WebError(String),
}

} // verus!
