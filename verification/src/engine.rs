//! The comparison engine: configuration, exemption matching, conditional
//! exemptions, scalar tolerance rules, and the lock-step traversal.

use vstd::prelude::*;
use vstd::string::StringExecFns;
use crate::path::{
    ArrayIndex, Path, PathElement, PathElemModel, elems_view, path_matches, spec_resolve,
};
use crate::value::{
    Number, NumberModel, Value, ValueModel, type_of, value_eq, value_by_path, scalar_at, obj_lookup,
    obj_has_key, obj_get, obj_view, arr_view, wf_value, lemma_arr_view_len, lemma_arr_view_index,
    lemma_obj_view_len, lemma_obj_view_index, lemma_obj_lookup_at, lemma_wf_arr_elem,
    lemma_wf_obj_elem, lemma_wf_obj_distinct,
};
use crate::diffmodel::{
    Pairs, EntryDifference, ScalarDifference, ArrayDifference, Difference, ScalarDiffModel,
    EntryDiffModel, ArrayDiffModel, DiffModel, diff_model_of, arr_diff_model_of,
    entry_diff_model_of, ix_pairs_view, entry_pairs_view, opt_diff_view, lemma_ix_pairs_view_len,
    lemma_ix_pairs_view_index, lemma_entry_pairs_view_len, lemma_entry_pairs_view_index,
};
use crate::ext::{
    num_rel_eq, num_rel_eq_of, parse_rfc3339, rfc3339_instant_of, json_num_parses, num_text_ok,
};
use crate::element_path_parser::{parse_element_path, spec_parse};

verus! {

/// Which of the two compared trees a condition inspects.
#[derive(Clone, Copy, Debug, PartialEq, Eq, Structural)]
pub enum TreeSide {
    Source,
    Target,
}

/// A data-driven conditional predicate: the exemption applies only when the
/// value located in the chosen tree, under the query path with its wildcards
/// resolved against the visited location, equals the expected scalar.
#[derive(Debug)]
pub struct Condition {
    /// The tree the query path reads.
    pub side: TreeSide,
    /// The query path; `All` elements take the concrete index of the visited
    /// location at the same position.
    pub path: Path,
    /// The scalar the located value must equal.
    pub expected: Value,
}

/// Mathematical model of a condition.
#[verifier::ext_equal]
pub struct ConditionModel {
    pub side: TreeSide,
    pub path: Seq<PathElemModel>,
    pub expected: ValueModel,
}

impl View for Condition {
    type V = ConditionModel;

    open spec fn view(&self) -> ConditionModel {
        ConditionModel { side: self.side, path: self.path@, expected: self.expected@ }
    }
}

/// A configured exemption: the pattern, whether a missing entry at that
/// location is forgiven, and an optional condition.
#[derive(Debug)]
pub struct IgnorePath(pub Path, pub bool, pub Option<Condition>);

/// Mathematical model of an exemption entry.
#[verifier::ext_equal]
pub struct IgnoreModel {
    pub pattern: Seq<PathElemModel>,
    pub ignore_missing: bool,
    pub condition: Option<ConditionModel>,
}

impl View for IgnorePath {
    type V = IgnoreModel;

    open spec fn view(&self) -> IgnoreModel {
        IgnoreModel {
            pattern: self.0@,
            ignore_missing: self.1,
            condition: match self.2 {
                Some(c) => Some(c@),
                None => None,
            },
        }
    }
}

/// The model of an exemption list.
pub open spec fn ignores_view(igs: Seq<IgnorePath>) -> Seq<IgnoreModel> {
    igs.map_values(|ig: IgnorePath| ig@)
}

/// Mathematical model of a whole comparison configuration.
#[verifier::ext_equal]
pub struct CfgModel {
    pub ignore: Seq<IgnoreModel>,
    pub equate_empty_arrays: bool,
    pub epsilon: Seq<char>,
    pub tolerance_nanos: u128,
    pub source: ValueModel,
    pub target: ValueModel,
}

/// A configured comparison: build one with [`DiffBuilder`] and run
/// [`Diff::compare`].
#[derive(Debug)]
pub struct Diff {
    /// The exemptions, in the order they were configured.
    pub ignore_paths: Vec<IgnorePath>,
    /// Whether `null` and an empty array on opposite sides are equal.
    pub equate_empty_arrays: bool,
    /// The epsilon for the relative float comparison, as a decimal text.
    pub approx_float_eq_epsilon: String,
    /// The timestamp tolerance in nanoseconds; zero disables it.
    pub approx_date_time_eq_duration: u128,
    /// The source tree.
    pub source: Value,
    /// The target tree.
    pub target: Value,
}

impl Diff {
    /// The model of this configuration.
    pub open spec fn cfg(self) -> CfgModel {
        CfgModel {
            ignore: ignores_view(self.ignore_paths@),
            equate_empty_arrays: self.equate_empty_arrays,
            epsilon: self.approx_float_eq_epsilon@,
            tolerance_nanos: self.approx_date_time_eq_duration,
            source: self.source@,
            target: self.target@,
        }
    }
}

/// Why a [`DiffBuilder`] could not build a [`Diff`].
#[derive(Clone, Copy, Debug, PartialEq, Eq, Structural)]
pub enum DiffBuilderError {
    /// No source tree was given.
    MissingSource,
    /// No target tree was given.
    MissingTarget,
}

/// Collects a comparison's configuration; [`DiffBuilder::build`] yields the
/// [`Diff`] once both trees are given.
#[derive(Debug)]
pub struct DiffBuilder {
    /// The source tree, once given.
    pub source: Option<Value>,
    /// The target tree, once given.
    pub target: Option<Value>,
    /// The exemptions configured so far.
    pub ignore_paths: Vec<IgnorePath>,
    /// Whether `null` and an empty array on opposite sides are equal.
    pub equate_empty_arrays: bool,
    /// The epsilon for the relative float comparison, as a decimal text.
    pub approx_float_eq_epsilon: String,
    /// The timestamp tolerance in nanoseconds; zero disables it.
    pub approx_date_time_eq_duration: u128,
}

impl Default for DiffBuilder {
    /// The neutral configuration: no trees, no exemptions, exact comparisons.
    fn default() -> (r: DiffBuilder)
        ensures
            r.source is None,
            r.target is None,
            r.ignore_paths@ == Seq::<IgnorePath>::empty(),
            !r.equate_empty_arrays,
            r.approx_float_eq_epsilon@ == "0"@,
            r.approx_date_time_eq_duration == 0,
    {
        DiffBuilder {
            source: None,
            target: None,
            ignore_paths: Vec::new(),
            equate_empty_arrays: false,
            approx_float_eq_epsilon: String::from_str("0"),
            approx_date_time_eq_duration: 0,
        }
    }
}

impl DiffBuilder {
    /// Set the source tree.
    pub fn source(self, v: Value) -> (r: DiffBuilder)
        ensures
            r == (DiffBuilder { source: Some(v), ..self }),
    {
        DiffBuilder { source: Some(v), ..self }
    }

    /// Set the target tree.
    pub fn target(self, v: Value) -> (r: DiffBuilder)
        ensures
            r == (DiffBuilder { target: Some(v), ..self }),
    {
        DiffBuilder { target: Some(v), ..self }
    }

    /// Set whether `null` and an empty array on opposite sides are equal.
    pub fn equate_empty_arrays(self, on: bool) -> (r: DiffBuilder)
        ensures
            r == (DiffBuilder { equate_empty_arrays: on, ..self }),
    {
        DiffBuilder { equate_empty_arrays: on, ..self }
    }

    /// Set the epsilon for the relative float comparison, as a decimal text.
    pub fn approx_float_eq_epsilon(self, epsilon: String) -> (r: DiffBuilder)
        ensures
            r == (DiffBuilder { approx_float_eq_epsilon: epsilon, ..self }),
    {
        DiffBuilder { approx_float_eq_epsilon: epsilon, ..self }
    }

    /// Set the timestamp tolerance in nanoseconds; zero disables it.
    pub fn approx_date_time_eq_duration(self, nanos: u128) -> (r: DiffBuilder)
        ensures
            r == (DiffBuilder { approx_date_time_eq_duration: nanos, ..self }),
    {
        DiffBuilder { approx_date_time_eq_duration: nanos, ..self }
    }

    /// Exempt a location from comparison.  A missing entry at that location
    /// is still reported; use [`DiffBuilder::ignore_path_with_missing`] to
    /// forgive absence too.  A path that does not parse is silently skipped:
    /// this keeps a malformed exemption from failing the whole configuration,
    /// at the price of ignoring it.
    pub fn ignore_path(self, path: &str) -> (r: DiffBuilder)
        ensures
            builder_same_but_ignores(self, r),
            ignores_view(r.ignore_paths@) == match spec_parse(path@) {
                Ok(es) => ignores_view(self.ignore_paths@).push(
                    IgnoreModel { pattern: es, ignore_missing: false, condition: None },
                ),
                Err(_) => ignores_view(self.ignore_paths@),
            },
    {
        self.ignore_path_with_missing(path, false)
    }

    /// Exempt a location from comparison; `ignore_missing` also forgives the
    /// entry being absent on one side.  A path that does not parse is
    /// silently skipped, as under [`DiffBuilder::ignore_path`].
    pub fn ignore_path_with_missing(self, path: &str, ignore_missing: bool) -> (r: DiffBuilder)
        ensures
            builder_same_but_ignores(self, r),
            ignores_view(r.ignore_paths@) == match spec_parse(path@) {
                Ok(es) => ignores_view(self.ignore_paths@).push(
                    IgnoreModel { pattern: es, ignore_missing: ignore_missing, condition: None },
                ),
                Err(_) => ignores_view(self.ignore_paths@),
            },
    {
        match parse_element_path(path) {
            Ok(elements) => {
                let mut b = self;
                b.ignore_paths.push(IgnorePath(Path(elements), ignore_missing, None));
                proof {
                    assert(ignores_view(b.ignore_paths@) =~= ignores_view(
                        old_ignores(b.ignore_paths@),
                    ).push(b.ignore_paths@.last()@));
                }
                b
            },
            Err(_) => self,
        }
    }

    /// Exempt a location from comparison only when the condition holds at the
    /// visited node.  A path that does not parse is silently skipped, as
    /// under [`DiffBuilder::ignore_path`].
    pub fn ignore_path_with_condition(self, path: &str, condition: Condition) -> (r: DiffBuilder)
        ensures
            builder_same_but_ignores(self, r),
            ignores_view(r.ignore_paths@) == match spec_parse(path@) {
                Ok(es) => ignores_view(self.ignore_paths@).push(
                    IgnoreModel { pattern: es, ignore_missing: false, condition: Some(condition@) },
                ),
                Err(_) => ignores_view(self.ignore_paths@),
            },
    {
        match parse_element_path(path) {
            Ok(elements) => {
                let mut b = self;
                b.ignore_paths.push(IgnorePath(Path(elements), false, Some(condition)));
                proof {
                    assert(ignores_view(b.ignore_paths@) =~= ignores_view(
                        old_ignores(b.ignore_paths@),
                    ).push(b.ignore_paths@.last()@));
                }
                b
            },
            Err(_) => self,
        }
    }

    /// Build the configured comparison.  Fails exactly when the source or the
    /// target tree was not given.
    pub fn build(self) -> (r: Result<Diff, DiffBuilderError>)
        ensures
            match r {
                Ok(d) => self.source is Some && self.target is Some && d == (Diff {
                    ignore_paths: self.ignore_paths,
                    equate_empty_arrays: self.equate_empty_arrays,
                    approx_float_eq_epsilon: self.approx_float_eq_epsilon,
                    approx_date_time_eq_duration: self.approx_date_time_eq_duration,
                    source: self.source->Some_0,
                    target: self.target->Some_0,
                }),
                Err(e) => (e == DiffBuilderError::MissingSource && self.source is None) || (e
                    == DiffBuilderError::MissingTarget && self.source is Some
                    && self.target is None),
            },
    {
        let DiffBuilder {
            source,
            target,
            ignore_paths,
            equate_empty_arrays,
            approx_float_eq_epsilon,
            approx_date_time_eq_duration,
        } = self;
        let source = match source {
            Some(v) => v,
            None => {
                return Err(DiffBuilderError::MissingSource);
            },
        };
        let target = match target {
            Some(v) => v,
            None => {
                return Err(DiffBuilderError::MissingTarget);
            },
        };
        Ok(
            Diff {
                ignore_paths,
                equate_empty_arrays,
                approx_float_eq_epsilon,
                approx_date_time_eq_duration,
                source,
                target,
            },
        )
    }
}

/// An exemption list without its last entry.
pub open spec fn old_ignores(igs: Seq<IgnorePath>) -> Seq<IgnorePath> {
    igs.drop_last()
}

/// Whether two builders agree on everything but the exemption list.
pub open spec fn builder_same_but_ignores(a: DiffBuilder, b: DiffBuilder) -> bool {
    &&& b.source == a.source
    &&& b.target == a.target
    &&& b.equate_empty_arrays == a.equate_empty_arrays
    &&& b.approx_float_eq_epsilon == a.approx_float_eq_epsilon
    &&& b.approx_date_time_eq_duration == a.approx_date_time_eq_duration
}


/// The numeric value of an integer number; floats have none and map to
/// zero, which no caller reads.
pub open spec fn num_int_value(n: NumberModel) -> int {
    match n {
        NumberModel::PosInt(u) => u as int,
        NumberModel::NegInt(i) => i as int,
        NumberModel::Float(_) => 0,
    }
}

/// How two numbers diverge: two integers compare by numeric value, exactly;
/// if either side is a float, the relative float comparison under the
/// configured epsilon decides.
pub open spec fn spec_num_diff(epsilon: Seq<char>, a: NumberModel, b: NumberModel) -> Option<
    DiffModel,
> {
    if !(a is Float) && !(b is Float) {
        if num_int_value(a) == num_int_value(b) {
            None
        } else {
            Some(DiffModel::Scalar(ScalarDiffModel::Number { source: a, target: b }))
        }
    } else {
        if num_rel_eq_of(a, b, epsilon) {
            None
        } else {
            Some(DiffModel::Scalar(ScalarDiffModel::Number { source: a, target: b }))
        }
    }
}

/// An instant in nanoseconds since the epoch.
pub open spec fn instant_nanos(p: (i64, u32)) -> int {
    p.0 * 1_000_000_000 + p.1
}

/// The absolute distance between two instants, in nanoseconds.
pub open spec fn instant_delta(x: (i64, u32), y: (i64, u32)) -> int {
    let d = instant_nanos(x) - instant_nanos(y);
    if d >= 0 {
        d
    } else {
        -d
    }
}

/// How two strings diverge: with a non-zero timestamp tolerance, two strings
/// that both denote RFC 3339 timestamps are equal exactly when their
/// instants are at most the tolerance apart; otherwise, exact equality.
pub open spec fn spec_str_diff(tolerance_nanos: u128, a: Seq<char>, b: Seq<char>) -> Option<
    DiffModel,
> {
    if tolerance_nanos != 0 && rfc3339_instant_of(a) is Some && rfc3339_instant_of(b) is Some {
        if instant_delta(rfc3339_instant_of(a)->Some_0, rfc3339_instant_of(b)->Some_0)
            > tolerance_nanos {
            Some(DiffModel::Scalar(ScalarDiffModel::String { source: a, target: b }))
        } else {
            None
        }
    } else if a == b {
        None
    } else {
        Some(DiffModel::Scalar(ScalarDiffModel::String { source: a, target: b }))
    }
}

/// The first configured exemption whose pattern equals the path under the
/// wildcard rule.
pub open spec fn spec_find_ignore(igs: Seq<IgnoreModel>, path: Seq<PathElemModel>) -> Option<
    IgnoreModel,
>
    decreases igs.len(),
{
    if igs.len() == 0 {
        None
    } else if path_matches(igs[0].pattern, path) {
        Some(igs[0])
    } else {
        spec_find_ignore(igs.drop_first(), path)
    }
}

/// Whether every wildcard of a condition's query path can take a concrete
/// index from the resolved location.
pub open spec fn cond_query_ok(q: Seq<PathElemModel>, resolved: Seq<PathElemModel>) -> bool {
    forall|i: int|
        (0 <= i < q.len() && ((#[trigger] q[i]) matches PathElemModel::Ix(ArrayIndex::All))) ==> (i
            < resolved.len() && (resolved[i] matches PathElemModel::Ix(ArrayIndex::Index(_))))
}

/// The query path with every wildcard replaced by the resolved location's
/// element at the same position.
pub open spec fn subst_query(q: Seq<PathElemModel>, resolved: Seq<PathElemModel>) -> Seq<
    PathElemModel,
> {
    Seq::new(
        q.len(),
        |i: int|
            if q[i] matches PathElemModel::Ix(ArrayIndex::All) {
                resolved[i]
            } else {
                q[i]
            },
    )
}

/// Whether a condition grants the exemption at a resolved location: its
/// query path, made concrete against that location, must lead in the chosen
/// tree to a scalar equal to the expected value; any failure to resolve or
/// locate denies the exemption.
pub open spec fn spec_cond_holds(
    source: ValueModel,
    target: ValueModel,
    resolved: Seq<PathElemModel>,
    c: ConditionModel,
) -> bool {
    if cond_query_ok(c.path, resolved) {
        let tree = match c.side {
            TreeSide::Source => source,
            TreeSide::Target => target,
        };
        match scalar_at(tree, subst_query(c.path, resolved)) {
            Some(v) => v == c.expected,
            None => false,
        }
    } else {
        false
    }
}

/// The exemption decision at a visited path.  `has_key` is true when the
/// entry exists on the side being iterated and the other side is being
/// checked; false when the entry is definitively absent from the first side.
/// The first matching pattern decides: present entries are exempt, under a
/// condition if one is configured; absent entries are exempt only when the
/// exemption forgives missing entries.
pub open spec fn spec_is_exempt(cfg: CfgModel, path: Seq<PathElemModel>, has_key: bool) -> bool {
    match spec_find_ignore(cfg.ignore, path) {
        None => false,
        Some(ig) => if has_key {
            match ig.condition {
                None => true,
                Some(c) => spec_cond_holds(
                    cfg.source,
                    cfg.target,
                    spec_resolve(ig.pattern, path)->Some_0,
                    c,
                ),
            }
        } else {
            ig.ignore_missing
        },
    }
}

/// A type-mismatch divergence between two values.
pub open spec fn spec_type_diff(s: ValueModel, t: ValueModel) -> Option<DiffModel> {
    Some(
        DiffModel::Type {
            source_type: type_of(s),
            source_value: s,
            target_type: type_of(t),
            target_value: t,
        },
    )
}

/// How two corresponding nodes diverge under the configuration, with the
/// traversal standing at `path`.  `None` means the subtrees are equivalent.
pub open spec fn spec_values(
    cfg: CfgModel,
    s: ValueModel,
    t: ValueModel,
    path: Seq<PathElemModel>,
) -> Option<DiffModel>
    decreases s, 2int, 0int,
{
    match (s, t) {
        (ValueModel::Null, ValueModel::Null) => None,
        (ValueModel::Bool(a), ValueModel::Bool(b)) => if a == b {
            None
        } else {
            Some(DiffModel::Scalar(ScalarDiffModel::Bool { source: a, target: b }))
        },
        (ValueModel::Number(a), ValueModel::Number(b)) => spec_num_diff(cfg.epsilon, a, b),
        (ValueModel::String(a), ValueModel::String(b)) => spec_str_diff(cfg.tolerance_nanos, a, b),
        (ValueModel::Array(a), ValueModel::Array(b)) => match spec_arrays(cfg, a, b, path) {
            Some(ad) => Some(DiffModel::Array(ad)),
            None => None,
        },
        (ValueModel::Object(a), ValueModel::Object(b)) => match spec_objects(cfg, a, b, path) {
            Some(es) => Some(DiffModel::Object { different_entries: es }),
            None => None,
        },
        (ValueModel::Array(a), ValueModel::Null) => if cfg.equate_empty_arrays && a.len() == 0 {
            None
        } else {
            spec_type_diff(s, t)
        },
        (ValueModel::Null, ValueModel::Array(b)) => if cfg.equate_empty_arrays && b.len() == 0 {
            None
        } else {
            spec_type_diff(s, t)
        },
        _ => spec_type_diff(s, t),
    }
}

/// The differing pairs among the first `n` overlapping indices of two
/// arrays, in index order.
pub open spec fn spec_pairs(
    cfg: CfgModel,
    a: Seq<ValueModel>,
    b: Seq<ValueModel>,
    path: Seq<PathElemModel>,
    n: int,
) -> Seq<(usize, DiffModel)>
    decreases a, 0int, n,
{
    if n <= 0 {
        Seq::empty()
    } else {
        let prev = spec_pairs(cfg, a, b, path, n - 1);
        if n <= a.len() && n <= b.len() {
            match spec_values(
                cfg,
                a[n - 1],
                b[n - 1],
                path.push(PathElemModel::Ix(ArrayIndex::Index((n - 1) as usize))),
            ) {
                Some(d) => prev.push((((n - 1) as usize), d)),
                None => prev,
            }
        } else {
            prev
        }
    }
}

/// How two arrays diverge: pairwise differences over the overlapping
/// indices, and a length classification; equal lengths with no differing
/// pairs collapse to no difference.
pub open spec fn spec_arrays(
    cfg: CfgModel,
    a: Seq<ValueModel>,
    b: Seq<ValueModel>,
    path: Seq<PathElemModel>,
) -> Option<ArrayDiffModel>
    decreases a, 1int, 0int,
{
    let m = if a.len() <= b.len() {
        a.len()
    } else {
        b.len()
    };
    let pairs = spec_pairs(cfg, a, b, path, m as int);
    let dp = if pairs.len() == 0 {
        None
    } else {
        Some(pairs)
    };
    if a.len() > b.len() {
        Some(
            ArrayDiffModel::Longer {
                different_pairs: dp,
                extra_length: (a.len() - b.len()) as usize,
            },
        )
    } else if a.len() < b.len() {
        Some(
            ArrayDiffModel::Shorter {
                different_pairs: dp,
                missing_elements: b.skip(a.len() as int),
            },
        )
    } else {
        match dp {
            Some(p) => Some(ArrayDiffModel::PairsOnly { different_pairs: p }),
            None => None,
        }
    }
}

/// The divergences contributed by the first `n` source members: an exempt
/// member is dropped, a member absent from the target is `Extra`, and a
/// shared member contributes `Value` when its values diverge.
pub open spec fn spec_obj_entries(
    cfg: CfgModel,
    a: Seq<(Seq<char>, ValueModel)>,
    b: Seq<(Seq<char>, ValueModel)>,
    path: Seq<PathElemModel>,
    n: int,
) -> Seq<(Seq<char>, EntryDiffModel)>
    decreases a, 0int, n,
{
    if n <= 0 {
        Seq::empty()
    } else {
        let prev = spec_obj_entries(cfg, a, b, path, n - 1);
        if n <= a.len() {
            let k = a[n - 1].0;
            let child_path = path.push(PathElemModel::Key(k));
            if spec_is_exempt(cfg, child_path, obj_has_key(b, k)) {
                prev
            } else {
                match obj_lookup(b, k) {
                    None => prev.push((k, EntryDiffModel::Extra { value: a[n - 1].1 })),
                    Some(tv) => match spec_values(cfg, a[n - 1].1, tv, child_path) {
                        Some(d) => prev.push((k, EntryDiffModel::Value { value_diff: d })),
                        None => prev,
                    },
                }
            }
        } else {
            prev
        }
    }
}

/// The `Missing` divergences contributed by the first `n` target members
/// whose keys the source lacks, unless an exemption forgives their absence.
pub open spec fn spec_missing_entries(
    cfg: CfgModel,
    a: Seq<(Seq<char>, ValueModel)>,
    b: Seq<(Seq<char>, ValueModel)>,
    path: Seq<PathElemModel>,
    n: int,
) -> Seq<(Seq<char>, EntryDiffModel)>
    decreases n,
{
    if n <= 0 {
        Seq::empty()
    } else {
        let prev = spec_missing_entries(cfg, a, b, path, n - 1);
        if n <= b.len() {
            let k = b[n - 1].0;
            if obj_has_key(a, k) {
                prev
            } else if spec_is_exempt(cfg, path.push(PathElemModel::Key(k)), false) {
                prev
            } else {
                prev.push((k, EntryDiffModel::Missing { value: b[n - 1].1 }))
            }
        } else {
            prev
        }
    }
}

/// How two objects diverge: the source members in order, then the target's
/// own members; no contributions collapse to no difference.
pub open spec fn spec_objects(
    cfg: CfgModel,
    a: Seq<(Seq<char>, ValueModel)>,
    b: Seq<(Seq<char>, ValueModel)>,
    path: Seq<PathElemModel>,
) -> Option<Seq<(Seq<char>, EntryDiffModel)>>
    decreases a, 1int, 0int,
{
    let entries = spec_obj_entries(cfg, a, b, path, a.len() as int) + spec_missing_entries(
        cfg,
        a,
        b,
        path,
        b.len() as int,
    );
    if entries.len() == 0 {
        None
    } else {
        Some(entries)
    }
}


proof fn lemma_find_ignore_skip(igs: Seq<IgnoreModel>, path: Seq<PathElemModel>, i: int)
    requires
        0 <= i <= igs.len(),
        forall|j: int| 0 <= j < i ==> !path_matches(#[trigger] igs[j].pattern, path),
    ensures
        spec_find_ignore(igs, path) == spec_find_ignore(igs.skip(i), path),
    decreases i,
{
    if i > 0 {
        assert(!path_matches(igs[0].pattern, path));
        assert forall|j: int| 0 <= j < i - 1 implies !path_matches(
            #[trigger] igs.skip(1)[j].pattern,
            path,
        ) by {
            assert(igs.skip(1)[j] == igs[j + 1]);
        }
        lemma_find_ignore_skip(igs.skip(1), path, i - 1);
        assert(igs.skip(1).skip(i - 1) =~= igs.skip(i));
        assert(igs.drop_first() =~= igs.skip(1));
    } else {
        assert(igs.skip(0) =~= igs);
    }
}

/// Whether two integer numbers are numerically equal.
fn ints_equal(a: &Number, b: &Number) -> (r: bool)
    requires
        !(a@ is Float),
        !(b@ is Float),
    ensures
        r == (num_int_value(a@) == num_int_value(b@)),
{
    match (a, b) {
        (Number::PosInt(u), Number::PosInt(v)) => *u == *v,
        (Number::NegInt(x), Number::NegInt(y)) => *x == *y,
        (Number::PosInt(u), Number::NegInt(i)) => *i >= 0 && *u <= i64::MAX as u64 && *u == *i
            as u64,
        (Number::NegInt(i), Number::PosInt(u)) => *i >= 0 && *u <= i64::MAX as u64 && *u == *i
            as u64,
        _ => false,
    }
}

impl Diff {
    /// Compare two numbers under the configured epsilon; see
    /// [`spec_num_diff`].  Two equal numbers, with valid float text and a
    /// valid epsilon text, never differ.
    fn compare_numbers(&self, a: &Number, b: &Number) -> (r: Option<Difference>)
        ensures
            opt_diff_view(r) == spec_num_diff(self.cfg().epsilon, a@, b@),
            a@ == b@ && num_text_ok(a@) && json_num_parses(self.cfg().epsilon) ==> r is None,
    {
        let a_float = matches!(a, Number::Float(_));
        let b_float = matches!(b, Number::Float(_));
        if !a_float && !b_float {
            if ints_equal(a, b) {
                None
            } else {
                Some(
                    Difference::Scalar(
                        ScalarDifference::Number { source: a.duplicate(), target: b.duplicate() },
                    ),
                )
            }
        } else {
            if num_rel_eq(a, b, &self.approx_float_eq_epsilon) {
                None
            } else {
                Some(
                    Difference::Scalar(
                        ScalarDifference::Number { source: a.duplicate(), target: b.duplicate() },
                    ),
                )
            }
        }
    }

    /// Compare two strings under the configured timestamp tolerance; see
    /// [`spec_str_diff`].  Two equal strings never differ.
    fn compare_strings(&self, a: &String, b: &String) -> (r: Option<Difference>)
        ensures
            opt_diff_view(r) == spec_str_diff(self.cfg().tolerance_nanos, a@, b@),
            a@ == b@ ==> r is None,
    {
        proof {
            if a@ == b@ {
                match rfc3339_instant_of(a@) {
                    Some(x) => {
                        assert(instant_delta(x, x) == 0);
                    },
                    None => {},
                }
                assert(spec_str_diff(self.cfg().tolerance_nanos, a@, b@) is None);
            }
        }
        if self.approx_date_time_eq_duration != 0 {
            let pa = parse_rfc3339(a.as_str());
            let pb = parse_rfc3339(b.as_str());
            match (pa, pb) {
                (Some((xs, xn)), Some((ys, yn))) => {
                    let x: i128 = xs as i128 * 1_000_000_000 + xn as i128;
                    let y: i128 = ys as i128 * 1_000_000_000 + yn as i128;
                    let d: i128 = if x >= y {
                        x - y
                    } else {
                        y - x
                    };
                    proof {
                        assert(d as int == instant_delta((xs, xn), (ys, yn)));
                    }
                    if (d as u128) > self.approx_date_time_eq_duration {
                        Some(
                            Difference::Scalar(
                                ScalarDifference::String { source: a.clone(), target: b.clone() },
                            ),
                        )
                    } else {
                        None
                    }
                },
                _ => {
                    if *a == *b {
                        None
                    } else {
                        Some(
                            Difference::Scalar(
                                ScalarDifference::String { source: a.clone(), target: b.clone() },
                            ),
                        )
                    }
                },
            }
        } else {
            if *a == *b {
                None
            } else {
                Some(
                    Difference::Scalar(
                        ScalarDifference::String { source: a.clone(), target: b.clone() },
                    ),
                )
            }
        }
    }

    /// Evaluate a conditional exemption at a resolved location; see
    /// [`spec_cond_holds`].
    #[verifier::loop_isolation(false)]
    fn eval_condition(&self, cond: &Condition, resolved: &Vec<PathElement>) -> (r: bool)
        ensures
            r == spec_cond_holds(self.source@, self.target@, elems_view(resolved@), cond@),
    {
        let q = &cond.path.0;
        let n = q.len();
        let mut out: Vec<PathElement> = Vec::new();
        for i in 0..n
            invariant
                n == q.len(),
                out@.len() == i,
                forall|j: int|
                    (0 <= j < i && ((#[trigger] elems_view(q@)[j]) matches PathElemModel::Ix(
                        ArrayIndex::All,
                    ))) ==> (j < elems_view(resolved@).len() && (elems_view(resolved@)[j] matches
                    PathElemModel::Ix(ArrayIndex::Index(_)))),
                forall|j: int|
                    0 <= j < i ==> #[trigger] elems_view(out@)[j] == subst_query(
                        elems_view(q@),
                        elems_view(resolved@),
                    )[j],
        {
            proof {
                assert(elems_view(q@)[i as int] == q@[i as int]@);
            }
            let e: PathElement = match &q[i] {
                PathElement::ArrayIndex(ArrayIndex::All) => {
                    if i < resolved.len() {
                        proof {
                            assert(elems_view(resolved@)[i as int] == resolved@[i as int]@);
                        }
                        match &resolved[i] {
                            PathElement::ArrayIndex(ArrayIndex::Index(ix)) => PathElement::ArrayIndex(
                                ArrayIndex::Index(*ix),
                            ),
                            _ => {
                                proof {
                                    assert(!cond_query_ok(elems_view(q@), elems_view(resolved@)));
                                }
                                return false;
                            },
                        }
                    } else {
                        proof {
                            assert(!cond_query_ok(elems_view(q@), elems_view(resolved@)));
                        }
                        return false;
                    }
                },
                other => other.duplicate(),
            };
            let ghost prev = out@;
            out.push(e);
            proof {
                let sq = subst_query(elems_view(q@), elems_view(resolved@));
                assert(elems_view(out@)[i as int] == out@[i as int]@);
                assert forall|j: int| 0 <= j < i implies #[trigger] elems_view(out@)[j] == sq[j] by {
                    assert(out@[j] == prev[j]);
                    assert(elems_view(prev)[j] == prev[j]@);
                    assert(elems_view(out@)[j] == out@[j]@);
                }
            }
        }
        proof {
            assert(cond_query_ok(elems_view(q@), elems_view(resolved@)));
            assert(elems_view(out@) =~= subst_query(elems_view(q@), elems_view(resolved@)));
        }
        let qp = Path(out);
        let tree: &Value = match cond.side {
            TreeSide::Source => &self.source,
            TreeSide::Target => &self.target,
        };
        match value_by_path(tree, &qp) {
            Some(v) => value_eq(v, &cond.expected),
            None => false,
        }
    }

    /// The exemption decision at the visited path; see [`spec_is_exempt`].
    #[verifier::loop_isolation(false)]
    fn ignore_path(&self, path: &Vec<PathElement>, has_key: bool) -> (r: bool)
        ensures
            r == spec_is_exempt(self.cfg(), elems_view(path@), has_key),
    {
        let n = self.ignore_paths.len();
        for i in 0..n
            invariant
                n == self.ignore_paths.len(),
                forall|j: int|
                    0 <= j < i ==> !path_matches(
                        (#[trigger] self.ignore_paths@[j])@.pattern,
                        elems_view(path@),
                    ),
        {
            if crate::path::paths_match(&self.ignore_paths[i].0.0, path) {
                proof {
                    assert forall|j: int| 0 <= j < i implies !path_matches(
                        #[trigger] ignores_view(self.ignore_paths@)[j].pattern,
                        elems_view(path@),
                    ) by {
                        assert(ignores_view(self.ignore_paths@)[j] == self.ignore_paths@[j]@);
                    }
                    lemma_find_ignore_skip(
                        ignores_view(self.ignore_paths@),
                        elems_view(path@),
                        i as int,
                    );
                    assert(ignores_view(self.ignore_paths@).skip(i as int)[0] == ignores_view(
                        self.ignore_paths@,
                    )[i as int]);
                    assert(ignores_view(self.ignore_paths@)[i as int] == self.ignore_paths@[i as int]@);
                }
                let ig = &self.ignore_paths[i];
                if has_key {
                    match &ig.2 {
                        None => {
                            return true;
                        },
                        Some(cond) => {
                            match crate::path::resolve_elems(&ig.0.0, path) {
                                Some(resolved) => {
                                    return self.eval_condition(cond, &resolved);
                                },
                                None => {
                                    proof {
                                        assert(false);
                                    }
                                    return false;
                                },
                            }
                        },
                    }
                } else {
                    return ig.1;
                }
            }
        }
        proof {
            assert forall|j: int| 0 <= j < n implies !path_matches(
                #[trigger] ignores_view(self.ignore_paths@)[j].pattern,
                elems_view(path@),
            ) by {
                assert(ignores_view(self.ignore_paths@)[j] == self.ignore_paths@[j]@);
            }
            lemma_find_ignore_skip(ignores_view(self.ignore_paths@), elems_view(path@), n as int);
            assert(ignores_view(self.ignore_paths@).skip(n as int)
                =~= Seq::<IgnoreModel>::empty());
        }
        false
    }
}


impl Diff {
    /// The differing pairs among the overlapping indices of two arrays; the
    /// traversal cursor is restored on exit.
    #[verifier::loop_isolation(false)]
    fn compare_array_elements(
        &self,
        a: &Vec<Value>,
        b: &Vec<Value>,
        path: &mut Vec<PathElement>,
    ) -> (r: Vec<(usize, Difference)>)
        ensures
            final(path)@ == old(path)@,
            ix_pairs_view(r@) == spec_pairs(
                self.cfg(),
                arr_view(a@),
                arr_view(b@),
                elems_view(old(path)@),
                (if a@.len() <= b@.len() {
                    a@.len()
                } else {
                    b@.len()
                }) as int,
            ),
            arr_view(a@) == arr_view(b@) && wf_value(ValueModel::Array(arr_view(a@)))
                && json_num_parses(self.cfg().epsilon) ==> r@.len() == 0,
        decreases a, 0int, 0int,
    {
        let m = if a.len() <= b.len() {
            a.len()
        } else {
            b.len()
        };
        let mut out: Vec<(usize, Difference)> = Vec::new();
        proof {
            lemma_arr_view_len(a@);
            lemma_arr_view_len(b@);
        }
        for i in 0..m
            invariant
                path@ == old(path)@,
                ix_pairs_view(out@) == spec_pairs(
                    self.cfg(),
                    arr_view(a@),
                    arr_view(b@),
                    elems_view(old(path)@),
                    i as int,
                ),
                arr_view(a@) == arr_view(b@) && wf_value(ValueModel::Array(arr_view(a@)))
                    && json_num_parses(self.cfg().epsilon) ==> out@.len() == 0,
            decreases m - i,
        {
            let ghost path0 = path@;
            path.push(PathElement::ArrayIndex(ArrayIndex::Index(i)));
            proof {
                assert(elems_view(path@) =~= elems_view(path0).push(
                    PathElemModel::Ix(ArrayIndex::Index(i as usize)),
                ));
                lemma_arr_view_index(a@, i as int);
                lemma_arr_view_index(b@, i as int);
            }
            let d = self.values(&a[i], &b[i], path);
            path.pop();
            proof {
                assert(path@ =~= path0);
            }
            match d {
                Some(diff) => {
                    proof {
                        if arr_view(a@) == arr_view(b@) && wf_value(
                            ValueModel::Array(arr_view(a@)),
                        ) && json_num_parses(self.cfg().epsilon) {
                            lemma_wf_arr_elem(arr_view(a@), i as int);
                            assert(wf_value(arr_view(a@)[i as int]));
                            assert(a@[i as int]@ == arr_view(a@)[i as int]);
                            assert(b@[i as int]@ == arr_view(b@)[i as int]);
                            assert(false);
                        }
                    }
                    let ghost prev = out@;
                    out.push((i, diff));
                    proof {
                        assert(out@.drop_last() =~= prev);
                        assert(ix_pairs_view(out@) == ix_pairs_view(prev).push(
                            (i as usize, diff_model_of(out@.last().1)),
                        ));
                    }
                },
                None => {},
            }
        }
        out
    }

    /// Compare two arrays: pairwise differences and the length
    /// classification; see [`spec_arrays`].
    #[verifier::loop_isolation(false)]
    fn arrays(&self, a: &Vec<Value>, b: &Vec<Value>, path: &mut Vec<PathElement>) -> (r: Option<
        ArrayDifference,
    >)
        ensures
            final(path)@ == old(path)@,
            match r {
                Some(ad) => spec_arrays(
                    self.cfg(),
                    arr_view(a@),
                    arr_view(b@),
                    elems_view(old(path)@),
                ) == Some(arr_diff_model_of(ad)),
                None => spec_arrays(
                    self.cfg(),
                    arr_view(a@),
                    arr_view(b@),
                    elems_view(old(path)@),
                ) is None,
            },
            arr_view(a@) == arr_view(b@) && wf_value(ValueModel::Array(arr_view(a@)))
                && json_num_parses(self.cfg().epsilon) ==> r is None,
        decreases a, 1int, 0int,
    {
        proof {
            lemma_arr_view_len(a@);
            lemma_arr_view_len(b@);
        }
        let pairs = self.compare_array_elements(a, b, path);
        proof {
            lemma_ix_pairs_view_len(pairs@);
        }
        let has_pairs = pairs.len() > 0;
        let dp: Option<Pairs<usize, Difference>> = if has_pairs {
            Some(Pairs(pairs))
        } else {
            None
        };
        if a.len() > b.len() {
            Some(ArrayDifference::Longer { different_pairs: dp, extra_length: a.len() - b.len() })
        } else if a.len() < b.len() {
            let mut missing: Vec<Value> = Vec::new();
            let alen = a.len();
            let blen = b.len();
            for j in alen..blen
                invariant
                    missing@.len() == j - alen,
                    forall|k: int| 0 <= k < j - alen ==> missing@[k]@ == b@[alen + k]@,
                decreases blen - j,
            {
                missing.push(b[j].deep_copy());
            }
            proof {
                lemma_arr_view_len(missing@);
                assert forall|k: int| 0 <= k < missing@.len() implies #[trigger] arr_view(
                    missing@,
                )[k] == arr_view(b@).skip(alen as int)[k] by {
                    lemma_arr_view_index(missing@, k);
                    lemma_arr_view_index(b@, alen + k);
                }
                assert(arr_view(missing@) =~= arr_view(b@).skip(alen as int));
            }
            Some(ArrayDifference::Shorter { different_pairs: dp, missing_elements: missing })
        } else {
            match dp {
                Some(p) => Some(ArrayDifference::PairsOnly { different_pairs: p }),
                None => None,
            }
        }
    }

    /// Compare two objects: the source members in order, then the target's
    /// own members; see [`spec_objects`].
    #[verifier::loop_isolation(false)]
    fn objects(
        &self,
        a: &Vec<(String, Value)>,
        b: &Vec<(String, Value)>,
        path: &mut Vec<PathElement>,
    ) -> (r: Option<Pairs<String, EntryDifference>>)
        ensures
            final(path)@ == old(path)@,
            match r {
                Some(p) => spec_objects(
                    self.cfg(),
                    obj_view(a@),
                    obj_view(b@),
                    elems_view(old(path)@),
                ) == Some(entry_pairs_view(p.0@)),
                None => spec_objects(
                    self.cfg(),
                    obj_view(a@),
                    obj_view(b@),
                    elems_view(old(path)@),
                ) is None,
            },
            obj_view(a@) == obj_view(b@) && wf_value(ValueModel::Object(obj_view(a@)))
                && json_num_parses(self.cfg().epsilon) ==> r is None,
        decreases a, 1int, 0int,
    {
        proof {
            lemma_obj_view_len(a@);
            lemma_obj_view_len(b@);
        }
        let mut out: Vec<(String, EntryDifference)> = Vec::new();
        let alen = a.len();
        for i in 0..alen
            invariant
                path@ == old(path)@,
                entry_pairs_view(out@) == spec_obj_entries(
                    self.cfg(),
                    obj_view(a@),
                    obj_view(b@),
                    elems_view(old(path)@),
                    i as int,
                ),
                obj_view(a@) == obj_view(b@) && wf_value(ValueModel::Object(obj_view(a@)))
                    && json_num_parses(self.cfg().epsilon) ==> out@.len() == 0,
            decreases alen - i,
        {
            proof {
                lemma_obj_view_index(a@, i as int);
            }
            let k = &a[i].0;
            let ghost path0 = path@;
            path.push(PathElement::Key(k.clone()));
            proof {
                assert(elems_view(path@) =~= elems_view(path0).push(PathElemModel::Key(k@)));
            }
            let tv = obj_get(b, k);
            let has = tv.is_some();
            if self.ignore_path(path, has) {
                // exempt: contributes nothing
            } else {
                match tv {
                    None => {
                        proof {
                            if obj_view(a@) == obj_view(b@) && wf_value(
                                ValueModel::Object(obj_view(a@)),
                            ) {
                                assert forall|j2: int| 0 <= j2 < i implies (#[trigger] obj_view(
                                    a@,
                                )[j2].0) != obj_view(a@)[i as int].0 by {
                                    lemma_wf_obj_distinct(obj_view(a@), j2, i as int);
                                }
                                lemma_obj_lookup_at(obj_view(a@), i as int);
                                assert(false);
                            }
                        }
                        let ghost prev = out@;
                        out.push(
                            (k.clone(), EntryDifference::Extra { value: a[i].1.deep_copy() }),
                        );
                        proof {
                            assert(out@.drop_last() =~= prev);
                            assert(entry_pairs_view(out@) == entry_pairs_view(prev).push(
                                (k@, entry_diff_model_of(out@.last().1)),
                            ));
                        }
                    },
                    Some(t) => {
                        match self.values(&a[i].1, t, path) {
                            Some(d) => {
                                proof {
                                    if obj_view(a@) == obj_view(b@) && wf_value(
                                        ValueModel::Object(obj_view(a@)),
                                    ) && json_num_parses(self.cfg().epsilon) {
                                        assert forall|j2: int| 0 <= j2 < i implies (
                                        #[trigger] obj_view(a@)[j2].0) != obj_view(
                                            a@,
                                        )[i as int].0 by {
                                            lemma_wf_obj_distinct(obj_view(a@), j2, i as int);
                                        }
                                        lemma_obj_lookup_at(obj_view(a@), i as int);
                                        lemma_wf_obj_elem(obj_view(a@), i as int);
                                        assert(wf_value(obj_view(a@)[i as int].1));
                                        assert(a@[i as int].1@ == obj_view(a@)[i as int].1);
                                        assert(false);
                                    }
                                }
                                let ghost prev = out@;
                                out.push(
                                    (k.clone(), EntryDifference::Value { value_diff: d }),
                                );
                                proof {
                                    assert(out@.drop_last() =~= prev);
                                    assert(entry_pairs_view(out@) == entry_pairs_view(prev).push(
                                        (k@, entry_diff_model_of(out@.last().1)),
                                    ));
                                }
                            },
                            None => {},
                        }
                    },
                }
            }
            path.pop();
            proof {
                assert(path@ =~= path0);
            }
        }
        let blen = b.len();
        for j in 0..blen
            invariant
                path@ == old(path)@,
                entry_pairs_view(out@) == spec_obj_entries(
                    self.cfg(),
                    obj_view(a@),
                    obj_view(b@),
                    elems_view(old(path)@),
                    alen as int,
                ) + spec_missing_entries(
                    self.cfg(),
                    obj_view(a@),
                    obj_view(b@),
                    elems_view(old(path)@),
                    j as int,
                ),
                obj_view(a@) == obj_view(b@) && wf_value(ValueModel::Object(obj_view(a@)))
                    && json_num_parses(self.cfg().epsilon) ==> out@.len() == 0,
            decreases blen - j,
        {
            proof {
                lemma_obj_view_index(b@, j as int);
            }
            let k = &b[j].0;
            let in_source = match obj_get(a, k) {
                Some(_) => true,
                None => false,
            };
            if !in_source {
                let ghost path0 = path@;
                path.push(PathElement::Key(k.clone()));
                proof {
                    assert(elems_view(path@) =~= elems_view(path0).push(PathElemModel::Key(k@)));
                }
                let ig = self.ignore_path(path, false);
                path.pop();
                proof {
                    assert(path@ =~= path0);
                }
                if !ig {
                    proof {
                        if obj_view(a@) == obj_view(b@) && wf_value(
                            ValueModel::Object(obj_view(a@)),
                        ) {
                            assert forall|j2: int| 0 <= j2 < j implies (#[trigger] obj_view(
                                b@,
                            )[j2].0) != obj_view(b@)[j as int].0 by {
                                lemma_wf_obj_distinct(obj_view(b@), j2, j as int);
                            }
                            lemma_obj_lookup_at(obj_view(b@), j as int);
                            assert(false);
                        }
                    }
                    let ghost prev = out@;
                    out.push((k.clone(), EntryDifference::Missing { value: b[j].1.deep_copy() }));
                    proof {
                        assert(out@.drop_last() =~= prev);
                        assert(entry_pairs_view(out@) == entry_pairs_view(prev).push(
                            (k@, entry_diff_model_of(out@.last().1)),
                        ));
                    }
                }
            }
        }
        proof {
            lemma_entry_pairs_view_len(out@);
        }
        if out.len() == 0 {
            None
        } else {
            Some(Pairs(out))
        }
    }

    /// A type-mismatch report carrying both values.
    fn type_mismatch(&self, s: &Value, t: &Value) -> (r: Difference)
        ensures
            Some(diff_model_of(r)) == spec_type_diff(s@, t@),
    {
        Difference::Type {
            source_type: s.value_type(),
            source_value: s.deep_copy(),
            target_type: t.value_type(),
            target_value: t.deep_copy(),
        }
    }

    /// Compare two corresponding nodes with the traversal standing at
    /// `path`; see [`spec_values`].  The cursor is restored on exit.
    fn values(&self, s: &Value, t: &Value, path: &mut Vec<PathElement>) -> (r: Option<Difference>)
        ensures
            final(path)@ == old(path)@,
            opt_diff_view(r) == spec_values(self.cfg(), s@, t@, elems_view(old(path)@)),
            s@ == t@ && wf_value(s@) && json_num_parses(self.cfg().epsilon) ==> r is None,
        decreases s, 2int, 0int,
    {
        match (s, t) {
            (Value::Null, Value::Null) => None,
            (Value::Bool(a), Value::Bool(b)) => {
                if *a == *b {
                    None
                } else {
                    Some(Difference::Scalar(ScalarDifference::Bool { source: *a, target: *b }))
                }
            },
            (Value::Number(a), Value::Number(b)) => self.compare_numbers(a, b),
            (Value::String(a), Value::String(b)) => self.compare_strings(a, b),
            (Value::Array(a), Value::Array(b)) => {
                match self.arrays(a, b, path) {
                    Some(ad) => Some(Difference::Array(ad)),
                    None => None,
                }
            },
            (Value::Object(a), Value::Object(b)) => {
                match self.objects(a, b, path) {
                    Some(es) => Some(Difference::Object { different_entries: es }),
                    None => None,
                }
            },
            (Value::Array(a), Value::Null) => {
                if self.equate_empty_arrays && a.len() == 0 {
                    proof {
                        lemma_arr_view_len(a@);
                    }
                    None
                } else {
                    proof {
                        lemma_arr_view_len(a@);
                    }
                    Some(self.type_mismatch(s, t))
                }
            },
            (Value::Null, Value::Array(b)) => {
                if self.equate_empty_arrays && b.len() == 0 {
                    proof {
                        lemma_arr_view_len(b@);
                    }
                    None
                } else {
                    proof {
                        lemma_arr_view_len(b@);
                    }
                    Some(self.type_mismatch(s, t))
                }
            },
            _ => Some(self.type_mismatch(s, t)),
        }
    }

    /// Compare the configured source and target trees.  `None` means the two
    /// trees are equivalent under the configuration; a result mirrors the
    /// shape of the divergence, per [`spec_values`] at the root path.
    /// Equal trees never differ: a well-formed tree compared with itself,
    /// under a valid epsilon text and any other settings, yields `None`.
    pub fn compare(self) -> (r: Option<Difference>)
        ensures
            opt_diff_view(r) == spec_values(
                self.cfg(),
                self.source@,
                self.target@,
                Seq::<PathElemModel>::empty(),
            ),
            self.source@ == self.target@ && wf_value(self.source@) && json_num_parses(
                self.cfg().epsilon,
            ) ==> r is None,
    {
        let mut path: Vec<PathElement> = Vec::new();
        proof {
            assert(elems_view(Seq::<PathElement>::empty()) =~= Seq::<PathElemModel>::empty());
        }
        let r = self.values(&self.source, &self.target, &mut path);
        r
    }
}

} // verus!
