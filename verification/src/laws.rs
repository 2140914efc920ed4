//! General properties of the comparison engine, stated and proved against
//! the specification functions that the executable code is verified against.

use vstd::prelude::*;
use crate::value::{ValueModel, obj_lookup, obj_has_key, lemma_obj_lookup_at};
use crate::engine::{
    CfgModel, Diff, IgnoreModel, spec_values, spec_num_diff, spec_str_diff, spec_arrays,
    spec_pairs, spec_objects, spec_obj_entries, spec_missing_entries, spec_is_exempt,
    spec_find_ignore, instant_delta,
};
use crate::diffmodel::{DiffModel, ScalarDiffModel, ArrayDiffModel, EntryDiffModel};
use crate::path::{ArrayIndex, PathElemModel};
use crate::element_path_parser::{
    ParseState, ParseError, init_state, spec_step, spec_run, spec_parse, spec_index_of, all_digits,
    digits_val, dec_digits, spec_digit_char, key_needs_quotes, render_elem, spec_render,
};

verus! {

/// A well-formed tree for the specification-level laws: every object has
/// pairwise distinct keys, and no value is a float.  What the relative float
/// comparison returns is a named outside result, and the fact that it
/// accepts two equal valid floats is stated where the call is made; so
/// reflexivity over float-bearing trees is part of [`Diff::compare`]'s own
/// contract, while this specification-level law keeps to float-free trees.
pub open spec fn wf_refl(v: ValueModel) -> bool
    decreases v, 1int, 0int,
{
    match v {
        ValueModel::Number(n) => !(n is Float),
        ValueModel::Array(vs) => forall|i: int| 0 <= i < vs.len() ==> wf_refl(#[trigger] vs[i]),
        ValueModel::Object(ps) => {
            &&& forall|i: int, j: int|
                0 <= i < j < ps.len() ==> (#[trigger] ps[i].0) != (#[trigger] ps[j].0)
            &&& forall|i: int| 0 <= i < ps.len() ==> wf_refl(#[trigger] ps[i].1)
        },
        _ => true,
    }
}

proof fn lemma_refl_pairs(
    cfg: CfgModel,
    vs: Seq<ValueModel>,
    path: Seq<PathElemModel>,
    n: int,
)
    requires
        cfg.ignore.len() == 0,
        forall|i: int| 0 <= i < vs.len() ==> wf_refl(#[trigger] vs[i]),
        n <= vs.len(),
    ensures
        spec_pairs(cfg, vs, vs, path, n) == Seq::<(usize, crate::diffmodel::DiffModel)>::empty(),
    decreases vs, 0int, n,
{
    if n > 0 {
        lemma_refl_pairs(cfg, vs, path, n - 1);
        lemma_values_reflexive(
            cfg,
            vs[n - 1],
            path.push(PathElemModel::Ix(crate::path::ArrayIndex::Index((n - 1) as usize))),
        );
    }
}

proof fn lemma_refl_entries(
    cfg: CfgModel,
    ps: Seq<(Seq<char>, ValueModel)>,
    path: Seq<PathElemModel>,
    n: int,
)
    requires
        cfg.ignore.len() == 0,
        forall|i: int, j: int| 0 <= i < j < ps.len() ==> (#[trigger] ps[i].0) != (#[trigger] ps[j].0),
        forall|i: int| 0 <= i < ps.len() ==> wf_refl(#[trigger] ps[i].1),
        n <= ps.len(),
    ensures
        spec_obj_entries(cfg, ps, ps, path, n) == Seq::<
            (Seq<char>, crate::diffmodel::EntryDiffModel),
        >::empty(),
    decreases ps, 0int, n,
{
    if n > 0 {
        lemma_refl_entries(cfg, ps, path, n - 1);
        assert forall|j: int| 0 <= j < n - 1 implies (#[trigger] ps[j].0) != ps[n - 1].0 by {}
        lemma_obj_lookup_at(ps, n - 1);
        lemma_values_reflexive(cfg, ps[n - 1].1, path.push(PathElemModel::Key(ps[n - 1].0)));
    }
}

proof fn lemma_refl_missing(
    cfg: CfgModel,
    ps: Seq<(Seq<char>, ValueModel)>,
    path: Seq<PathElemModel>,
    n: int,
)
    requires
        forall|i: int, j: int| 0 <= i < j < ps.len() ==> (#[trigger] ps[i].0) != (#[trigger] ps[j].0),
        n <= ps.len(),
    ensures
        spec_missing_entries(cfg, ps, ps, path, n) == Seq::<
            (Seq<char>, crate::diffmodel::EntryDiffModel),
        >::empty(),
    decreases n,
{
    if n > 0 {
        lemma_refl_missing(cfg, ps, path, n - 1);
        lemma_obj_lookup_at(ps, n - 1);
    }
}

/// Reflexivity: with no exemptions configured, comparing a well-formed tree
/// with itself, at any cursor position and under any tolerances, yields no
/// difference.
pub proof fn lemma_values_reflexive(cfg: CfgModel, v: ValueModel, path: Seq<PathElemModel>)
    requires
        cfg.ignore.len() == 0,
        wf_refl(v),
    ensures
        spec_values(cfg, v, v, path) is None,
    decreases v, 2int, 0int,
{
    match v {
        ValueModel::Number(n) => {
            assert(spec_num_diff(cfg.epsilon, n, n) is None);
        },
        ValueModel::String(s) => {
            assert(instant_delta((0, 0), (0, 0)) == 0);
            assert(spec_str_diff(cfg.tolerance_nanos, s, s) is None);
        },
        ValueModel::Array(vs) => {
            lemma_refl_pairs(cfg, vs, path, vs.len() as int);
        },
        ValueModel::Object(ps) => {
            lemma_refl_entries(cfg, ps, path, ps.len() as int);
            lemma_refl_missing(cfg, ps, path, ps.len() as int);
            assert(spec_obj_entries(cfg, ps, ps, path, ps.len() as int) + spec_missing_entries(
                cfg,
                ps,
                ps,
                path,
                ps.len() as int,
            ) =~= Seq::<(Seq<char>, crate::diffmodel::EntryDiffModel)>::empty());
        },
        _ => {},
    }
}

/// Reflexivity at the API: a comparison configured with no exemptions, whose
/// source and target are the same well-formed tree, reports no difference;
/// [`Diff::compare`] is proved to return exactly this specification.  For
/// float-bearing trees the same conclusion, under valid float and epsilon
/// texts, is a clause of [`Diff::compare`]'s own contract.
pub proof fn lemma_compare_reflexive(d: Diff)
    requires
        d.ignore_paths@.len() == 0,
        d.source == d.target,
        wf_refl(d.source@),
    ensures
        spec_values(d.cfg(), d.source@, d.target@, Seq::<PathElemModel>::empty()) is None,
{
    lemma_values_reflexive(d.cfg(), d.source@, Seq::<PathElemModel>::empty());
}


/// A character that the parser treats as ordinary token content.
pub open spec fn plain_char(c: char) -> bool {
    c != '\'' && c != '.' && c != '[' && c != ']'
}

/// A path element as the parser can produce it: keys are non-empty and hold
/// no quote character.
pub open spec fn wf_elem(e: PathElemModel) -> bool {
    match e {
        PathElemModel::Key(k) => k.len() > 0 && (forall|j: int| 0 <= j < k.len() ==> (#[trigger] k[j]) != '\''),
        PathElemModel::Ix(_) => true,
    }
}

/// A parseable element list: non-empty, every element well-formed.
pub open spec fn wf_elems(p: Seq<PathElemModel>) -> bool {
    p.len() > 0 && (forall|i: int| 0 <= i < p.len() ==> wf_elem(#[trigger] p[i]))
}

spec fn st_wf(st: ParseState) -> bool {
    &&& forall|i: int| 0 <= i < st.elems.len() ==> wf_elem(#[trigger] st.elems[i])
    &&& forall|j: int| 0 <= j < st.cur.len() ==> (#[trigger] st.cur[j]) != '\''
}

proof fn lemma_run_wf(st: ParseState, s: Seq<char>)
    requires
        st_wf(st),
    ensures
        spec_run(st, s) matches Ok(m) ==> st_wf(m),
    decreases s.len(),
{
    if s.len() > 0 {
        lemma_run_wf(st, s.drop_last());
    }
}

/// Everything the parser returns is well-formed: non-empty, with non-empty
/// quote-free keys.
pub proof fn lemma_parse_wf(s: Seq<char>, p: Seq<PathElemModel>)
    requires
        spec_parse(s) == Ok::<Seq<PathElemModel>, ParseError>(p),
    ensures
        wf_elems(p),
{
    lemma_run_wf(init_state(), s);
}

proof fn lemma_run_one(st: ParseState, c: char)
    ensures
        spec_run(st, seq![c]) == spec_step(st, c),
{
    reveal_with_fuel(spec_run, 2);
    assert(seq![c].drop_last() =~= Seq::<char>::empty());
    assert(seq![c].last() == c);
}

proof fn lemma_run_concat(st: ParseState, s1: Seq<char>, s2: Seq<char>)
    ensures
        spec_run(st, s1 + s2) == (match spec_run(st, s1) {
            Ok(m) => spec_run(m, s2),
            Err(e) => Err(e),
        }),
    decreases s2.len(),
{
    if s2.len() == 0 {
        assert(s1 + s2 =~= s1);
    } else {
        lemma_run_concat(st, s1, s2.drop_last());
        assert((s1 + s2).drop_last() =~= s1 + s2.drop_last());
        assert((s1 + s2).last() == s2.last());
    }
}

proof fn lemma_run_plain(st: ParseState, cs: Seq<char>)
    requires
        !st.in_quotes,
        forall|i: int| 0 <= i < cs.len() ==> plain_char(#[trigger] cs[i]),
    ensures
        spec_run(st, cs) == Ok::<ParseState, ParseError>(
            ParseState {
                elems: st.elems,
                cur: st.cur + cs,
                in_quotes: st.in_quotes,
                in_brackets: st.in_brackets,
            },
        ),
    decreases cs.len(),
{
    if cs.len() == 0 {
        assert(st.cur + cs =~= st.cur);
    } else {
        lemma_run_plain(st, cs.drop_last());
        assert((st.cur + cs.drop_last()).push(cs.last()) =~= st.cur + cs);
    }
}

proof fn lemma_run_quoted(st: ParseState, cs: Seq<char>)
    requires
        st.in_quotes,
        forall|i: int| 0 <= i < cs.len() ==> (#[trigger] cs[i]) != '\'',
    ensures
        spec_run(st, cs) == Ok::<ParseState, ParseError>(
            ParseState {
                elems: st.elems,
                cur: st.cur + cs,
                in_quotes: st.in_quotes,
                in_brackets: st.in_brackets,
            },
        ),
    decreases cs.len(),
{
    if cs.len() == 0 {
        assert(st.cur + cs =~= st.cur);
    } else {
        lemma_run_quoted(st, cs.drop_last());
        assert((st.cur + cs.drop_last()).push(cs.last()) =~= st.cur + cs);
    }
}

proof fn lemma_dec_digits(n: int)
    requires
        0 <= n,
    ensures
        dec_digits(n).len() >= 1,
        all_digits(dec_digits(n)),
        digits_val(dec_digits(n)) == n,
        forall|i: int|
            0 <= i < dec_digits(n).len() ==> plain_char(#[trigger] dec_digits(n)[i]) && dec_digits(
                n,
            )[i] != '_',
    decreases n,
{
    if n < 10 {
        let d = dec_digits(n);
        assert(d =~= seq![spec_digit_char(n)]);
        assert(d.drop_last() =~= Seq::<char>::empty());
        assert('0' as u32 <= spec_digit_char(n) as u32 <= '9' as u32);
        assert(spec_digit_char(n) as u32 - '0' as u32 == n);
        assert(plain_char(spec_digit_char(n)) && spec_digit_char(n) != '_');
        assert(digits_val(d) == digits_val(d.drop_last()) * 10 + (d.last() as u32 - '0' as u32));
    } else {
        lemma_dec_digits(n / 10);
        let d = dec_digits(n);
        let pfx = dec_digits(n / 10);
        assert(d == pfx.push(spec_digit_char(n % 10)));
        assert(d.drop_last() =~= pfx);
        assert('0' as u32 <= spec_digit_char(n % 10) as u32 <= '9' as u32);
        assert(spec_digit_char(n % 10) as u32 - '0' as u32 == n % 10);
        assert(plain_char(spec_digit_char(n % 10)) && spec_digit_char(n % 10) != '_');
        assert(digits_val(d) == digits_val(pfx) * 10 + (n % 10));
        assert((n / 10) * 10 + (n % 10) == n) by (nonlinear_arith)
            requires
                n >= 10,
        ;
        assert forall|i: int| 0 <= i < d.len() implies plain_char(#[trigger] d[i]) && d[i] != '_' by {
            if i < pfx.len() {
                assert(d[i] == pfx[i]);
            }
        }
        assert forall|i: int|
            0 <= i < d.len() implies '0' as u32 <= #[trigger] (d[i] as u32) <= '9' as u32 by {
            if i < pfx.len() {
                assert(d[i] == pfx[i]);
            }
        }
    }
}

/// The state after one rendered element read from a clean state: a bare key
/// stays pending in the token buffer, anything else is appended to the
/// element list.
spec fn elem_end_state(st: ParseState, e: PathElemModel) -> ParseState {
    match e {
        PathElemModel::Key(k) => if !key_needs_quotes(k) {
            ParseState { elems: st.elems, cur: k, in_quotes: false, in_brackets: false }
        } else {
            ParseState {
                elems: st.elems.push(e),
                cur: Seq::empty(),
                in_quotes: false,
                in_brackets: false,
            }
        },
        PathElemModel::Ix(_) => ParseState {
            elems: st.elems.push(e),
            cur: Seq::empty(),
            in_quotes: false,
            in_brackets: false,
        },
    }
}

proof fn lemma_run_elem(st: ParseState, e: PathElemModel)
    requires
        !st.in_quotes,
        !st.in_brackets,
        st.cur.len() == 0,
        wf_elem(e),
    ensures
        spec_run(st, render_elem(e)) == Ok::<ParseState, ParseError>(elem_end_state(st, e)),
        render_elem(e).len() >= 1,
{
    match e {
        PathElemModel::Key(k) => {
            if !key_needs_quotes(k) {
                assert forall|i: int| 0 <= i < k.len() implies plain_char(#[trigger] k[i]) by {
                    assert(k[i] != '\'');
                }
                lemma_run_plain(st, k);
                assert(st.cur + k =~= k);
            } else {
                let opened = ParseState {
                    elems: st.elems,
                    cur: st.cur,
                    in_quotes: true,
                    in_brackets: st.in_brackets,
                };
                assert(render_elem(e) =~= (seq!['\''] + k) + seq!['\'']);
                lemma_run_concat(st, seq!['\''] + k, seq!['\'']);
                lemma_run_concat(st, seq!['\''], k);
                lemma_run_one(st, '\'');
                lemma_run_quoted(opened, k);
                assert(opened.cur + k =~= k);
                lemma_run_one(
                    ParseState {
                        elems: st.elems,
                        cur: k,
                        in_quotes: true,
                        in_brackets: st.in_brackets,
                    },
                    '\'',
                );
                assert(seq!['\''] + k + seq!['\''] =~= (seq!['\''] + k) + seq!['\'']);
            }
        },
        PathElemModel::Ix(ArrayIndex::Index(n)) => {
            lemma_dec_digits(n as int);
            let ds = dec_digits(n as int);
            assert(render_elem(e) =~= (seq!['['] + ds) + seq![']']);
            lemma_run_concat(st, seq!['['] + ds, seq![']']);
            lemma_run_concat(st, seq!['['], ds);
            lemma_run_one(st, '[');
            let inb = ParseState {
                elems: st.elems,
                cur: Seq::empty(),
                in_quotes: false,
                in_brackets: true,
            };
            assert(spec_step(st, '[') == Ok::<ParseState, ParseError>(inb));
            lemma_run_plain(inb, ds);
            assert(inb.cur + ds =~= ds);
            let filled = ParseState {
                elems: st.elems,
                cur: ds,
                in_quotes: false,
                in_brackets: true,
            };
            lemma_run_one(filled, ']');
            assert(ds != seq!['_']) by {
                assert(ds[0] != '_');
            }
            assert(spec_index_of(ds) == Some(n));
        },
        PathElemModel::Ix(ArrayIndex::All) => {
            assert(render_elem(e) =~= (seq!['['] + seq!['_']) + seq![']']);
            lemma_run_concat(st, seq!['['] + seq!['_'], seq![']']);
            lemma_run_concat(st, seq!['['], seq!['_']);
            lemma_run_one(st, '[');
            let inb = ParseState {
                elems: st.elems,
                cur: Seq::empty(),
                in_quotes: false,
                in_brackets: true,
            };
            assert(spec_step(st, '[') == Ok::<ParseState, ParseError>(inb));
            lemma_run_plain(inb, seq!['_']);
            assert(inb.cur + seq!['_'] =~= seq!['_']);
            let filled = ParseState {
                elems: st.elems,
                cur: seq!['_'],
                in_quotes: false,
                in_brackets: true,
            };
            lemma_run_one(filled, ']');
        },
    }
}

/// The state after a whole rendered path read from a clean state.
spec fn render_end_state(elems0: Seq<PathElemModel>, p: Seq<PathElemModel>) -> ParseState {
    match p.last() {
        PathElemModel::Key(k) => if !key_needs_quotes(k) {
            ParseState {
                elems: elems0 + p.drop_last(),
                cur: k,
                in_quotes: false,
                in_brackets: false,
            }
        } else {
            ParseState { elems: elems0 + p, cur: Seq::empty(), in_quotes: false, in_brackets: false }
        },
        PathElemModel::Ix(_) => ParseState {
            elems: elems0 + p,
            cur: Seq::empty(),
            in_quotes: false,
            in_brackets: false,
        },
    }
}

proof fn lemma_run_render(st: ParseState, p: Seq<PathElemModel>)
    requires
        !st.in_quotes,
        !st.in_brackets,
        st.cur.len() == 0,
        p.len() >= 1,
        forall|i: int| 0 <= i < p.len() ==> wf_elem(#[trigger] p[i]),
    ensures
        spec_run(st, spec_render(p)) == Ok::<ParseState, ParseError>(render_end_state(st.elems, p)),
        spec_render(p).len() >= 1,
    decreases p.len(),
{
    if p.len() == 1 {
        lemma_run_elem(st, p[0]);
        assert(p.drop_last() =~= Seq::<PathElemModel>::empty());
        assert(st.elems + Seq::<PathElemModel>::empty() =~= st.elems);
        assert(st.elems + p =~= st.elems.push(p[0]));
    } else {
        let pfx = p.drop_last();
        let e = p.last();
        lemma_run_render(st, pfx);
        assert(spec_render(p) == spec_render(pfx) + seq!['.'] + render_elem(e));
        assert(spec_render(p) =~= spec_render(pfx) + (seq!['.'] + render_elem(e)));
        lemma_run_concat(st, spec_render(pfx), seq!['.'] + render_elem(e));
        let m = render_end_state(st.elems, pfx);
        lemma_run_concat(m, seq!['.'], render_elem(e));
        lemma_run_one(m, '.');
        let clean = ParseState {
            elems: st.elems + pfx,
            cur: Seq::empty(),
            in_quotes: false,
            in_brackets: false,
        };
        assert(spec_step(m, '.') == Ok::<ParseState, ParseError>(clean)) by {
            match pfx.last() {
                PathElemModel::Key(k) => {
                    if !key_needs_quotes(k) {
                        assert(m.cur == k);
                        assert(k.len() > 0);
                        assert((st.elems + pfx.drop_last()).push(PathElemModel::Key(k)) =~= st.elems
                            + pfx);
                    } else {
                        assert((st.elems + pfx).len() > 0);
                    }
                },
                PathElemModel::Ix(_) => {
                    assert((st.elems + pfx).len() > 0);
                },
            }
        }
        lemma_run_elem(clean, e);
        assert(elem_end_state(clean, e) == render_end_state(st.elems, p)) by {
            assert(clean.elems + Seq::<PathElemModel>::empty() =~= clean.elems);
            assert(st.elems + pfx =~= st.elems + p.drop_last());
            assert((st.elems + pfx).push(e) =~= st.elems + p);
        }
    }
}

/// Round trip: a path obtained from parsing, rendered back to text and
/// parsed again, is the same path.
pub proof fn lemma_parse_render_round_trip(s: Seq<char>, p: Seq<PathElemModel>)
    requires
        spec_parse(s) == Ok::<Seq<PathElemModel>, ParseError>(p),
    ensures
        spec_parse(spec_render(p)) == Ok::<Seq<PathElemModel>, ParseError>(p),
{
    lemma_parse_wf(s, p);
    lemma_render_round_trip(p);
}

/// Round trip from the element side: any well-formed path renders to a text
/// that parses back to it.
pub proof fn lemma_render_round_trip(p: Seq<PathElemModel>)
    requires
        wf_elems(p),
    ensures
        spec_parse(spec_render(p)) == Ok::<Seq<PathElemModel>, ParseError>(p),
{
    lemma_run_render(init_state(), p);
    let st = render_end_state(Seq::empty(), p);
    match p.last() {
        PathElemModel::Key(k) => {
            if !key_needs_quotes(k) {
                assert(st.cur == k && k.len() > 0);
                assert((Seq::<PathElemModel>::empty() + p.drop_last()).push(PathElemModel::Key(k))
                    =~= p);
            } else {
                assert(Seq::<PathElemModel>::empty() + p =~= p);
            }
        },
        PathElemModel::Ix(_) => {
            assert(Seq::<PathElemModel>::empty() + p =~= p);
        },
    }
}


/// An exemption list with no conditional entries.
pub open spec fn no_conditions(igs: Seq<IgnoreModel>) -> bool {
    forall|i: int| 0 <= i < igs.len() ==> (#[trigger] igs[i]).condition is None
}

/// The same configuration with source and target exchanged.
pub open spec fn cfg_swap(cfg: CfgModel) -> CfgModel {
    CfgModel {
        ignore: cfg.ignore,
        equate_empty_arrays: cfg.equate_empty_arrays,
        epsilon: cfg.epsilon,
        tolerance_nanos: cfg.tolerance_nanos,
        source: cfg.target,
        target: cfg.source,
    }
}

/// Whether two scalar divergences are each other's swap.
pub open spec fn scalar_mirrored(a: ScalarDiffModel, b: ScalarDiffModel) -> bool {
    match (a, b) {
        (
            ScalarDiffModel::Bool { source: s1, target: t1 },
            ScalarDiffModel::Bool { source: s2, target: t2 },
        ) => s2 == t1 && t2 == s1,
        (
            ScalarDiffModel::String { source: s1, target: t1 },
            ScalarDiffModel::String { source: s2, target: t2 },
        ) => s2 == t1 && t2 == s1,
        (
            ScalarDiffModel::Number { source: s1, target: t1 },
            ScalarDiffModel::Number { source: s2, target: t2 },
        ) => s2 == t1 && t2 == s1,
        _ => false,
    }
}

/// Whether two divergences are each other's swap: sources and targets are
/// exchanged, every `Missing` answers an `Extra` and conversely, and a
/// `Longer` answers a `Shorter` whose counts agree.
pub open spec fn mirrored(d: DiffModel, e: DiffModel) -> bool
    decreases d, 3int, 0int,
{
    match (d, e) {
        (DiffModel::Scalar(a), DiffModel::Scalar(b)) => scalar_mirrored(a, b),
        (
            DiffModel::Type { source_type: st1, source_value: sv1, target_type: tt1, target_value: tv1 },
            DiffModel::Type { source_type: st2, source_value: sv2, target_type: tt2, target_value: tv2 },
        ) => st2 == tt1 && sv2 == tv1 && tt2 == st1 && tv2 == sv1,
        (DiffModel::Array(a), DiffModel::Array(b)) => arr_mirrored(a, b),
        (
            DiffModel::Object { different_entries: es1 },
            DiffModel::Object { different_entries: es2 },
        ) => entries_mirrored(es1, es2),
        _ => false,
    }
}

/// Whether two indexed pair lists carry the same indices with swapped
/// divergences, position by position.
pub open spec fn pairs_mirrored(
    ps: Seq<(usize, DiffModel)>,
    qs: Seq<(usize, DiffModel)>,
) -> bool
    decreases ps, 1int, 0int,
{
    ps.len() == qs.len() && (forall|i: int|
        0 <= i < ps.len() ==> (#[trigger] qs[i]).0 == ps[i].0 && mirrored(ps[i].1, qs[i].1))
}

/// Whether two optional pair lists are mirrored.
pub open spec fn opt_pairs_mirrored(
    ps: Option<Seq<(usize, DiffModel)>>,
    qs: Option<Seq<(usize, DiffModel)>>,
) -> bool
    decreases ps, 2int, 0int,
{
    match (ps, qs) {
        (None, None) => true,
        (Some(p), Some(q)) => pairs_mirrored(p, q),
        _ => false,
    }
}

/// Whether two array divergences are each other's swap.
pub open spec fn arr_mirrored(a: ArrayDiffModel, b: ArrayDiffModel) -> bool
    decreases a, 3int, 0int,
{
    match (a, b) {
        (
            ArrayDiffModel::PairsOnly { different_pairs: p1 },
            ArrayDiffModel::PairsOnly { different_pairs: p2 },
        ) => pairs_mirrored(p1, p2),
        (
            ArrayDiffModel::Shorter { different_pairs: p1, missing_elements: miss },
            ArrayDiffModel::Longer { different_pairs: p2, extra_length: extra },
        ) => opt_pairs_mirrored(p1, p2) && extra == miss.len() as usize,
        (
            ArrayDiffModel::Longer { different_pairs: p1, extra_length: extra },
            ArrayDiffModel::Shorter { different_pairs: p2, missing_elements: miss },
        ) => opt_pairs_mirrored(p1, p2) && extra == miss.len() as usize,
        _ => false,
    }
}

/// Whether two member divergences are each other's swap.
pub open spec fn entry_mirrored(a: EntryDiffModel, b: EntryDiffModel) -> bool
    decreases a, 4int, 0int,
{
    match (a, b) {
        (EntryDiffModel::Missing { value: v }, EntryDiffModel::Extra { value: w }) => w == v,
        (EntryDiffModel::Extra { value: v }, EntryDiffModel::Missing { value: w }) => w == v,
        (
            EntryDiffModel::Value { value_diff: d },
            EntryDiffModel::Value { value_diff: e },
        ) => mirrored(d, e),
        _ => false,
    }
}

/// Whether some entry of the list under the given key mirrors the given
/// divergence, which stands on the source side.
pub open spec fn has_mirror(
    es2: Seq<(Seq<char>, EntryDiffModel)>,
    k: Seq<char>,
    e: EntryDiffModel,
) -> bool
    decreases e, 5int, 0int,
{
    exists|m2: int|
        0 <= m2 < es2.len() && (#[trigger] es2[m2]).0 == k && entry_mirrored(e, es2[m2].1)
}

/// Whether some entry of the list under the given key is mirrored by the
/// given divergence, which stands on the swapped side.
pub open spec fn has_mirror_rev(
    es1: Seq<(Seq<char>, EntryDiffModel)>,
    k: Seq<char>,
    e: EntryDiffModel,
) -> bool
    decreases es1, 5int, 0int,
{
    exists|m: int|
        0 <= m < es1.len() && (#[trigger] es1[m]).0 == k && entry_mirrored(es1[m].1, e)
}

/// Every entry of the first list answers an entry for the same key in the
/// second, with the divergences swapped.
pub open spec fn entries_covered(
    es1: Seq<(Seq<char>, EntryDiffModel)>,
    es2: Seq<(Seq<char>, EntryDiffModel)>,
) -> bool
    decreases es1, 6int, 0int,
{
    forall|m: int| 0 <= m < es1.len() ==> has_mirror(es2, (#[trigger] es1[m]).0, es1[m].1)
}

/// Every entry of the second list is answered by an entry for the same key
/// in the first, with the divergences swapped.
pub open spec fn entries_covered_rev(
    es1: Seq<(Seq<char>, EntryDiffModel)>,
    es2: Seq<(Seq<char>, EntryDiffModel)>,
) -> bool
    decreases es1, 6int, 0int,
{
    forall|m2: int| 0 <= m2 < es2.len() ==> has_mirror_rev(es1, (#[trigger] es2[m2]).0, es2[m2].1)
}

/// Whether two member divergence lists are each other's swap: every entry of
/// either list answers an entry for the same key in the other, with the
/// divergences swapped.
pub open spec fn entries_mirrored(
    es1: Seq<(Seq<char>, EntryDiffModel)>,
    es2: Seq<(Seq<char>, EntryDiffModel)>,
) -> bool
    decreases es1, 7int, 0int,
{
    entries_covered(es1, es2) && entries_covered_rev(es1, es2)
}

/// Whether two optional comparison results are each other's swap.
pub open spec fn mirrored_opt(a: Option<DiffModel>, b: Option<DiffModel>) -> bool {
    match (a, b) {
        (None, None) => true,
        (Some(d), Some(e)) => mirrored(d, e),
        _ => false,
    }
}

proof fn lemma_find_ignore_some_in(igs: Seq<IgnoreModel>, path: Seq<PathElemModel>)
    ensures
        spec_find_ignore(igs, path) matches Some(ig) ==> exists|i: int|
            0 <= i < igs.len() && igs[i] == ig,
    decreases igs.len(),
{
    if igs.len() > 0 {
        lemma_find_ignore_some_in(igs.drop_first(), path);
        if let Some(ig) = spec_find_ignore(igs, path) {
            if !crate::path::path_matches(igs[0].pattern, path) {
                let i = choose|i: int|
                    0 <= i < igs.drop_first().len() && igs.drop_first()[i] == ig;
                assert(igs[i + 1] == ig);
            }
        }
    }
}

proof fn lemma_sym_exempt(cfg: CfgModel, path: Seq<PathElemModel>, has_key: bool)
    requires
        no_conditions(cfg.ignore),
    ensures
        spec_is_exempt(cfg_swap(cfg), path, has_key) == spec_is_exempt(cfg, path, has_key),
{
    lemma_find_ignore_some_in(cfg.ignore, path);
}

proof fn lemma_sym_pairs(
    cfg: CfgModel,
    a: Seq<ValueModel>,
    b: Seq<ValueModel>,
    path: Seq<PathElemModel>,
    n: int,
)
    requires
        no_conditions(cfg.ignore),
        forall|i: int| 0 <= i < a.len() ==> wf_refl(#[trigger] a[i]),
        forall|i: int| 0 <= i < b.len() ==> wf_refl(#[trigger] b[i]),
    ensures
        ({
            let ps = spec_pairs(cfg, a, b, path, n);
            let qs = spec_pairs(cfg_swap(cfg), b, a, path, n);
            ps.len() == qs.len() && (forall|m: int|
                0 <= m < ps.len() ==> (#[trigger] qs[m]).0 == ps[m].0 && mirrored(
                    ps[m].1,
                    qs[m].1,
                ))
        }),
    decreases a, 0int, n,
{
    if n > 0 {
        lemma_sym_pairs(cfg, a, b, path, n - 1);
        if n <= a.len() && n <= b.len() {
            lemma_sym_values(
                cfg,
                a[n - 1],
                b[n - 1],
                path.push(PathElemModel::Ix(ArrayIndex::Index((n - 1) as usize))),
            );
        }
    }
}

#[verifier::rlimit(100)]
#[verifier::spinoff_prover]
proof fn lemma_sym_arrays(
    cfg: CfgModel,
    a: Seq<ValueModel>,
    b: Seq<ValueModel>,
    path: Seq<PathElemModel>,
)
    requires
        no_conditions(cfg.ignore),
        forall|i: int| 0 <= i < a.len() ==> wf_refl(#[trigger] a[i]),
        forall|i: int| 0 <= i < b.len() ==> wf_refl(#[trigger] b[i]),
    ensures
        ({
            let r1 = spec_arrays(cfg, a, b, path);
            let r2 = spec_arrays(cfg_swap(cfg), b, a, path);
            match (r1, r2) {
                (None, None) => true,
                (Some(d), Some(e)) => arr_mirrored(d, e),
                _ => false,
            }
        }),
    decreases a, 1int, 0int,
{
    let m = if a.len() <= b.len() {
        a.len() as int
    } else {
        b.len() as int
    };
    lemma_sym_pairs(cfg, a, b, path, m);
    if a.len() < b.len() {
        assert(b.skip(a.len() as int).len() == b.len() - a.len());
    } else if a.len() > b.len() {
        assert(a.skip(b.len() as int).len() == a.len() - b.len());
    }
}

#[verifier::rlimit(100)]
#[verifier::spinoff_prover]
proof fn lemma_sym_values(cfg: CfgModel, s: ValueModel, t: ValueModel, path: Seq<PathElemModel>)
    requires
        no_conditions(cfg.ignore),
        wf_refl(s),
        wf_refl(t),
    ensures
        mirrored_opt(spec_values(cfg, s, t, path), spec_values(cfg_swap(cfg), t, s, path)),
    decreases s, 2int, 0int,
{
    match (s, t) {
        (ValueModel::Number(a), ValueModel::Number(b)) => {},
        (ValueModel::String(a), ValueModel::String(b)) => {
            if cfg.tolerance_nanos != 0 {
                match (crate::ext::rfc3339_instant_of(a), crate::ext::rfc3339_instant_of(b)) {
                    (Some(x), Some(y)) => {
                        assert(instant_delta(x, y) == instant_delta(y, x));
                    },
                    _ => {},
                }
            }
        },
        (ValueModel::Array(a), ValueModel::Array(b)) => {
            lemma_sym_arrays(cfg, a, b, path);
        },
        (ValueModel::Object(a), ValueModel::Object(b)) => {
            lemma_sym_objects(cfg, a, b, path);
        },
        _ => {},
    }
}

spec fn entries_concat(
    cfg: CfgModel,
    a: Seq<(Seq<char>, ValueModel)>,
    b: Seq<(Seq<char>, ValueModel)>,
    path: Seq<PathElemModel>,
) -> Seq<(Seq<char>, EntryDiffModel)> {
    spec_obj_entries(cfg, a, b, path, a.len() as int) + spec_missing_entries(
        cfg,
        a,
        b,
        path,
        b.len() as int,
    )
}

#[verifier::rlimit(100)]
#[verifier::spinoff_prover]
proof fn lemma_fwd_witness_src_extra(
    cfg: CfgModel,
    a: Seq<(Seq<char>, ValueModel)>,
    b: Seq<(Seq<char>, ValueModel)>,
    path: Seq<PathElemModel>,
    i: int,
)
    requires
        no_conditions(cfg.ignore),
        0 <= i < a.len(),
        src_entry(cfg, a, b, path, i) is Some,
        src_entry(cfg, a, b, path, i)->Some_0.1 is Extra,
    ensures
        ({
            let x = src_entry(cfg, a, b, path, i)->Some_0;
            has_mirror(entries_concat(cfg_swap(cfg), b, a, path), x.0, x.1)
        }),
{
    let cfg2 = cfg_swap(cfg);
    let x = src_entry(cfg, a, b, path, i)->Some_0;
    let e2 = entries_concat(cfg2, b, a, path);
    let n2 = spec_obj_entries(cfg2, b, a, path, b.len() as int).len();
    let k = a[i].0;
    let child = path.push(PathElemModel::Key(k));
    lemma_sym_exempt(cfg, child, false);
    assert(miss_entry(cfg2, b, a, path, i) == Some((k, EntryDiffModel::Missing { value: a[i].1 })));
    lemma_miss_entries_member(cfg2, b, a, path, a.len() as int);
    let miss2 = spec_missing_entries(cfg2, b, a, path, a.len() as int);
    let w = miss_entry(cfg2, b, a, path, i)->Some_0;
    let m = choose|m: int| 0 <= m < miss2.len() && #[trigger] miss2[m] == w;
    assert(e2[n2 + m] == w);
    assert(entry_mirrored(x.1, w.1));
}

#[verifier::rlimit(100)]
#[verifier::spinoff_prover]
proof fn lemma_fwd_witness_src_value(
    cfg: CfgModel,
    a: Seq<(Seq<char>, ValueModel)>,
    b: Seq<(Seq<char>, ValueModel)>,
    path: Seq<PathElemModel>,
    i: int,
)
    requires
        no_conditions(cfg.ignore),
        forall|i2: int, j2: int|
            0 <= i2 < j2 < a.len() ==> (#[trigger] a[i2].0) != (#[trigger] a[j2].0),
        forall|i2: int| 0 <= i2 < a.len() ==> wf_refl(#[trigger] a[i2].1),
        forall|i2: int, j2: int|
            0 <= i2 < j2 < b.len() ==> (#[trigger] b[i2].0) != (#[trigger] b[j2].0),
        forall|i2: int| 0 <= i2 < b.len() ==> wf_refl(#[trigger] b[i2].1),
        0 <= i < a.len(),
        src_entry(cfg, a, b, path, i) is Some,
        src_entry(cfg, a, b, path, i)->Some_0.1 is Value,
    ensures
        ({
            let x = src_entry(cfg, a, b, path, i)->Some_0;
            has_mirror(entries_concat(cfg_swap(cfg), b, a, path), x.0, x.1)
        }),
    decreases a, 1int, 0int,
{
    let cfg2 = cfg_swap(cfg);
    let x = src_entry(cfg, a, b, path, i)->Some_0;
    let e2 = entries_concat(cfg2, b, a, path);
    let k = a[i].0;
    let child = path.push(PathElemModel::Key(k));
    let tv = obj_lookup(b, k)->Some_0;
    lemma_obj_lookup_index(b, k);
    let j = choose|j: int| 0 <= j < b.len() && (#[trigger] b[j]).0 == k && b[j].1 == tv;
    assert forall|j2: int| 0 <= j2 < i implies (#[trigger] a[j2].0) != k by {}
    lemma_obj_lookup_at(a, i);
    lemma_sym_exempt(cfg, child, true);
    lemma_sym_values(cfg, a[i].1, tv, child);
    let w = src_entry(cfg2, b, a, path, j)->Some_0;
    assert(w.0 == k && entry_mirrored(x.1, w.1));
    lemma_src_entries_member(cfg2, b, a, path, b.len() as int);
    let src2 = spec_obj_entries(cfg2, b, a, path, b.len() as int);
    let m = choose|m: int| 0 <= m < src2.len() && #[trigger] src2[m] == w;
    assert(e2[m] == w);
}

#[verifier::rlimit(100)]
#[verifier::spinoff_prover]
proof fn lemma_fwd_witness_miss(
    cfg: CfgModel,
    a: Seq<(Seq<char>, ValueModel)>,
    b: Seq<(Seq<char>, ValueModel)>,
    path: Seq<PathElemModel>,
    j: int,
)
    requires
        no_conditions(cfg.ignore),
        0 <= j < b.len(),
        miss_entry(cfg, a, b, path, j) is Some,
    ensures
        ({
            let x = miss_entry(cfg, a, b, path, j)->Some_0;
            has_mirror(entries_concat(cfg_swap(cfg), b, a, path), x.0, x.1)
        }),
{
    let cfg2 = cfg_swap(cfg);
    let x = miss_entry(cfg, a, b, path, j)->Some_0;
    let e2 = entries_concat(cfg2, b, a, path);
    lemma_sym_miss_entry(cfg, a, b, path, j);
    lemma_src_entries_member(cfg2, b, a, path, b.len() as int);
    let w = src_entry(cfg2, b, a, path, j)->Some_0;
    let m = choose|m: int|
        0 <= m < spec_obj_entries(cfg2, b, a, path, b.len() as int).len()
            && #[trigger] spec_obj_entries(cfg2, b, a, path, b.len() as int)[m] == w;
    assert(e2[m] == w);
}

#[verifier::rlimit(100)]
#[verifier::spinoff_prover]
proof fn lemma_bwd_witness_src_extra(
    cfg: CfgModel,
    a: Seq<(Seq<char>, ValueModel)>,
    b: Seq<(Seq<char>, ValueModel)>,
    path: Seq<PathElemModel>,
    j: int,
)
    requires
        no_conditions(cfg.ignore),
        0 <= j < b.len(),
        src_entry(cfg_swap(cfg), b, a, path, j) is Some,
        src_entry(cfg_swap(cfg), b, a, path, j)->Some_0.1 is Extra,
    ensures
        ({
            let x = src_entry(cfg_swap(cfg), b, a, path, j)->Some_0;
            has_mirror_rev(entries_concat(cfg, a, b, path), x.0, x.1)
        }),
{
    let cfg2 = cfg_swap(cfg);
    let x = src_entry(cfg2, b, a, path, j)->Some_0;
    let e1 = entries_concat(cfg, a, b, path);
    let n1 = spec_obj_entries(cfg, a, b, path, a.len() as int).len();
    let k = b[j].0;
    let child = path.push(PathElemModel::Key(k));
    lemma_sym_exempt(cfg, child, false);
    assert(miss_entry(cfg, a, b, path, j) == Some((k, EntryDiffModel::Missing { value: b[j].1 })));
    lemma_miss_entries_member(cfg, a, b, path, b.len() as int);
    let miss1 = spec_missing_entries(cfg, a, b, path, b.len() as int);
    let w = miss_entry(cfg, a, b, path, j)->Some_0;
    let m = choose|m: int| 0 <= m < miss1.len() && #[trigger] miss1[m] == w;
    assert(e1[n1 + m] == w);
    assert(entry_mirrored(w.1, x.1));
}

#[verifier::rlimit(100)]
#[verifier::spinoff_prover]
proof fn lemma_bwd_witness_src_value(
    cfg: CfgModel,
    a: Seq<(Seq<char>, ValueModel)>,
    b: Seq<(Seq<char>, ValueModel)>,
    path: Seq<PathElemModel>,
    j: int,
)
    requires
        no_conditions(cfg.ignore),
        forall|i2: int, j2: int|
            0 <= i2 < j2 < a.len() ==> (#[trigger] a[i2].0) != (#[trigger] a[j2].0),
        forall|i2: int| 0 <= i2 < a.len() ==> wf_refl(#[trigger] a[i2].1),
        forall|i2: int, j2: int|
            0 <= i2 < j2 < b.len() ==> (#[trigger] b[i2].0) != (#[trigger] b[j2].0),
        forall|i2: int| 0 <= i2 < b.len() ==> wf_refl(#[trigger] b[i2].1),
        0 <= j < b.len(),
        src_entry(cfg_swap(cfg), b, a, path, j) is Some,
        src_entry(cfg_swap(cfg), b, a, path, j)->Some_0.1 is Value,
    ensures
        ({
            let x = src_entry(cfg_swap(cfg), b, a, path, j)->Some_0;
            has_mirror_rev(entries_concat(cfg, a, b, path), x.0, x.1)
        }),
    decreases a, 1int, 0int,
{
    let cfg2 = cfg_swap(cfg);
    let x = src_entry(cfg2, b, a, path, j)->Some_0;
    let e1 = entries_concat(cfg, a, b, path);
    let k = b[j].0;
    let child = path.push(PathElemModel::Key(k));
    let sv = obj_lookup(a, k)->Some_0;
    lemma_obj_lookup_index(a, k);
    let i = choose|i: int| 0 <= i < a.len() && (#[trigger] a[i]).0 == k && a[i].1 == sv;
    assert forall|j2: int| 0 <= j2 < j implies (#[trigger] b[j2].0) != k by {}
    lemma_obj_lookup_at(b, j);
    lemma_sym_exempt(cfg, child, true);
    lemma_sym_values(cfg, sv, b[j].1, child);
    assert forall|i2: int| 0 <= i2 < i implies (#[trigger] a[i2].0) != k by {}
    lemma_obj_lookup_at(a, i);
    let w = src_entry(cfg, a, b, path, i)->Some_0;
    assert(w.0 == k && entry_mirrored(w.1, x.1));
    lemma_src_entries_member(cfg, a, b, path, a.len() as int);
    let src1 = spec_obj_entries(cfg, a, b, path, a.len() as int);
    let m = choose|m: int| 0 <= m < src1.len() && #[trigger] src1[m] == w;
    assert(e1[m] == w);
}

#[verifier::rlimit(100)]
#[verifier::spinoff_prover]
proof fn lemma_bwd_witness_miss(
    cfg: CfgModel,
    a: Seq<(Seq<char>, ValueModel)>,
    b: Seq<(Seq<char>, ValueModel)>,
    path: Seq<PathElemModel>,
    i: int,
)
    requires
        no_conditions(cfg.ignore),
        0 <= i < a.len(),
        miss_entry(cfg_swap(cfg), b, a, path, i) is Some,
    ensures
        ({
            let x = miss_entry(cfg_swap(cfg), b, a, path, i)->Some_0;
            let e1 = entries_concat(cfg, a, b, path);
            exists|m: int|
                0 <= m < e1.len() && (#[trigger] e1[m]).0 == x.0 && entry_mirrored(
                    e1[m].1,
                    x.1,
                )
        }),
{
    let cfg2 = cfg_swap(cfg);
    let x = miss_entry(cfg2, b, a, path, i)->Some_0;
    let e1 = entries_concat(cfg, a, b, path);
    lemma_sym_back_miss_entry(cfg, a, b, path, i);
    lemma_src_entries_member(cfg, a, b, path, a.len() as int);
    let w = src_entry(cfg, a, b, path, i)->Some_0;
    let m = choose|m: int|
        0 <= m < spec_obj_entries(cfg, a, b, path, a.len() as int).len()
            && #[trigger] spec_obj_entries(cfg, a, b, path, a.len() as int)[m] == w;
    assert(e1[m] == w);
}

#[verifier::rlimit(100)]
#[verifier::spinoff_prover]
proof fn lemma_sym_objects_forward(
    cfg: CfgModel,
    a: Seq<(Seq<char>, ValueModel)>,
    b: Seq<(Seq<char>, ValueModel)>,
    path: Seq<PathElemModel>,
)
    requires
        no_conditions(cfg.ignore),
        forall|i: int, j: int| 0 <= i < j < a.len() ==> (#[trigger] a[i].0) != (#[trigger] a[j].0),
        forall|i: int| 0 <= i < a.len() ==> wf_refl(#[trigger] a[i].1),
        forall|i: int, j: int| 0 <= i < j < b.len() ==> (#[trigger] b[i].0) != (#[trigger] b[j].0),
        forall|i: int| 0 <= i < b.len() ==> wf_refl(#[trigger] b[i].1),
    ensures
        entries_covered(entries_concat(cfg, a, b, path), entries_concat(cfg_swap(cfg), b, a, path)),
    decreases a, 2int, 0int,
{
    let e1 = entries_concat(cfg, a, b, path);
    let e2 = entries_concat(cfg_swap(cfg), b, a, path);
    let n1 = spec_obj_entries(cfg, a, b, path, a.len() as int).len();
    lemma_src_entries_member(cfg, a, b, path, a.len() as int);
    lemma_miss_entries_member(cfg, a, b, path, b.len() as int);
    assert(entries_covered(e1, e2)) by {
        assert forall|m: int| 0 <= m < e1.len() implies has_mirror(
            e2,
            (#[trigger] e1[m]).0,
            e1[m].1,
        ) by {
            if m < n1 {
                assert(e1[m] == spec_obj_entries(cfg, a, b, path, a.len() as int)[m]);
                let i = choose|i: int|
                    0 <= i < a.len() && src_entry(cfg, a, b, path, i) == Some(
                        #[trigger] spec_obj_entries(cfg, a, b, path, a.len() as int)[m],
                    );
                assert(src_entry(cfg, a, b, path, i)->Some_0 == e1[m]);
                if src_entry(cfg, a, b, path, i)->Some_0.1 is Extra {
                    lemma_fwd_witness_src_extra(cfg, a, b, path, i);
                } else if src_entry(cfg, a, b, path, i)->Some_0.1 is Value {
                    lemma_fwd_witness_src_value(cfg, a, b, path, i);
                } else {
                    assert(false);
                }
            } else {
                assert(e1[m] == spec_missing_entries(cfg, a, b, path, b.len() as int)[m - n1]);
                let j = choose|j: int|
                    0 <= j < b.len() && miss_entry(cfg, a, b, path, j) == Some(
                        #[trigger] spec_missing_entries(cfg, a, b, path, b.len() as int)[m - n1],
                    );
                assert(miss_entry(cfg, a, b, path, j)->Some_0 == e1[m]);
                lemma_fwd_witness_miss(cfg, a, b, path, j);
            }
        }
    }
}

#[verifier::rlimit(100)]
#[verifier::spinoff_prover]
proof fn lemma_sym_objects_backward(
    cfg: CfgModel,
    a: Seq<(Seq<char>, ValueModel)>,
    b: Seq<(Seq<char>, ValueModel)>,
    path: Seq<PathElemModel>,
)
    requires
        no_conditions(cfg.ignore),
        forall|i: int, j: int| 0 <= i < j < a.len() ==> (#[trigger] a[i].0) != (#[trigger] a[j].0),
        forall|i: int| 0 <= i < a.len() ==> wf_refl(#[trigger] a[i].1),
        forall|i: int, j: int| 0 <= i < j < b.len() ==> (#[trigger] b[i].0) != (#[trigger] b[j].0),
        forall|i: int| 0 <= i < b.len() ==> wf_refl(#[trigger] b[i].1),
    ensures
        entries_covered_rev(
            entries_concat(cfg, a, b, path),
            entries_concat(cfg_swap(cfg), b, a, path),
        ),
    decreases a, 2int, 0int,
{
    let cfg2 = cfg_swap(cfg);
    let e1 = entries_concat(cfg, a, b, path);
    let e2 = entries_concat(cfg2, b, a, path);
    let n2 = spec_obj_entries(cfg2, b, a, path, b.len() as int).len();
    lemma_src_entries_member(cfg2, b, a, path, b.len() as int);
    lemma_miss_entries_member(cfg2, b, a, path, a.len() as int);
    assert(entries_covered_rev(e1, e2)) by {
        assert forall|m2: int| 0 <= m2 < e2.len() implies has_mirror_rev(
            e1,
            (#[trigger] e2[m2]).0,
            e2[m2].1,
        ) by {
            if m2 < n2 {
                assert(e2[m2] == spec_obj_entries(cfg2, b, a, path, b.len() as int)[m2]);
                let j = choose|j: int|
                    0 <= j < b.len() && src_entry(cfg2, b, a, path, j) == Some(
                        #[trigger] spec_obj_entries(cfg2, b, a, path, b.len() as int)[m2],
                    );
                assert(src_entry(cfg2, b, a, path, j)->Some_0 == e2[m2]);
                if src_entry(cfg2, b, a, path, j)->Some_0.1 is Extra {
                    lemma_bwd_witness_src_extra(cfg, a, b, path, j);
                } else if src_entry(cfg2, b, a, path, j)->Some_0.1 is Value {
                    lemma_bwd_witness_src_value(cfg, a, b, path, j);
                } else {
                    assert(false);
                }
            } else {
                assert(e2[m2] == spec_missing_entries(cfg2, b, a, path, a.len() as int)[m2 - n2]);
                let i = choose|i: int|
                    0 <= i < a.len() && miss_entry(cfg2, b, a, path, i) == Some(
                        #[trigger] spec_missing_entries(cfg2, b, a, path, a.len() as int)[m2 - n2],
                    );
                assert(miss_entry(cfg2, b, a, path, i)->Some_0 == e2[m2]);
                lemma_bwd_witness_miss(cfg, a, b, path, i);
            }
        }
    }
}

proof fn lemma_covered_nonempty(
    es1: Seq<(Seq<char>, EntryDiffModel)>,
    es2: Seq<(Seq<char>, EntryDiffModel)>,
)
    requires
        entries_covered(es1, es2),
        es1.len() > 0,
    ensures
        es2.len() > 0,
{
    assert(es1[0] == es1[0]);
}

proof fn lemma_covered_rev_nonempty(
    es1: Seq<(Seq<char>, EntryDiffModel)>,
    es2: Seq<(Seq<char>, EntryDiffModel)>,
)
    requires
        entries_covered_rev(es1, es2),
        es2.len() > 0,
    ensures
        es1.len() > 0,
{
    assert(es2[0] == es2[0]);
}

#[verifier::rlimit(100)]
#[verifier::spinoff_prover]
proof fn lemma_sym_objects(
    cfg: CfgModel,
    a: Seq<(Seq<char>, ValueModel)>,
    b: Seq<(Seq<char>, ValueModel)>,
    path: Seq<PathElemModel>,
)
    requires
        no_conditions(cfg.ignore),
        forall|i: int, j: int| 0 <= i < j < a.len() ==> (#[trigger] a[i].0) != (#[trigger] a[j].0),
        forall|i: int| 0 <= i < a.len() ==> wf_refl(#[trigger] a[i].1),
        forall|i: int, j: int| 0 <= i < j < b.len() ==> (#[trigger] b[i].0) != (#[trigger] b[j].0),
        forall|i: int| 0 <= i < b.len() ==> wf_refl(#[trigger] b[i].1),
    ensures
        ({
            let r1 = spec_objects(cfg, a, b, path);
            let r2 = spec_objects(cfg_swap(cfg), b, a, path);
            match (r1, r2) {
                (None, None) => true,
                (Some(es1), Some(es2)) => entries_mirrored(es1, es2),
                _ => false,
            }
        }),
    decreases a, 3int, 0int,
{
    let cfg2 = cfg_swap(cfg);
    let e1 = entries_concat(cfg, a, b, path);
    let e2 = entries_concat(cfg2, b, a, path);
    lemma_sym_objects_forward(cfg, a, b, path);
    lemma_sym_objects_backward(cfg, a, b, path);
    assert(entries_mirrored(e1, e2));
    assert(spec_objects(cfg, a, b, path) == (if e1.len() == 0 {
        None
    } else {
        Some(e1)
    }));
    assert(spec_objects(cfg2, b, a, path) == (if e2.len() == 0 {
        None
    } else {
        Some(e2)
    }));
    if e2.len() != 0 {
        lemma_covered_rev_nonempty(e1, e2);
    }
    if e1.len() != 0 {
        lemma_covered_nonempty(e1, e2);
    }
}

/// What the source member at one index contributes to the divergence list.
spec fn src_entry(
    cfg: CfgModel,
    a: Seq<(Seq<char>, ValueModel)>,
    b: Seq<(Seq<char>, ValueModel)>,
    path: Seq<PathElemModel>,
    i: int,
) -> Option<(Seq<char>, EntryDiffModel)> {
    let k = a[i].0;
    let child = path.push(PathElemModel::Key(k));
    if spec_is_exempt(cfg, child, obj_has_key(b, k)) {
        None
    } else {
        match obj_lookup(b, k) {
            None => Some((k, EntryDiffModel::Extra { value: a[i].1 })),
            Some(tv) => match spec_values(cfg, a[i].1, tv, child) {
                Some(d) => Some((k, EntryDiffModel::Value { value_diff: d })),
                None => None,
            },
        }
    }
}

/// What the target member at one index contributes to the divergence list.
spec fn miss_entry(
    cfg: CfgModel,
    a: Seq<(Seq<char>, ValueModel)>,
    b: Seq<(Seq<char>, ValueModel)>,
    path: Seq<PathElemModel>,
    j: int,
) -> Option<(Seq<char>, EntryDiffModel)> {
    let k = b[j].0;
    if obj_has_key(a, k) {
        None
    } else if spec_is_exempt(cfg, path.push(PathElemModel::Key(k)), false) {
        None
    } else {
        Some((k, EntryDiffModel::Missing { value: b[j].1 }))
    }
}

proof fn lemma_src_entries_member(
    cfg: CfgModel,
    a: Seq<(Seq<char>, ValueModel)>,
    b: Seq<(Seq<char>, ValueModel)>,
    path: Seq<PathElemModel>,
    n: int,
)
    requires
        0 <= n <= a.len(),
    ensures
        forall|m: int|
            0 <= m < spec_obj_entries(cfg, a, b, path, n).len() ==> exists|i: int|
                0 <= i < n && src_entry(cfg, a, b, path, i) == Some(
                    #[trigger] spec_obj_entries(cfg, a, b, path, n)[m],
                ),
        forall|i: int|
            0 <= i < n && (#[trigger] src_entry(cfg, a, b, path, i)) is Some ==> exists|m: int|
                0 <= m < spec_obj_entries(cfg, a, b, path, n).len() && spec_obj_entries(
                    cfg,
                    a,
                    b,
                    path,
                    n,
                )[m] == src_entry(cfg, a, b, path, i)->Some_0,
    decreases n,
{
    if n > 0 {
        lemma_src_entries_member(cfg, a, b, path, n - 1);
        let prev = spec_obj_entries(cfg, a, b, path, n - 1);
        let cur = spec_obj_entries(cfg, a, b, path, n);
        match src_entry(cfg, a, b, path, n - 1) {
            Some(x) => {
                assert(cur == prev.push(x));
                assert(cur[cur.len() - 1] == x);
                assert forall|m: int| 0 <= m < prev.len() implies cur[m] == prev[m] by {}
            },
            None => {
                assert(cur == prev);
            },
        }
    }
}

proof fn lemma_miss_entries_member(
    cfg: CfgModel,
    a: Seq<(Seq<char>, ValueModel)>,
    b: Seq<(Seq<char>, ValueModel)>,
    path: Seq<PathElemModel>,
    n: int,
)
    requires
        0 <= n <= b.len(),
    ensures
        forall|m: int|
            0 <= m < spec_missing_entries(cfg, a, b, path, n).len() ==> exists|j: int|
                0 <= j < n && miss_entry(cfg, a, b, path, j) == Some(
                    #[trigger] spec_missing_entries(cfg, a, b, path, n)[m],
                ),
        forall|j: int|
            0 <= j < n && (#[trigger] miss_entry(cfg, a, b, path, j)) is Some ==> exists|m: int|
                0 <= m < spec_missing_entries(cfg, a, b, path, n).len() && spec_missing_entries(
                    cfg,
                    a,
                    b,
                    path,
                    n,
                )[m] == miss_entry(cfg, a, b, path, j)->Some_0,
    decreases n,
{
    if n > 0 {
        lemma_miss_entries_member(cfg, a, b, path, n - 1);
        let prev = spec_missing_entries(cfg, a, b, path, n - 1);
        let cur = spec_missing_entries(cfg, a, b, path, n);
        match miss_entry(cfg, a, b, path, n - 1) {
            Some(x) => {
                assert(cur == prev.push(x));
                assert(cur[cur.len() - 1] == x);
                assert forall|m: int| 0 <= m < prev.len() implies cur[m] == prev[m] by {}
            },
            None => {
                assert(cur == prev);
            },
        }
    }
}

proof fn lemma_obj_lookup_index(ps: Seq<(Seq<char>, ValueModel)>, k: Seq<char>)
    ensures
        obj_lookup(ps, k) matches Some(v) ==> exists|j: int|
            0 <= j < ps.len() && (#[trigger] ps[j]).0 == k && ps[j].1 == v,
    decreases ps.len(),
{
    if ps.len() > 0 {
        lemma_obj_lookup_index(ps.drop_first(), k);
        if ps[0].0 != k {
            if let Some(v) = obj_lookup(ps, k) {
                let j = choose|j: int|
                    0 <= j < ps.drop_first().len() && (#[trigger] ps.drop_first()[j]).0 == k
                        && ps.drop_first()[j].1 == v;
                assert(ps[j + 1].0 == k && ps[j + 1].1 == v);
            }
        }
    }
}

/// Each target-side contribution of the forward comparison answers a
/// mirrored source-side contribution of the swapped comparison.
#[verifier::rlimit(100)]
#[verifier::spinoff_prover]
proof fn lemma_sym_miss_entry(
    cfg: CfgModel,
    a: Seq<(Seq<char>, ValueModel)>,
    b: Seq<(Seq<char>, ValueModel)>,
    path: Seq<PathElemModel>,
    j: int,
)
    requires
        no_conditions(cfg.ignore),
        0 <= j < b.len(),
    ensures
        miss_entry(cfg, a, b, path, j) matches Some(x) ==> src_entry(cfg_swap(cfg), b, a, path, j)
            == Some((x.0, EntryDiffModel::Extra { value: b[j].1 })) && entry_mirrored(
            x.1,
            EntryDiffModel::Extra { value: b[j].1 },
        ),
{
    let k = b[j].0;
    let child = path.push(PathElemModel::Key(k));
    lemma_sym_exempt(cfg, child, false);
}

/// Each target-side contribution of the swapped comparison is answered by a
/// mirrored source-side contribution of the forward comparison.
#[verifier::rlimit(100)]
#[verifier::spinoff_prover]
proof fn lemma_sym_back_miss_entry(
    cfg: CfgModel,
    a: Seq<(Seq<char>, ValueModel)>,
    b: Seq<(Seq<char>, ValueModel)>,
    path: Seq<PathElemModel>,
    i: int,
)
    requires
        no_conditions(cfg.ignore),
        0 <= i < a.len(),
    ensures
        miss_entry(cfg_swap(cfg), b, a, path, i) matches Some(x) ==> src_entry(cfg, a, b, path, i)
            == Some((x.0, EntryDiffModel::Extra { value: a[i].1 })) && entry_mirrored(
            EntryDiffModel::Extra { value: a[i].1 },
            x.1,
        ),
{
    let k = a[i].0;
    let child = path.push(PathElemModel::Key(k));
    lemma_sym_exempt(cfg, child, false);
}

/// Symmetry of shape: with every exemption unconditional and both trees
/// well-formed, swapping source and target mirrors the result: sources and
/// targets are exchanged, every `Missing` answers an `Extra` and conversely,
/// and every `Longer` answers a `Shorter` whose counts agree.
pub proof fn lemma_compare_symmetry(
    cfg: CfgModel,
    s: ValueModel,
    t: ValueModel,
    path: Seq<PathElemModel>,
)
    requires
        no_conditions(cfg.ignore),
        wf_refl(s),
        wf_refl(t),
    ensures
        mirrored_opt(spec_values(cfg, s, t, path), spec_values(cfg_swap(cfg), t, s, path)),
{
    lemma_sym_values(cfg, s, t, path);
}


} // verus!
