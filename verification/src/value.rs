//! The tree value model: JSON-like values of the six kinds, their
//! mathematical view, deep equality, and the read-only accessor that walks a
//! tree along a concrete path.

use vstd::prelude::*;
use crate::path::{ArrayIndex, Path, PathElement, PathElemModel};
use crate::ext::{json_num_valid, num_text_ok};

verus! {

/// A JSON number: a non-negative integer, a negative integer, or a float
/// carried as the decimal text of the double it denotes.
#[derive(Debug)]
pub enum Number {
    PosInt(u64),
    NegInt(i64),
    Float(String),
}

/// Mathematical model of a JSON number.
pub enum NumberModel {
    PosInt(u64),
    NegInt(i64),
    Float(Seq<char>),
}

impl View for Number {
    type V = NumberModel;

    open spec fn view(&self) -> NumberModel {
        match self {
            Number::PosInt(u) => NumberModel::PosInt(*u),
            Number::NegInt(i) => NumberModel::NegInt(*i),
            Number::Float(s) => NumberModel::Float(s@),
        }
    }
}

impl Number {
    /// An equal copy of this number.
    pub fn duplicate(&self) -> (r: Number)
        ensures
            r@ == self@,
    {
        match self {
            Number::PosInt(u) => Number::PosInt(*u),
            Number::NegInt(i) => Number::NegInt(*i),
            Number::Float(s) => Number::Float(s.clone()),
        }
    }
}

/// A JSON-like tree value.  Object members keep their insertion order.
#[derive(Debug)]
pub enum Value {
    Null,
    Bool(bool),
    Number(Number),
    String(String),
    Array(Vec<Value>),
    Object(Vec<(String, Value)>),
}

/// Mathematical model of a tree value.
#[verifier::ext_equal]
pub enum ValueModel {
    Null,
    Bool(bool),
    Number(NumberModel),
    String(Seq<char>),
    Array(Seq<ValueModel>),
    Object(Seq<(Seq<char>, ValueModel)>),
}

/// Mathematical model of a tree value.
pub open spec fn value_model_of(v: Value) -> ValueModel
    decreases v,
{
    match v {
        Value::Null => ValueModel::Null,
        Value::Bool(b) => ValueModel::Bool(b),
        Value::Number(n) => ValueModel::Number(n@),
        Value::String(s) => ValueModel::String(s@),
        Value::Array(vs) => ValueModel::Array(arr_view(vs@)),
        Value::Object(ps) => ValueModel::Object(obj_view(ps@)),
    }
}

/// The model of an array's element list.
pub open spec fn arr_view(vs: Seq<Value>) -> Seq<ValueModel>
    decreases vs,
{
    if vs.len() == 0 {
        Seq::empty()
    } else {
        arr_view(vs.drop_last()).push(value_model_of(vs.last()))
    }
}

/// The model of an object's member list.
pub open spec fn obj_view(ps: Seq<(String, Value)>) -> Seq<(Seq<char>, ValueModel)>
    decreases ps,
{
    if ps.len() == 0 {
        Seq::empty()
    } else {
        obj_view(ps.drop_last()).push((ps.last().0@, value_model_of(ps.last().1)))
    }
}

impl View for Value {
    type V = ValueModel;

    open spec fn view(&self) -> ValueModel {
        value_model_of(*self)
    }
}

pub broadcast proof fn lemma_arr_view_len(vs: Seq<Value>)
    ensures
        (#[trigger] arr_view(vs)).len() == vs.len(),
    decreases vs,
{
    if vs.len() > 0 {
        lemma_arr_view_len(vs.drop_last());
    }
}

pub broadcast proof fn lemma_arr_view_index(vs: Seq<Value>, i: int)
    requires
        0 <= i < vs.len(),
    ensures
        #[trigger] arr_view(vs)[i] == vs[i]@,
    decreases vs,
{
    broadcast use lemma_arr_view_len;

    if i < vs.len() - 1 {
        lemma_arr_view_index(vs.drop_last(), i);
    }
}

pub broadcast proof fn lemma_obj_view_len(ps: Seq<(String, Value)>)
    ensures
        (#[trigger] obj_view(ps)).len() == ps.len(),
    decreases ps,
{
    if ps.len() > 0 {
        lemma_obj_view_len(ps.drop_last());
    }
}

pub broadcast proof fn lemma_obj_view_index(ps: Seq<(String, Value)>, i: int)
    requires
        0 <= i < ps.len(),
    ensures
        #[trigger] obj_view(ps)[i] == (ps[i].0@, ps[i].1@),
    decreases ps,
{
    broadcast use lemma_obj_view_len;

    if i < ps.len() - 1 {
        lemma_obj_view_index(ps.drop_last(), i);
    }
}

/// The six-way type tag of a tree value.
#[derive(Clone, Copy, Debug, PartialEq, Eq, Structural)]
pub enum Type {
    Null,
    Array,
    Bool,
    Object,
    String,
    Number,
}

/// The type tag of a value.
pub open spec fn type_of(v: ValueModel) -> Type {
    match v {
        ValueModel::Null => Type::Null,
        ValueModel::Bool(_) => Type::Bool,
        ValueModel::Number(_) => Type::Number,
        ValueModel::String(_) => Type::String,
        ValueModel::Array(_) => Type::Array,
        ValueModel::Object(_) => Type::Object,
    }
}

impl Value {
    /// The type tag of this value.
    pub fn value_type(&self) -> (t: Type)
        ensures
            t == type_of(self@),
    {
        match self {
            Value::Null => Type::Null,
            Value::Bool(_) => Type::Bool,
            Value::Number(_) => Type::Number,
            Value::String(_) => Type::String,
            Value::Array(_) => Type::Array,
            Value::Object(_) => Type::Object,
        }
    }
}

/// The type tag of a consumed value.
impl From<Value> for Type {
    fn from(v: Value) -> (t: Type) {
        v.value_type()
    }
}

impl vstd::std_specs::convert::FromSpecImpl<Value> for Type {
    open spec fn obeys_from_spec() -> bool {
        true
    }

    open spec fn from_spec(v: Value) -> Type {
        type_of(v@)
    }
}

impl Value {
    /// An equal copy of this value.
    #[verifier::loop_isolation(false)]
    pub fn deep_copy(&self) -> (r: Value)
        ensures
            r@ == self@,
        decreases self,
    {
        broadcast use {lemma_arr_view_len, lemma_arr_view_index, lemma_obj_view_len, lemma_obj_view_index};

        match self {
            Value::Null => Value::Null,
            Value::Bool(b) => Value::Bool(*b),
            Value::Number(n) => Value::Number(n.duplicate()),
            Value::String(s) => Value::String(s.clone()),
            Value::Array(vs) => {
                let mut out: Vec<Value> = Vec::new();
                let n = vs.len();
                for i in 0..n
                    invariant
                        n == vs.len(),
                        out@.len() == i,
                        forall|j: int| 0 <= j < i ==> out@[j]@ == vs@[j]@,
                    decreases n - i,
                {
                    out.push(vs[i].deep_copy());
                }
                proof {
                    broadcast use lemma_arr_view_len, lemma_arr_view_index;

                    assert(arr_view(out@) =~= arr_view(vs@));
                }
                Value::Array(out)
            },
            Value::Object(ps) => {
                let mut out: Vec<(String, Value)> = Vec::new();
                let n = ps.len();
                for i in 0..n
                    invariant
                        n == ps.len(),
                        out@.len() == i,
                        forall|j: int|
                            0 <= j < i ==> out@[j].0@ == ps@[j].0@ && out@[j].1@ == ps@[j].1@,
                    decreases n - i,
                {
                    let k = ps[i].0.clone();
                    let v = ps[i].1.deep_copy();
                    out.push((k, v));
                }
                proof {
                    broadcast use lemma_obj_view_len, lemma_obj_view_index;

                    assert(obj_view(out@) =~= obj_view(ps@));
                }
                Value::Object(out)
            },
        }
    }
}

/// Whether a number's content is valid: a float's text must be a valid
/// JSON number; integers always are.
pub fn number_is_valid(n: &Number) -> (r: bool)
    ensures
        r == num_text_ok(n@),
{
    match n {
        Number::Float(s) => json_num_valid(s.as_str()),
        _ => true,
    }
}

/// A well-formed tree: every object has pairwise distinct keys, and every
/// float carries the text of a valid JSON number.
pub open spec fn wf_value(v: ValueModel) -> bool
    decreases v, 1int, 0int,
{
    match v {
        ValueModel::Number(n) => num_text_ok(n),
        ValueModel::Array(vs) => wf_arr(vs),
        ValueModel::Object(ps) => wf_obj(ps),
        _ => true,
    }
}

/// Every element of the list is a well-formed tree.
pub open spec fn wf_arr(vs: Seq<ValueModel>) -> bool
    decreases vs, 0int, 0int,
{
    vs.len() == 0 || (wf_arr(vs.drop_last()) && wf_value(vs.last()))
}

/// No member of the list carries the given key.
pub open spec fn key_absent(ps: Seq<(Seq<char>, ValueModel)>, k: Seq<char>) -> bool
    decreases ps.len(),
{
    ps.len() == 0 || (ps.last().0 != k && key_absent(ps.drop_last(), k))
}

/// Every member value is a well-formed tree and the keys are pairwise
/// distinct.
pub open spec fn wf_obj(ps: Seq<(Seq<char>, ValueModel)>) -> bool
    decreases ps, 0int, 0int,
{
    ps.len() == 0 || (wf_obj(ps.drop_last()) && wf_value(ps.last().1) && key_absent(
        ps.drop_last(),
        ps.last().0,
    ))
}

/// An element of a well-formed array list is well-formed.
pub proof fn lemma_wf_arr_elem(vs: Seq<ValueModel>, i: int)
    requires
        wf_arr(vs),
        0 <= i < vs.len(),
    ensures
        wf_value(vs[i]),
    decreases vs.len(),
{
    if i < vs.len() - 1 {
        lemma_wf_arr_elem(vs.drop_last(), i);
    }
}

proof fn lemma_key_absent_at(ps: Seq<(Seq<char>, ValueModel)>, k: Seq<char>, i: int)
    requires
        key_absent(ps, k),
        0 <= i < ps.len(),
    ensures
        ps[i].0 != k,
    decreases ps.len(),
{
    if i < ps.len() - 1 {
        lemma_key_absent_at(ps.drop_last(), k, i);
    }
}

/// A member value of a well-formed member list is well-formed.
pub proof fn lemma_wf_obj_elem(ps: Seq<(Seq<char>, ValueModel)>, i: int)
    requires
        wf_obj(ps),
        0 <= i < ps.len(),
    ensures
        wf_value(ps[i].1),
    decreases ps.len(),
{
    if i < ps.len() - 1 {
        lemma_wf_obj_elem(ps.drop_last(), i);
    }
}

/// Two members of a well-formed member list carry different keys.
pub proof fn lemma_wf_obj_distinct(ps: Seq<(Seq<char>, ValueModel)>, i: int, j: int)
    requires
        wf_obj(ps),
        0 <= i < j < ps.len(),
    ensures
        ps[i].0 != ps[j].0,
    decreases ps.len(),
{
    if j < ps.len() - 1 {
        lemma_wf_obj_distinct(ps.drop_last(), i, j);
    } else {
        lemma_key_absent_at(ps.drop_last(), ps.last().0, i);
    }
}

/// In a member list whose earlier keys all differ from the key at the given
/// position, the lookup finds exactly that member.
pub proof fn lemma_obj_lookup_at(ps: Seq<(Seq<char>, ValueModel)>, i: int)
    requires
        0 <= i < ps.len(),
        forall|j: int| 0 <= j < i ==> (#[trigger] ps[j].0) != ps[i].0,
    ensures
        obj_lookup(ps, ps[i].0) == Some(ps[i].1),
    decreases i,
{
    if i > 0 {
        let rest = ps.drop_first();
        assert forall|j: int| 0 <= j < i - 1 implies (#[trigger] rest[j].0) != rest[i - 1].0 by {
            assert(rest[j] == ps[j + 1]);
            assert(rest[i - 1] == ps[i]);
        }
        lemma_obj_lookup_at(rest, i - 1);
        assert(rest[i - 1] == ps[i]);
    }
}

/// Exact equality of two numbers: same kind, same content.
pub fn number_eq(a: &Number, b: &Number) -> (r: bool)
    ensures
        r == (a@ == b@),
{
    match (a, b) {
        (Number::PosInt(x), Number::PosInt(y)) => *x == *y,
        (Number::NegInt(x), Number::NegInt(y)) => *x == *y,
        (Number::Float(x), Number::Float(y)) => *x == *y,
        _ => false,
    }
}

/// Deep equality of two tree values.
#[verifier::loop_isolation(false)]
pub fn value_eq(a: &Value, b: &Value) -> (r: bool)
    ensures
        r == (a@ == b@),
    decreases a,
{
    broadcast use {lemma_arr_view_len, lemma_arr_view_index, lemma_obj_view_len, lemma_obj_view_index};

    match (a, b) {
        (Value::Null, Value::Null) => true,
        (Value::Bool(x), Value::Bool(y)) => *x == *y,
        (Value::Number(x), Value::Number(y)) => number_eq(x, y),
        (Value::String(x), Value::String(y)) => *x == *y,
        (Value::Array(xs), Value::Array(ys)) => {
            if xs.len() != ys.len() {
                proof {
                    lemma_arr_view_len(xs@);
                    lemma_arr_view_len(ys@);
                }
                return false;
            }
            let n = xs.len();
            for i in 0..n
                invariant
                    n == xs.len(),
                    n == ys.len(),
                    forall|j: int| 0 <= j < i ==> xs@[j]@ == ys@[j]@,
                decreases n - i,
            {
                if !value_eq(&xs[i], &ys[i]) {
                    proof {
                        lemma_arr_view_index(xs@, i as int);
                        lemma_arr_view_index(ys@, i as int);
                    }
                    return false;
                }
            }
            proof {
                broadcast use lemma_arr_view_len, lemma_arr_view_index;

                assert(arr_view(xs@) =~= arr_view(ys@));
            }
            true
        },
        (Value::Object(xs), Value::Object(ys)) => {
            if xs.len() != ys.len() {
                proof {
                    lemma_obj_view_len(xs@);
                    lemma_obj_view_len(ys@);
                }
                return false;
            }
            let n = xs.len();
            for i in 0..n
                invariant
                    n == xs.len(),
                    n == ys.len(),
                    forall|j: int| 0 <= j < i ==> xs@[j].0@ == ys@[j].0@ && xs@[j].1@ == ys@[j].1@,
                decreases n - i,
            {
                if !(xs[i].0 == ys[i].0) {
                    proof {
                        lemma_obj_view_index(xs@, i as int);
                        lemma_obj_view_index(ys@, i as int);
                    }
                    return false;
                }
                if !value_eq(&xs[i].1, &ys[i].1) {
                    proof {
                        lemma_obj_view_index(xs@, i as int);
                        lemma_obj_view_index(ys@, i as int);
                    }
                    return false;
                }
            }
            proof {
                broadcast use lemma_obj_view_len, lemma_obj_view_index;

                assert(obj_view(xs@) =~= obj_view(ys@));
            }
            true
        },
        _ => false,
    }
}

/// The value of the first member with the given key, or `None`.
pub open spec fn obj_lookup(ps: Seq<(Seq<char>, ValueModel)>, k: Seq<char>) -> Option<ValueModel>
    decreases ps.len(),
{
    if ps.len() == 0 {
        None
    } else if ps[0].0 == k {
        Some(ps[0].1)
    } else {
        obj_lookup(ps.drop_first(), k)
    }
}

/// Whether an object has a member with the given key.
pub open spec fn obj_has_key(ps: Seq<(Seq<char>, ValueModel)>, k: Seq<char>) -> bool {
    obj_lookup(ps, k) is Some
}

proof fn lemma_obj_lookup_skip(ps: Seq<(Seq<char>, ValueModel)>, k: Seq<char>, i: int)
    requires
        0 <= i <= ps.len(),
        forall|j: int| 0 <= j < i ==> ps[j].0 != k,
    ensures
        obj_lookup(ps, k) == obj_lookup(ps.skip(i), k),
    decreases i,
{
    if i > 0 {
        assert(ps[0].0 != k);
        assert forall|j: int| 0 <= j < i - 1 implies ps.skip(1)[j].0 != k by {
            assert(ps.skip(1)[j] == ps[j + 1]);
        }
        lemma_obj_lookup_skip(ps.skip(1), k, i - 1);
        assert(ps.skip(1).skip(i - 1) =~= ps.skip(i));
        assert(ps.drop_first() =~= ps.skip(1));
    } else {
        assert(ps.skip(0) =~= ps);
    }
}

/// The member value under the given key, or `None`.
pub fn obj_get<'a>(ps: &'a Vec<(String, Value)>, k: &String) -> (r: Option<&'a Value>)
    ensures
        match r {
            Some(v) => obj_lookup(obj_view(ps@), k@) == Some(v@),
            None => obj_lookup(obj_view(ps@), k@) is None,
        },
{
    broadcast use {lemma_obj_view_len, lemma_obj_view_index};

    let n = ps.len();
    for i in 0..n
        invariant
            n == ps.len(),
            forall|j: int| 0 <= j < i ==> ps@[j].0@ != k@,
    {
        if ps[i].0 == *k {
            proof {
                lemma_obj_view_len(ps@);
                assert forall|j: int| 0 <= j < i implies obj_view(ps@)[j].0 != k@ by {
                    lemma_obj_view_index(ps@, j);
                }
                lemma_obj_lookup_skip(obj_view(ps@), k@, i as int);
                lemma_obj_view_index(ps@, i as int);
                assert(obj_view(ps@).skip(i as int)[0] == obj_view(ps@)[i as int]);
            }
            return Some(&ps[i].1);
        }
    }
    proof {
        lemma_obj_view_len(ps@);
        assert forall|j: int| 0 <= j < n implies obj_view(ps@)[j].0 != k@ by {
            lemma_obj_view_index(ps@, j);
        }
        lemma_obj_lookup_skip(obj_view(ps@), k@, n as int);
        assert(obj_view(ps@).skip(n as int) =~= Seq::<(Seq<char>, ValueModel)>::empty());
    }
    None
}

/// Whether a value is a scalar: neither an array nor an object.
pub open spec fn is_scalar(v: ValueModel) -> bool {
    !(v is Array || v is Object)
}

/// The value addressed by a concrete path: each `Key` steps into an object
/// member, each concrete `Index` into an array element; a wildcard, a missing
/// member, an out-of-range index, or a step into a non-container is `None`.
pub open spec fn value_at(v: ValueModel, path: Seq<PathElemModel>) -> Option<ValueModel>
    decreases path.len(),
{
    if path.len() == 0 {
        Some(v)
    } else {
        match path[0] {
            PathElemModel::Key(k) => match v {
                ValueModel::Object(ps) => match obj_lookup(ps, k) {
                    Some(c) => value_at(c, path.drop_first()),
                    None => None,
                },
                _ => None,
            },
            PathElemModel::Ix(ArrayIndex::Index(i)) => match v {
                ValueModel::Array(vs) => if i < vs.len() {
                    value_at(vs[i as int], path.drop_first())
                } else {
                    None
                },
                _ => None,
            },
            PathElemModel::Ix(ArrayIndex::All) => None,
        }
    }
}

/// The scalar addressed by a concrete path: as [`value_at`], but a located
/// array or object counts as not found.
pub open spec fn scalar_at(v: ValueModel, path: Seq<PathElemModel>) -> Option<ValueModel> {
    match value_at(v, path) {
        Some(c) => if is_scalar(c) {
            Some(c)
        } else {
            None
        },
        None => None,
    }
}

proof fn lemma_value_at_concat(v: ValueModel, p1: Seq<PathElemModel>, p2: Seq<PathElemModel>)
    ensures
        value_at(v, p1 + p2) == match value_at(v, p1) {
            Some(c) => value_at(c, p2),
            None => None,
        },
    decreases p1.len(),
{
    if p1.len() == 0 {
        assert(p1 + p2 =~= p2);
    } else {
        let rest = p1.drop_first();
        assert((p1 + p2).drop_first() =~= rest + p2);
        assert((p1 + p2)[0] == p1[0]);
        match p1[0] {
            PathElemModel::Key(k) => match v {
                ValueModel::Object(ps) => match obj_lookup(ps, k) {
                    Some(c) => lemma_value_at_concat(c, rest, p2),
                    None => {},
                },
                _ => {},
            },
            PathElemModel::Ix(ArrayIndex::Index(i)) => match v {
                ValueModel::Array(vs) => if i < vs.len() {
                    lemma_value_at_concat(vs[i as int], rest, p2);
                } else {
                },
                _ => {},
            },
            PathElemModel::Ix(ArrayIndex::All) => {},
        }
    }
}

/// Walk a tree along a concrete path and return the located scalar, or
/// `None` when the path cannot be followed or lands on a container.
#[verifier::loop_isolation(false)]
pub fn value_by_path<'a>(root: &'a Value, path: &Path) -> (r: Option<&'a Value>)
    ensures
        match r {
            Some(v) => scalar_at(root@, path@) == Some(v@),
            None => scalar_at(root@, path@) is None,
        },
{
    let mut cur: &'a Value = root;
    let n = path.0.len();
    for i in 0..n
        invariant
            n == path.0.len(),
            value_at(root@, path@.take(i as int)) == Some(cur@),
    {
        proof {
            reveal_with_fuel(value_at, 2);
            assert(path@.take(i + 1) =~= path@.take(i as int) + seq![path@[i as int]]);
            lemma_value_at_concat(root@, path@.take(i as int), seq![path@[i as int]]);
            assert(seq![path@[i as int]].drop_first() =~= Seq::<PathElemModel>::empty());
        }
        let next: &'a Value = match (&path.0[i], cur) {
            (PathElement::Key(k), Value::Object(ps)) => {
                match obj_get(ps, k) {
                    Some(v) => v,
                    None => {
                        proof {
                            lemma_value_at_extend_none(root@, path@, i as int);
                        }
                        return None;
                    },
                }
            },
            (PathElement::ArrayIndex(ArrayIndex::Index(ix)), Value::Array(vs)) => {
                proof {
                    lemma_arr_view_len(vs@);
                }
                if *ix < vs.len() {
                    proof {
                        lemma_arr_view_index(vs@, *ix as int);
                    }
                    &vs[*ix]
                } else {
                    proof {
                        lemma_value_at_extend_none(root@, path@, i as int);
                    }
                    return None;
                }
            },
            _ => {
                proof {
                    lemma_value_at_extend_none(root@, path@, i as int);
                }
                return None;
            },
        };
        cur = next;
    }
    proof {
        assert(path@.take(n as int) =~= path@);
    }
    match cur {
        Value::Array(_) => None,
        Value::Object(_) => None,
        _ => Some(cur),
    }
}

proof fn lemma_value_at_extend_none(root: ValueModel, p: Seq<PathElemModel>, i: int)
    requires
        0 <= i < p.len(),
        value_at(root, p.take(i + 1)) is None,
    ensures
        value_at(root, p) is None,
{
    lemma_value_at_concat(root, p.take(i + 1), p.skip(i + 1));
    assert(p.take(i + 1) + p.skip(i + 1) =~= p);
}


} // verus!
