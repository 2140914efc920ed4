//! The path model: ordered sequences of object keys and array indices that
//! address a location inside a tree, with wildcard-aware equality.

use vstd::prelude::*;

verus! {

/// An array position inside a path: either a concrete index or the wildcard
/// `All`, which stands for any concrete index.
#[derive(Clone, Copy, Debug)]
pub enum ArrayIndex {
    Index(usize),
    All,
}

/// One step of a path: an object member or an array position.
#[derive(Clone, Debug)]
pub enum PathElement {
    Key(String),
    ArrayIndex(ArrayIndex),
}

/// An ordered sequence of path elements addressing a location in a tree.
#[derive(Clone, Debug)]
pub struct Path(pub Vec<PathElement>);

/// Mathematical model of a path element.
pub enum PathElemModel {
    Key(Seq<char>),
    Ix(ArrayIndex),
}

impl View for PathElement {
    type V = PathElemModel;

    open spec fn view(&self) -> PathElemModel {
        match self {
            PathElement::Key(k) => PathElemModel::Key(k@),
            PathElement::ArrayIndex(a) => PathElemModel::Ix(*a),
        }
    }
}

/// The model of an element list.
pub open spec fn elems_view(es: Seq<PathElement>) -> Seq<PathElemModel> {
    es.map_values(|e: PathElement| e@)
}

impl View for Path {
    type V = Seq<PathElemModel>;

    open spec fn view(&self) -> Seq<PathElemModel> {
        elems_view(self.0@)
    }
}

/// Wildcard-aware equality of two path elements: `All` is equal to any array
/// position, two concrete indices are equal only when numerically identical,
/// and a key never equals an array position.
pub open spec fn elem_matches(a: PathElemModel, b: PathElemModel) -> bool {
    match (a, b) {
        (PathElemModel::Key(x), PathElemModel::Key(y)) => x == y,
        (PathElemModel::Ix(ArrayIndex::All), PathElemModel::Ix(_)) => true,
        (PathElemModel::Ix(_), PathElemModel::Ix(ArrayIndex::All)) => true,
        (PathElemModel::Ix(ArrayIndex::Index(x)), PathElemModel::Ix(ArrayIndex::Index(y))) => x
            == y,
        _ => false,
    }
}

/// Wildcard-aware equality of two paths: same length, element-wise equal
/// under [`elem_matches`].
pub open spec fn path_matches(a: Seq<PathElemModel>, b: Seq<PathElemModel>) -> bool {
    a.len() == b.len() && (forall|i: int| 0 <= i < a.len() ==> elem_matches(a[i], b[i]))
}

impl PartialEq for ArrayIndex {
    fn eq(&self, other: &Self) -> (r: bool) {
        match (self, other) {
            (ArrayIndex::Index(a), ArrayIndex::Index(b)) => a == b,
            _ => true,
        }
    }
}

impl vstd::std_specs::cmp::PartialEqSpecImpl for ArrayIndex {
    open spec fn obeys_eq_spec() -> bool {
        true
    }

    open spec fn eq_spec(&self, other: &Self) -> bool {
        elem_matches(PathElemModel::Ix(*self), PathElemModel::Ix(*other))
    }
}

impl PartialEq for PathElement {
    fn eq(&self, other: &Self) -> (r: bool) {
        match (self, other) {
            (PathElement::Key(a), PathElement::Key(b)) => *a == *b,
            (PathElement::ArrayIndex(a), PathElement::ArrayIndex(b)) => *a == *b,
            _ => false,
        }
    }
}

impl vstd::std_specs::cmp::PartialEqSpecImpl for PathElement {
    open spec fn obeys_eq_spec() -> bool {
        true
    }

    open spec fn eq_spec(&self, other: &Self) -> bool {
        elem_matches(self@, other@)
    }
}

/// Wildcard-aware equality of two element lists.
pub fn paths_match(a: &Vec<PathElement>, b: &Vec<PathElement>) -> (r: bool)
    ensures
        r == path_matches(elems_view(a@), elems_view(b@)),
{
    if a.len() != b.len() {
        return false;
    }
    let n = a.len();
    for i in 0..n
        invariant
            n == a.len(),
            n == b.len(),
            forall|j: int| 0 <= j < i ==> elem_matches(elems_view(a@)[j], elems_view(b@)[j]),
    {
        let eqi = a[i] == b[i];
        proof {
            assert(elems_view(a@)[i as int] == a@[i as int]@);
            assert(elems_view(b@)[i as int] == b@[i as int]@);
        }
        if !eqi {
            return false;
        }
    }
    true
}

impl PartialEq for Path {
    fn eq(&self, other: &Self) -> (r: bool) {
        paths_match(&self.0, &other.0)
    }
}

impl vstd::std_specs::cmp::PartialEqSpecImpl for Path {
    open spec fn obeys_eq_spec() -> bool {
        true
    }

    open spec fn eq_spec(&self, other: &Self) -> bool {
        path_matches(self@, other@)
    }
}

impl From<Vec<PathElement>> for Path {
    fn from(v: Vec<PathElement>) -> (r: Path) {
        Path(v)
    }
}

impl vstd::std_specs::convert::FromSpecImpl<Vec<PathElement>> for Path {
    open spec fn obeys_from_spec() -> bool {
        true
    }

    open spec fn from_spec(v: Vec<PathElement>) -> Path {
        Path(v)
    }
}

impl PathElement {
    /// An equal copy of this element.
    pub fn duplicate(&self) -> (r: PathElement)
        ensures
            r@ == self@,
    {
        match self {
            PathElement::Key(k) => PathElement::Key(k.clone()),
            PathElement::ArrayIndex(a) => PathElement::ArrayIndex(*a),
        }
    }
}

/// The concrete instantiation of a wildcard pattern at a visited location:
/// same length required, wildcard positions take the concrete path's element,
/// all other positions keep the pattern's own element.
pub open spec fn spec_resolve(pattern: Seq<PathElemModel>, concrete: Seq<PathElemModel>) -> Option<
    Seq<PathElemModel>,
> {
    if pattern.len() != concrete.len() {
        None
    } else {
        Some(
            Seq::new(
                pattern.len(),
                |i: int|
                    match pattern[i] {
                        PathElemModel::Ix(ArrayIndex::All) => concrete[i],
                        _ => pattern[i],
                    },
            ),
        )
    }
}

/// Resolve a wildcard pattern against the concrete element list of an
/// actually visited node: every `All` element is replaced by the concrete
/// list's element at the same position.  `None` when the lengths differ, in
/// which case the pattern does not apply at this depth.
pub fn resolve_elems(pattern: &Vec<PathElement>, concrete: &Vec<PathElement>) -> (r: Option<
    Vec<PathElement>,
>)
    ensures
        match r {
            Some(p) => spec_resolve(elems_view(pattern@), elems_view(concrete@)) == Some(
                elems_view(p@),
            ),
            None => spec_resolve(elems_view(pattern@), elems_view(concrete@)) is None,
        },
{
    if pattern.len() != concrete.len() {
        return None;
    }
    let n = pattern.len();
    let mut out: Vec<PathElement> = Vec::new();
    for i in 0..n
        invariant
            n == pattern.len(),
            n == concrete.len(),
            out@.len() == i,
            forall|j: int|
                0 <= j < i ==> elems_view(out@)[j] == spec_resolve(
                    elems_view(pattern@),
                    elems_view(concrete@),
                )->Some_0[j],
    {
        proof {
            assert(elems_view(pattern@)[i as int] == pattern@[i as int]@);
            assert(elems_view(concrete@)[i as int] == concrete@[i as int]@);
        }
        let e = match &pattern[i] {
            PathElement::ArrayIndex(ArrayIndex::All) => concrete[i].duplicate(),
            other => other.duplicate(),
        };
        let ghost prev = out@;
        out.push(e);
        proof {
            let sp = spec_resolve(elems_view(pattern@), elems_view(concrete@))->Some_0;
            assert(elems_view(out@)[i as int] == out@[i as int]@);
            assert(sp[i as int] == (match elems_view(pattern@)[i as int] {
                PathElemModel::Ix(ArrayIndex::All) => elems_view(concrete@)[i as int],
                _ => elems_view(pattern@)[i as int],
            }));
            assert forall|j: int| 0 <= j < i implies elems_view(out@)[j] == #[trigger] sp[j] by {
                assert(out@[j] == prev[j]);
                assert(elems_view(prev)[j] == prev[j]@);
                assert(elems_view(out@)[j] == out@[j]@);
            }
        }
    }
    proof {
        assert(elems_view(out@) =~= spec_resolve(elems_view(pattern@), elems_view(concrete@))->Some_0);
    }
    Some(out)
}

impl Path {
    /// Resolve this pattern against the concrete path of an actually visited
    /// node; see [`resolve_elems`].
    pub fn replace_array_index_all_by_exact_path(&self, concrete: &Path) -> (r: Option<Path>)
        ensures
            match r {
                Some(p) => spec_resolve(self@, concrete@) == Some(p@),
                None => spec_resolve(self@, concrete@) is None,
            },
    {
        match resolve_elems(&self.0, &concrete.0) {
            Some(v) => Some(Path(v)),
            None => None,
        }
    }
}

} // verus!
