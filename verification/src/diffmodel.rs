//! The result model: the classified divergence between two corresponding
//! tree nodes, mirroring the shape of the divergence.

use vstd::prelude::*;
use crate::value::{Number, NumberModel, Type, Value, ValueModel, arr_view};

verus! {

/// An ordered list of key-value entries, keeping insertion order.
#[derive(Debug)]
pub struct Pairs<K, V>(pub Vec<(K, V)>);

/// How one object member diverges.
#[derive(Debug)]
pub enum EntryDifference {
    /// An entry the target has and the source is missing.
    Missing { value: Value },
    /// An entry the source has and the target does not.
    Extra { value: Value },
    /// An entry of both whose values differ.
    Value { value_diff: Difference },
}

/// How two same-typed scalars differ.
#[derive(Debug)]
pub enum ScalarDifference {
    Bool { source: bool, target: bool },
    String { source: String, target: String },
    Number { source: Number, target: Number },
}

/// How two arrays differ.
#[derive(Debug)]
pub enum ArrayDifference {
    /// Equal lengths, but some overlapping indices differ.
    PairsOnly { different_pairs: Pairs<usize, Difference> },
    /// The source is shorter; the target's tail elements are missing.
    Shorter { different_pairs: Option<Pairs<usize, Difference>>, missing_elements: Vec<Value> },
    /// The source is longer; only the count of extra elements is reported.
    Longer { different_pairs: Option<Pairs<usize, Difference>>, extra_length: usize },
}

/// The classified divergence between two corresponding tree nodes.
#[derive(Debug)]
pub enum Difference {
    Scalar(ScalarDifference),
    Type { source_type: Type, source_value: Value, target_type: Type, target_value: Value },
    Array(ArrayDifference),
    Object { different_entries: Pairs<String, EntryDifference> },
}

/// Mathematical model of a scalar divergence.
#[verifier::ext_equal]
pub enum ScalarDiffModel {
    Bool { source: bool, target: bool },
    String { source: Seq<char>, target: Seq<char> },
    Number { source: NumberModel, target: NumberModel },
}

/// Mathematical model of an object member divergence.
#[verifier::ext_equal]
pub enum EntryDiffModel {
    Missing { value: ValueModel },
    Extra { value: ValueModel },
    Value { value_diff: DiffModel },
}

/// Mathematical model of an array divergence.
#[verifier::ext_equal]
pub enum ArrayDiffModel {
    PairsOnly { different_pairs: Seq<(usize, DiffModel)> },
    Shorter { different_pairs: Option<Seq<(usize, DiffModel)>>, missing_elements: Seq<ValueModel> },
    Longer { different_pairs: Option<Seq<(usize, DiffModel)>>, extra_length: usize },
}

/// Mathematical model of a divergence.
#[verifier::ext_equal]
pub enum DiffModel {
    Scalar(ScalarDiffModel),
    Type { source_type: Type, source_value: ValueModel, target_type: Type, target_value: ValueModel },
    Array(ArrayDiffModel),
    Object { different_entries: Seq<(Seq<char>, EntryDiffModel)> },
}

/// Mathematical model of a scalar divergence value.
pub open spec fn scalar_diff_model_of(d: ScalarDifference) -> ScalarDiffModel {
    match d {
        ScalarDifference::Bool { source, target } => ScalarDiffModel::Bool { source, target },
        ScalarDifference::String { source, target } => ScalarDiffModel::String {
            source: source@,
            target: target@,
        },
        ScalarDifference::Number { source, target } => ScalarDiffModel::Number {
            source: source@,
            target: target@,
        },
    }
}

/// Mathematical model of a divergence value.
pub open spec fn diff_model_of(d: Difference) -> DiffModel
    decreases d, 1int, 0int,
{
    match d {
        Difference::Scalar(sd) => DiffModel::Scalar(scalar_diff_model_of(sd)),
        Difference::Type { source_type, source_value, target_type, target_value } => DiffModel::Type {
            source_type,
            source_value: source_value@,
            target_type,
            target_value: target_value@,
        },
        Difference::Array(ad) => DiffModel::Array(arr_diff_model_of(ad)),
        Difference::Object { different_entries } => DiffModel::Object {
            different_entries: entry_pairs_view(different_entries.0@),
        },
    }
}

/// Mathematical model of an array divergence value.
pub open spec fn arr_diff_model_of(ad: ArrayDifference) -> ArrayDiffModel
    decreases ad, 1int, 0int,
{
    match ad {
        ArrayDifference::PairsOnly { different_pairs } => ArrayDiffModel::PairsOnly {
            different_pairs: ix_pairs_view(different_pairs.0@),
        },
        ArrayDifference::Shorter { different_pairs, missing_elements } => ArrayDiffModel::Shorter {
            different_pairs: match different_pairs {
                Some(p) => Some(ix_pairs_view(p.0@)),
                None => None,
            },
            missing_elements: arr_view(missing_elements@),
        },
        ArrayDifference::Longer { different_pairs, extra_length } => ArrayDiffModel::Longer {
            different_pairs: match different_pairs {
                Some(p) => Some(ix_pairs_view(p.0@)),
                None => None,
            },
            extra_length,
        },
    }
}

/// Mathematical model of an object member divergence value.
pub open spec fn entry_diff_model_of(e: EntryDifference) -> EntryDiffModel
    decreases e, 1int, 0int,
{
    match e {
        EntryDifference::Missing { value } => EntryDiffModel::Missing { value: value@ },
        EntryDifference::Extra { value } => EntryDiffModel::Extra { value: value@ },
        EntryDifference::Value { value_diff } => EntryDiffModel::Value {
            value_diff: diff_model_of(value_diff),
        },
    }
}

/// The model of an indexed pair list.
pub open spec fn ix_pairs_view(ps: Seq<(usize, Difference)>) -> Seq<(usize, DiffModel)>
    decreases ps, 0int, 0int,
{
    if ps.len() == 0 {
        Seq::empty()
    } else {
        ix_pairs_view(ps.drop_last()).push((ps.last().0, diff_model_of(ps.last().1)))
    }
}

/// The model of a keyed entry list.
pub open spec fn entry_pairs_view(ps: Seq<(String, EntryDifference)>) -> Seq<
    (Seq<char>, EntryDiffModel),
>
    decreases ps, 0int, 0int,
{
    if ps.len() == 0 {
        Seq::empty()
    } else {
        entry_pairs_view(ps.drop_last()).push(
            (ps.last().0@, entry_diff_model_of(ps.last().1)),
        )
    }
}

/// The model of an optional comparison result.
pub open spec fn opt_diff_view(r: Option<Difference>) -> Option<DiffModel> {
    match r {
        Some(d) => Some(diff_model_of(d)),
        None => None,
    }
}

pub broadcast proof fn lemma_ix_pairs_view_len(ps: Seq<(usize, Difference)>)
    ensures
        (#[trigger] ix_pairs_view(ps)).len() == ps.len(),
    decreases ps.len(),
{
    if ps.len() > 0 {
        lemma_ix_pairs_view_len(ps.drop_last());
    }
}

pub broadcast proof fn lemma_ix_pairs_view_index(ps: Seq<(usize, Difference)>, i: int)
    requires
        0 <= i < ps.len(),
    ensures
        #[trigger] ix_pairs_view(ps)[i] == (ps[i].0, diff_model_of(ps[i].1)),
    decreases ps.len(),
{
    lemma_ix_pairs_view_len(ps.drop_last());
    if i < ps.len() - 1 {
        lemma_ix_pairs_view_index(ps.drop_last(), i);
    }
}

pub broadcast proof fn lemma_entry_pairs_view_len(ps: Seq<(String, EntryDifference)>)
    ensures
        (#[trigger] entry_pairs_view(ps)).len() == ps.len(),
    decreases ps.len(),
{
    if ps.len() > 0 {
        lemma_entry_pairs_view_len(ps.drop_last());
    }
}

pub broadcast proof fn lemma_entry_pairs_view_index(ps: Seq<(String, EntryDifference)>, i: int)
    requires
        0 <= i < ps.len(),
    ensures
        #[trigger] entry_pairs_view(ps)[i] == (ps[i].0@, entry_diff_model_of(ps[i].1)),
    decreases ps.len(),
{
    lemma_entry_pairs_view_len(ps.drop_last());
    if i < ps.len() - 1 {
        lemma_entry_pairs_view_index(ps.drop_last(), i);
    }
}

} // verus!
