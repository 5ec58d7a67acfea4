//! Filters over dotted field paths: equality and conjunction.

use vstd::prelude::*;

verus! {

/// A condition on the documents of a store.
#[derive(Debug, PartialEq, Eq)]
pub enum Filter {
    /// The field at `path` equals `value`.
    Equals { path: String, value: String },
    /// Every one of the conditions holds.
    And(Vec<Filter>),
}

/// What a filter says, as plain text and sequences.
pub enum FilterView {
    Equals { path: Seq<char>, value: Seq<char> },
    And(Seq<FilterView>),
}

impl View for Filter {
    type V = FilterView;

    open spec fn view(&self) -> FilterView
        decreases self,
    {
        match self {
            Filter::Equals { path, value } => FilterView::Equals { path: path@, value: value@ },
            Filter::And(parts) => FilterView::And(
                Seq::new(
                    parts@.len(),
                    |i: int|
                        if 0 <= i < parts@.len() {
                            parts@[i]@
                        } else {
                            FilterView::And(Seq::empty())
                        },
                ),
            ),
        }
    }
}

/// The conjunction that asks the field at `path` to equal each of
/// `values`.
pub open spec fn equals_all(path: Seq<char>, values: Seq<Seq<char>>) -> FilterView {
    FilterView::And(Seq::new(values.len(), |i: int| FilterView::Equals { path, value: values[i] }))
}

impl Filter {
    /// The condition that the field at `path` equals `value`.
    pub fn equals(path: &str, value: &str) -> (filter: Filter)
        ensures
            filter@ == (FilterView::Equals { path: path@, value: value@ }),
    {
        Filter::Equals { path: path.to_owned(), value: value.to_owned() }
    }
}

} // verus!
