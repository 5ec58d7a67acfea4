//! The two questions that a census asks of a store: which documents hold
//! the resource, and which documents share its most frequent properties.

use crate::block::{block_views, census_keys, lemma_census_keys_by_view, Block};
use crate::filter::{equals_all, Filter, FilterView};
use crate::frequency::{entity_views, tally, total_count, FrequencyTable};
use crate::ranking::{ranked, top_names};
use crate::shape::{checked_path, parse_code, CodeStructure, ShapeError};
use vstd::prelude::*;

verus! {

/// The number of names that a refined filter asks for.
pub const REFINED_NAMES: usize = 4;

/// Why no refined filter could be built.
#[derive(Debug, Clone, Copy, PartialEq, Eq, Structural)]
pub enum RefineError {
    /// The table holds fewer distinct names than the filter asks for.
    TooFewProperties { found: usize },
}

/// The field that holds the kind of the resource addressed by `path`.
pub open spec fn resource_field(path: Seq<char>) -> Seq<char> {
    path + ".resource_type"@
}

/// The field that holds the names of the properties directly inside the
/// resource addressed by `path`.
pub open spec fn property_field(path: Seq<char>) -> Seq<char> {
    path + ".contents.Property.property"@
}

/// The refined filter for counted `entries`: the property field at `path`
/// must equal each of the names ranked first. There is none where fewer
/// names were counted than it asks for.
pub open spec fn refinement(entries: Seq<(Seq<char>, nat)>, path: Seq<char>) -> Result<
    FilterView,
    RefineError,
> {
    if entries.len() < REFINED_NAMES {
        Err(RefineError::TooFewProperties { found: entries.len() as usize })
    } else {
        Ok(equals_all(property_field(path), top_names(entries, REFINED_NAMES as nat)))
    }
}

/// What a table holds after counting `documents` from nothing.
pub open spec fn census(documents: Seq<Block>) -> Seq<(Seq<char>, nat)> {
    tally(Seq::empty(), census_keys(documents))
}

/// Two runs over documents that read alike, taken in the same order, end
/// alike: they count the same, rank the same names first, and either both
/// fail or both ask the same refined question.
pub proof fn lemma_runs_agree(first: Seq<Block>, second: Seq<Block>, path: Seq<char>)
    requires
        block_views(first) == block_views(second),
    ensures
        census(first) == census(second),
        ranked(census(first)) == ranked(census(second)),
        top_names(census(first), REFINED_NAMES as nat) == top_names(
            census(second),
            REFINED_NAMES as nat,
        ),
        refinement(census(first), path) == refinement(census(second), path),
{
    lemma_census_keys_by_view(first, second);
}

/// What a census is run with: the kind of resource to look for and the
/// path at which it is expected.
#[derive(Debug, Clone, PartialEq, Eq)]
pub struct QueryPlan {
    resource: String,
    match_string: String,
}

/// A plan as plain text.
pub struct QueryPlanView {
    pub resource: Seq<char>,
    pub path: Seq<char>,
}

impl View for QueryPlan {
    type V = QueryPlanView;

    closed spec fn view(&self) -> QueryPlanView {
        QueryPlanView { resource: self.resource@, path: self.match_string@ }
    }
}

impl QueryPlan {
    /// A plan to look for resources of kind `resource` nested as `code`
    /// says. A shape code without a usable path is refused.
    pub fn new(resource: &str, code: &str) -> (plan: Result<QueryPlan, ShapeError>)
        ensures
            match plan {
                Ok(plan) => checked_path(parse_code(code@)) == Ok::<Seq<char>, ShapeError>(
                    plan@.path,
                ) && plan@.resource == resource@,
                Err(error) => checked_path(parse_code(code@)) == Err::<Seq<char>, ShapeError>(
                    error,
                ),
            },
    {
        match CodeStructure::new(code).compile() {
            Ok(match_string) => Ok(QueryPlan { resource: resource.to_owned(), match_string }),
            Err(error) => Err(error),
        }
    }

    /// The kind of resource that the plan looks for.
    pub fn resource(&self) -> (label: &str)
        ensures
            label@ == self@.resource,
    {
        self.resource.as_str()
    }

    /// The path at which the plan expects the resource.
    pub fn match_string(&self) -> (path: &str)
        ensures
            path@ == self@.path,
    {
        self.match_string.as_str()
    }

    /// The filter that finds the resources: the kind of the resource at
    /// the plan's path equals the plan's label.
    pub fn resource_filter(&self) -> (filter: Filter)
        ensures
            filter@ == (FilterView::Equals {
                path: resource_field(self@.path),
                value: self@.resource,
            }),
    {
        let path = self.match_string.clone().concat(".resource_type");
        Filter::Equals { path, value: self.resource.clone() }
    }

    /// The field that holds the names of the resource's direct properties.
    pub fn property_path(&self) -> (path: String)
        ensures
            path@ == property_field(self@.path),
    {
        self.match_string.clone().concat(".contents.Property.property")
    }

    /// The filter that finds the documents sharing the names that `table`
    /// ranks first.
    pub fn refine_filter(&self, table: &FrequencyTable) -> (filter: Result<Filter, RefineError>)
        ensures
            filter is Err <==> table@.len() < REFINED_NAMES,
            match filter {
                Ok(filter) => refinement(table@, self@.path) == Ok::<FilterView, RefineError>(
                    filter@,
                ),
                Err(error) => refinement(table@, self@.path) == Err::<FilterView, RefineError>(
                    error,
                ),
            },
    {
        let found = table.len();
        if found < REFINED_NAMES {
            return Err(RefineError::TooFewProperties { found });
        }
        let ranking = table.ranked();
        let path = self.property_path();
        proof {
            assert(entity_views(ranking@).len() == ranking@.len());
            assert(ranked(table@).len() == table@.len());
            assert forall|a: int| 0 <= a < ranking@.len() implies (#[trigger] ranking@[a])@
                == ranked(table@)[a] by {
                assert(entity_views(ranking@)[a] == ranking@[a]@);
            }
        }
        let mut parts: Vec<Filter> = Vec::new();
        let mut i: usize = 0;
        while i < REFINED_NAMES
            invariant
                i <= REFINED_NAMES <= table@.len(),
                ranking@.len() == table@.len(),
                forall|a: int| 0 <= a < ranking@.len() ==> (#[trigger] ranking@[a])@ == ranked(table@)[a],
                path@ == property_field(self@.path),
                parts@.len() == i,
                forall|a: int|
                    0 <= a < i ==> (#[trigger] parts@[a])@ == (FilterView::Equals {
                        path: path@,
                        value: ranked(table@)[a].0,
                    }),
            decreases REFINED_NAMES - i,
        {
            parts.push(Filter::equals(path.as_str(), ranking[i].property.as_str()));
            i += 1;
        }
        let filter = Filter::And(parts);
        proof {
            let wanted = equals_all(
                property_field(self@.path),
                top_names(table@, REFINED_NAMES as nat),
            );
            assert(filter@->And_0 =~= wanted->And_0);
        }
        Ok(filter)
    }

    /// Counts the direct properties of the resources among `documents` and
    /// builds the refined filter from the names ranked first.
    pub fn refine(&self, documents: &Vec<Block>) -> (filter: Result<Filter, RefineError>)
        requires
            census_keys(documents@).len() <= u64::MAX,
        ensures
            filter is Err <==> census(documents@).len() < REFINED_NAMES,
            match filter {
                Ok(filter) => refinement(census(documents@), self@.path) == Ok::<
                    FilterView,
                    RefineError,
                >(filter@),
                Err(error) => refinement(census(documents@), self@.path) == Err::<
                    FilterView,
                    RefineError,
                >(error),
            },
    {
        let mut table = FrequencyTable::new();
        assert(total_count(table@) == 0);
        table.record_all(documents);
        self.refine_filter(&table)
    }
}

} // verus!
