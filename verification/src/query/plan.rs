//! Query plans.

use vstd::prelude::*;

use crate::text;
use crate::textmap::TextMap;

verus! {

/// The records that a query reads.
#[derive(Debug, Clone, Copy, PartialEq, Eq, Structural)]
pub enum QuerySource {
    RawEvents,
    RollupHourly,
}

/// A field and the values that are let through.
#[derive(Debug)]
pub struct QueryFilter {
    pub field: String,
    pub values: Vec<String>,
}

#[derive(Debug, Clone, Copy, PartialEq, Eq, Structural)]
pub enum AggregationFunction {
    Sum,
    Count,
}

/// What is to be read and how it is to be grouped and aggregated. The time range
/// is half-open: `from_ms` belongs to it, `to_ms` does not.
#[derive(Debug)]
pub struct QueryPlan {
    pub source: QuerySource,
    pub account_id: Option<String>,
    pub from_ms: i64,
    pub to_ms: i64,
    pub filters: Vec<QueryFilter>,
    pub group_by: Vec<String>,
    pub metrics: TextMap<AggregationFunction>,
    pub limit: Option<usize>,
}

#[verifier::ext_equal]
pub struct FilterModel {
    pub field: Seq<char>,
    pub values: Seq<Seq<char>>,
}

/// A plan by its contents.
#[verifier::ext_equal]
pub struct PlanModel {
    pub source: QuerySource,
    pub account_id: Option<Seq<char>>,
    pub from_ms: i64,
    pub to_ms: i64,
    pub filters: Seq<FilterModel>,
    pub group_by: Seq<Seq<char>>,
    pub metrics: Seq<(Seq<char>, AggregationFunction)>,
    pub limit: Option<usize>,
}

impl View for QueryFilter {
    type V = FilterModel;

    open spec fn view(&self) -> FilterModel {
        FilterModel { field: self.field@, values: text::text_views(self.values@) }
    }
}

pub open spec fn filter_views(filters: Seq<QueryFilter>) -> Seq<FilterModel> {
    filters.map_values(|f: QueryFilter| f@)
}

impl View for QueryPlan {
    type V = PlanModel;

    open spec fn view(&self) -> PlanModel {
        PlanModel {
            source: self.source,
            account_id: text::option_view(self.account_id),
            from_ms: self.from_ms,
            to_ms: self.to_ms,
            filters: filter_views(self.filters@),
            group_by: text::text_views(self.group_by@),
            metrics: self.metrics@,
            limit: self.limit,
        }
    }
}

pub proof fn lemma_filters_push(filters: Seq<QueryFilter>, f: QueryFilter)
    ensures
        filter_views(filters.push(f)) == filter_views(filters).push(f@),
{
    assert(filter_views(filters.push(f)) =~= filter_views(filters).push(f@));
}

impl Clone for QueryFilter {
    fn clone(&self) -> (r: Self)
        ensures
            r@ == self@,
    {
        QueryFilter { field: self.field.clone(), values: text::clone_texts(&self.values) }
    }
}

impl Clone for QueryPlan {
    fn clone(&self) -> (r: Self)
        ensures
            r@ == self@,
    {
        let mut filters: Vec<QueryFilter> = Vec::new();
        for i in 0..self.filters.len()
            invariant
                filter_views(filters@) == filter_views(self.filters@).take(i as int),
        {
            let f = self.filters[i].clone();
            proof {
                lemma_filters_push(filters@, f);
                assert(filter_views(self.filters@)[i as int] == self.filters@[i as int]@);
            }
            filters.push(f);
            assert(filter_views(self.filters@).take(i + 1) =~= filter_views(self.filters@).take(
                i as int,
            ).push(self.filters@[i as int]@));
        }
        assert(filter_views(self.filters@).take(self.filters@.len() as int) =~= filter_views(
            self.filters@,
        ));
        let metrics = self.metrics.clone();
        assert(metrics@ =~= self.metrics@);
        QueryPlan {
            source: self.source,
            account_id: text::clone_option(&self.account_id),
            from_ms: self.from_ms,
            to_ms: self.to_ms,
            filters,
            group_by: text::clone_texts(&self.group_by),
            metrics,
            limit: self.limit,
        }
    }
}

} // verus!
