use shape_query::block::{Block, Property, ResourceBlock};
use shape_query::filter::Filter;
use shape_query::frequency::FrequencyTable;
use shape_query::query::{QueryPlan, RefineError, REFINED_NAMES};
use shape_query::shape::ShapeError;

fn property(key: &str) -> Block {
    Block::Property(Property { property: key.to_string(), value: "v".to_string() })
}

fn resource(keys: &[&str]) -> Block {
    Block::Resource(ResourceBlock {
        resource_type: "template".to_string(),
        resource_name: "r".to_string(),
        contents: keys.iter().map(|key| property(key)).collect(),
    })
}

fn equals(path: &str, value: &str) -> Filter {
    Filter::Equals { path: path.to_string(), value: value.to_string() }
}

fn table_of(names: &[&str]) -> FrequencyTable {
    let mut table = FrequencyTable::new();
    for name in names {
        table.record(name);
    }
    table
}

const PROPERTY_PATH: &str = "Statement.contents.Resource.contents.Property.property";

#[test]
fn sr_with_template_gives_the_resource_filter() {
    let plan = QueryPlan::new("template", "SR").unwrap();
    assert_eq!(
        plan.resource_filter(),
        equals("Statement.contents.Resource.resource_type", "template")
    );
}

#[test]
fn plan_keeps_label_and_path() {
    let plan = QueryPlan::new("file", "ISR").unwrap();
    assert_eq!(plan.resource(), "file");
    assert_eq!(plan.match_string(), "If.blocks.Statement.contents.Resource");
    assert_eq!(
        plan.property_path(),
        "If.blocks.Statement.contents.Resource.contents.Property.property"
    );
    assert_eq!(
        plan.resource_filter(),
        equals("If.blocks.Statement.contents.Resource.resource_type", "file")
    );
}

#[test]
fn plan_refuses_a_shape_without_usable_path() {
    assert_eq!(QueryPlan::new("template", ""), Err(ShapeError::NoContainer));
    assert_eq!(QueryPlan::new("template", "PU"), Err(ShapeError::NoContainer));
    assert_eq!(QueryPlan::new("template", "SI"), Err(ShapeError::TrailingBranch));
    assert_eq!(QueryPlan::new("template", "SSC"), Err(ShapeError::TrailingBranch));
}

#[test]
fn equals_builds_an_equality() {
    assert_eq!(Filter::equals("a.b", "c"), equals("a.b", "c"));
    assert_ne!(Filter::equals("a.b", "c"), equals("c", "a.b"));
}

#[test]
fn refined_filter_asks_for_four_names() {
    assert_eq!(REFINED_NAMES, 4);
}

#[test]
fn refine_filter_takes_the_four_names_ranked_first() {
    let plan = QueryPlan::new("template", "SR").unwrap();
    let table = table_of(&["a", "b", "c", "d", "e", "e", "c", "e", "a", "c"]);
    assert_eq!(
        plan.refine_filter(&table),
        Ok(Filter::And(vec![
            equals(PROPERTY_PATH, "c"),
            equals(PROPERTY_PATH, "e"),
            equals(PROPERTY_PATH, "a"),
            equals(PROPERTY_PATH, "b"),
        ]))
    );
}

#[test]
fn refine_filter_with_exactly_four_names() {
    let plan = QueryPlan::new("template", "SR").unwrap();
    let table = table_of(&["a", "b", "c", "d"]);
    assert_eq!(
        plan.refine_filter(&table),
        Ok(Filter::And(vec![
            equals(PROPERTY_PATH, "a"),
            equals(PROPERTY_PATH, "b"),
            equals(PROPERTY_PATH, "c"),
            equals(PROPERTY_PATH, "d"),
        ]))
    );
}

#[test]
fn refine_filter_fails_below_four_names() {
    let plan = QueryPlan::new("template", "SR").unwrap();
    assert_eq!(
        plan.refine_filter(&FrequencyTable::new()),
        Err(RefineError::TooFewProperties { found: 0 })
    );
    assert_eq!(
        plan.refine_filter(&table_of(&["a", "a", "a", "a", "a"])),
        Err(RefineError::TooFewProperties { found: 1 })
    );
    assert_eq!(
        plan.refine_filter(&table_of(&["a", "b", "c", "a", "b", "c"])),
        Err(RefineError::TooFewProperties { found: 3 })
    );
}

#[test]
fn refine_counts_and_ranks_in_one_call() {
    let plan = QueryPlan::new("template", "SR").unwrap();
    let documents = vec![
        resource(&["ensure", "owner", "mode"]),
        resource(&["owner", "content", "ensure"]),
        property("ensure"),
        resource(&["mode", "ensure", "group"]),
    ];
    assert_eq!(
        plan.refine(&documents),
        Ok(Filter::And(vec![
            equals(PROPERTY_PATH, "ensure"),
            equals(PROPERTY_PATH, "owner"),
            equals(PROPERTY_PATH, "mode"),
            equals(PROPERTY_PATH, "content"),
        ]))
    );
}

#[test]
fn refine_fails_without_enough_names() {
    let plan = QueryPlan::new("template", "SR").unwrap();
    assert_eq!(plan.refine(&vec![]), Err(RefineError::TooFewProperties { found: 0 }));
    assert_eq!(
        plan.refine(&vec![resource(&["a", "b"]), resource(&["b", "c"])]),
        Err(RefineError::TooFewProperties { found: 3 })
    );
}

#[test]
fn two_runs_over_the_same_documents_agree() {
    let plan = QueryPlan::new("template", "SR").unwrap();
    let documents = vec![
        resource(&["a", "b", "c"]),
        resource(&["d", "c", "b"]),
        resource(&["e", "d", "f"]),
    ];
    let first = plan.refine(&documents);
    let second = plan.refine(&documents);
    assert_eq!(first, second);
    assert_eq!(
        first,
        Ok(Filter::And(vec![
            equals(PROPERTY_PATH, "b"),
            equals(PROPERTY_PATH, "c"),
            equals(PROPERTY_PATH, "d"),
            equals(PROPERTY_PATH, "a"),
        ]))
    );

    let mut one = FrequencyTable::new();
    one.record_all(&documents);
    let mut other = FrequencyTable::new();
    other.record_all(&documents);
    assert_eq!(one.ranked(), other.ranked());
}
