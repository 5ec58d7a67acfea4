use shape_query::block::{Block, IfBlock, Property, ResourceBlock, StatementBlock};
use shape_query::frequency::{FrequencyTable, PropertyEntity};

fn property(key: &str) -> Block {
    Block::Property(Property { property: key.to_string(), value: "v".to_string() })
}

fn resource(contents: Vec<Block>) -> Block {
    Block::Resource(ResourceBlock {
        resource_type: "template".to_string(),
        resource_name: "r".to_string(),
        contents,
    })
}

fn entity(name: &str, count: u64) -> PropertyEntity {
    PropertyEntity { property: name.to_string(), count }
}

fn table_of(names: &[&str]) -> FrequencyTable {
    let mut table = FrequencyTable::new();
    for name in names {
        table.record(name);
    }
    table
}

#[test]
fn new_table_is_empty() {
    let table = FrequencyTable::new();
    assert_eq!(table.len(), 0);
    assert_eq!(table.total(), 0);
    assert_eq!(table.count("a"), 0);
    assert_eq!(table.entries(), &vec![]);
    assert_eq!(table.ranked(), vec![]);
}

#[test]
fn record_counts_each_sighting() {
    let mut table = FrequencyTable::new();
    table.record("a");
    assert_eq!(table.entries(), &vec![entity("a", 1)]);
    table.record("b");
    assert_eq!(table.entries(), &vec![entity("a", 1), entity("b", 1)]);
    table.record("a");
    assert_eq!(table.entries(), &vec![entity("a", 2), entity("b", 1)]);
    assert_eq!(table.len(), 2);
    assert_eq!(table.total(), 3);
    assert_eq!(table.count("a"), 2);
    assert_eq!(table.count("b"), 1);
    assert_eq!(table.count("c"), 0);
}

#[test]
fn resource_with_children_a_b_a_reports_a_2_b_1() {
    let block = resource(vec![property("a"), property("b"), property("a")]);
    let mut table = FrequencyTable::new();
    assert!(table.has_room_for(&block));
    table.record_block(&block);
    assert_eq!(table.count("a"), 2);
    assert_eq!(table.count("b"), 1);
    assert_eq!(table.len(), 2);
    assert_eq!(table.total(), 3);
    assert_eq!(table.entries(), &vec![entity("a", 2), entity("b", 1)]);
}

#[test]
fn nested_properties_are_not_counted() {
    let block = resource(vec![
        property("a"),
        resource(vec![property("deep"), property("a")]),
        Block::Statement(StatementBlock {
            statement_type: "t".to_string(),
            statement_name: "n".to_string(),
            contents: vec![property("hidden")],
        }),
        Block::If(IfBlock { blocks: vec![property("a")], status: "s".to_string() }),
        property("b"),
    ]);
    let mut table = FrequencyTable::new();
    table.record_block(&block);
    assert_eq!(table.entries(), &vec![entity("a", 1), entity("b", 1)]);
    assert_eq!(table.count("deep"), 0);
    assert_eq!(table.count("hidden"), 0);
}

#[test]
fn blocks_that_are_no_resource_add_nothing() {
    let mut table = table_of(&["a"]);
    table.record_block(&property("a"));
    table.record_block(&Block::Statement(StatementBlock {
        statement_type: "t".to_string(),
        statement_name: "n".to_string(),
        contents: vec![property("a"), property("b")],
    }));
    table.record_block(&Block::When(vec!["a".to_string()]));
    assert_eq!(table.entries(), &vec![entity("a", 1)]);
    assert_eq!(table.total(), 1);
}

#[test]
fn record_all_counts_block_after_block() {
    let documents = vec![
        resource(vec![property("a"), property("b")]),
        property("ignored"),
        resource(vec![property("c"), property("a")]),
        resource(vec![]),
        resource(vec![property("b"), property("a")]),
    ];
    let mut table = FrequencyTable::new();
    table.record_all(&documents);
    assert_eq!(table.entries(), &vec![entity("a", 3), entity("b", 2), entity("c", 1)]);
    assert_eq!(table.total(), 6);

    let mut one_by_one = FrequencyTable::new();
    for document in &documents {
        one_by_one.record_block(document);
    }
    assert_eq!(one_by_one, table);
}

#[test]
fn counts_add_up_over_earlier_counts() {
    let mut table = table_of(&["x", "a"]);
    table.record_block(&resource(vec![property("a"), property("y"), property("a")]));
    assert_eq!(table.entries(), &vec![entity("x", 1), entity("a", 3), entity("y", 1)]);
}

#[test]
fn ranking_is_descending_and_stable() {
    let table = table_of(&["a", "b", "c", "a", "b"]);
    assert_eq!(table.entries(), &vec![entity("a", 2), entity("b", 2), entity("c", 1)]);
    assert_eq!(table.ranked(), vec![entity("a", 2), entity("b", 2), entity("c", 1)]);
}

#[test]
fn ranking_moves_larger_counts_forward() {
    let table = table_of(&["a", "b", "c", "c", "c", "b", "d"]);
    assert_eq!(
        table.ranked(),
        vec![entity("c", 3), entity("b", 2), entity("a", 1), entity("d", 1)]
    );
    assert_eq!(
        table.entries(),
        &vec![entity("a", 1), entity("b", 2), entity("c", 3), entity("d", 1)]
    );
}

#[test]
fn ranking_keeps_first_seen_order_among_equals() {
    let table = table_of(&["z", "y", "x", "w", "x", "z"]);
    assert_eq!(
        table.ranked(),
        vec![entity("z", 2), entity("x", 2), entity("y", 1), entity("w", 1)]
    );
}

#[test]
fn ranking_of_one_name() {
    let table = table_of(&["only", "only", "only"]);
    assert_eq!(table.ranked(), vec![entity("only", 3)]);
}

#[test]
fn has_room_for_tells_when_the_sum_would_not_fit() {
    let table = table_of(&["a"]);
    assert!(table.has_room_for(&resource(vec![property("a"), property("b")])));
    assert!(table.has_room_for(&property("a")));
}

#[test]
fn clone_keeps_names_counts_and_order() {
    let table = table_of(&["b", "a", "b"]);
    let copy = table.clone();
    assert_eq!(copy, table);
    assert_eq!(copy.entries(), &vec![entity("b", 2), entity("a", 1)]);
    assert_eq!(copy.total(), 3);
}

#[test]
fn names_differ_by_case_and_by_every_character() {
    let table = table_of(&["a", "A", "a ", "a", ""]);
    assert_eq!(
        table.entries(),
        &vec![entity("a", 2), entity("A", 1), entity("a ", 1), entity("", 1)]
    );
    assert_eq!(table.count(""), 1);
}
