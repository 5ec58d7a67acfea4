use shape_query::shape::{Blk, CodeStructure, ShapeError};

fn path_of(code: &str) -> String {
    CodeStructure::new(code).get_match_string()
}

#[test]
fn statement_then_resource_compiles_to_the_resource_label() {
    assert_eq!(path_of("SR"), "Statement.contents.Resource");
}

#[test]
fn single_container_compiles_to_its_label() {
    assert_eq!(path_of("S"), "Statement");
    assert_eq!(path_of("R"), "Resource");
    assert_eq!(path_of("I"), "If");
    assert_eq!(path_of("C"), "Case");
}

#[test]
fn every_level_but_the_last_keeps_its_field() {
    assert_eq!(path_of("SSR"), "Statement.contents.Statement.contents.Resource");
    assert_eq!(path_of("IR"), "If.blocks.Resource");
    assert_eq!(path_of("CR"), "Case.blocks.Resource");
    assert_eq!(path_of("SICR"), "Statement.contents.If.blocks.Case.blocks.Resource");
    assert_eq!(path_of("RS"), "Resource.contents.Statement");
}

#[test]
fn leaves_add_no_segment() {
    assert_eq!(path_of("SRP"), "Statement.contents.Resource");
    assert_eq!(path_of("SPR"), "Statement.contents.Resource");
    assert_eq!(path_of("USUR"), "Statement.contents.Resource");
}

#[test]
fn empty_code_has_an_empty_path() {
    assert_eq!(path_of(""), "");
}

#[test]
fn all_leaf_code_has_an_empty_path() {
    assert_eq!(path_of("P"), "");
    assert_eq!(path_of("PUUP"), "");
}

#[test]
fn trailing_branch_is_cut_like_any_other_level() {
    assert_eq!(path_of("SI"), "Statement.contents.If");
    assert_eq!(path_of("SSC"), "Statement.contents.Statement.contents.Case");
}

#[test]
fn letters_map_to_kinds_and_other_characters_are_skipped() {
    let shape = CodeStructure::new("SRPICU");
    assert_eq!(
        shape.tokens(),
        &vec![Blk::Statement, Blk::Resource, Blk::Property, Blk::If, Blk::Case, Blk::Unknown]
    );
    let noisy = CodeStructure::new("s S-x R\u{e9}9");
    assert_eq!(noisy.tokens(), &vec![Blk::Statement, Blk::Resource]);
    assert_eq!(noisy.get_match_string(), "Statement.contents.Resource");
    assert_eq!(CodeStructure::new("").tokens().len(), 0);
}

#[test]
fn from_letter_reads_the_six_letters_only() {
    assert_eq!(Blk::from_letter('S'), Some(Blk::Statement));
    assert_eq!(Blk::from_letter('R'), Some(Blk::Resource));
    assert_eq!(Blk::from_letter('P'), Some(Blk::Property));
    assert_eq!(Blk::from_letter('I'), Some(Blk::If));
    assert_eq!(Blk::from_letter('C'), Some(Blk::Case));
    assert_eq!(Blk::from_letter('U'), Some(Blk::Unknown));
    assert_eq!(Blk::from_letter('s'), None);
    assert_eq!(Blk::from_letter('.'), None);
}

#[test]
fn segments_and_containers() {
    assert_eq!(Blk::Statement.segment_str(), "Statement.contents.");
    assert_eq!(Blk::Resource.segment_str(), "Resource.contents.");
    assert_eq!(Blk::If.segment_str(), "If.blocks.");
    assert_eq!(Blk::Case.segment_str(), "Case.blocks.");
    assert_eq!(Blk::Property.segment_str(), "");
    assert_eq!(Blk::Unknown.segment_str(), "");
    assert!(Blk::Statement.holds_children());
    assert!(Blk::Resource.holds_children());
    assert!(Blk::If.holds_children());
    assert!(Blk::Case.holds_children());
    assert!(!Blk::Property.holds_children());
    assert!(!Blk::Unknown.holds_children());
}

#[test]
fn compile_accepts_a_shape_that_ends_in_a_statement_or_resource() {
    assert_eq!(
        CodeStructure::new("SR").compile(),
        Ok("Statement.contents.Resource".to_string())
    );
    assert_eq!(CodeStructure::new("IS").compile(), Ok("If.blocks.Statement".to_string()));
    assert_eq!(CodeStructure::new("SRP").compile(), Ok("Statement.contents.Resource".to_string()));
}

#[test]
fn compile_refuses_a_shape_without_container() {
    assert_eq!(CodeStructure::new("").compile(), Err(ShapeError::NoContainer));
    assert_eq!(CodeStructure::new("PU").compile(), Err(ShapeError::NoContainer));
    assert_eq!(CodeStructure::new("xyz").compile(), Err(ShapeError::NoContainer));
}

#[test]
fn compile_refuses_a_trailing_branch() {
    assert_eq!(CodeStructure::new("SI").compile(), Err(ShapeError::TrailingBranch));
    assert_eq!(CodeStructure::new("SSC").compile(), Err(ShapeError::TrailingBranch));
    assert_eq!(CodeStructure::new("I").compile(), Err(ShapeError::TrailingBranch));
}

#[test]
fn compile_agrees_with_get_match_string_where_it_succeeds() {
    for code in ["S", "R", "SR", "RS", "ISR", "CSSR", "SRU"] {
        let shape = CodeStructure::new(code);
        assert_eq!(shape.compile(), Ok(shape.get_match_string()));
    }
}
