use xcodesort::file_string::{
    children_name, file_id, has_block_name, has_file_id, is_end_files, is_end_parent,
    is_pre_group, is_start_files, is_start_parent,
};
use xcodesort::SortError;

#[test]
fn should_be_pre_group() {
    assert_eq!(is_pre_group("isa = PBXGroup;"), true);
    assert_eq!(is_pre_group("some"), false);
}

#[test]
fn should_parse_block_name() {
    assert_eq!(has_block_name("DC3EDF8121556470004B337E /* Auth */ = {"), true);
    assert_eq!(has_block_name("DC3EDF8121556470004B337E /* Auth = {"), false);
}

#[test]
fn should_be_start_parent() {
    assert_eq!(is_start_parent("children = ("), true);
}

#[test]
fn should_be_end_parent() {
    assert_eq!(is_end_parent(");"), true);
}

#[test]
fn should_parse_children_name() {
    let string = "DC3EDF8821556612004B337E /* MainViewController.swift */,";
    assert_eq!(children_name(string).unwrap(), "MainViewController.swift");
}

#[test]
fn should_be_start_files() {
    assert_eq!(is_start_files("/* Begin PBXFileReference section */"), true);
}

#[test]
fn should_be_end_files() {
    assert_eq!(is_end_files("/* End PBXFileReference section */"), true);
}

#[test]
fn should_be_file_id() {
    let string = r#"DC6DBBF9215F677A004742CA /* File */ = {isa = PBXFileReference; lastKnownFileType = text; path = File; sourceTree = "<group>"; }; */"#;
    assert_eq!(has_file_id(string), true);
}

#[test]
fn should_parse_file_id() {
    let string = r#"DC6DBBF9215F677A004742CA /* File */ = {isa = PBXFileReference; lastKnownFileType = text; path = File; sourceTree = "<group>"; }; */"#;
    assert_eq!(file_id(string).unwrap(), "DC6DBBF9215F677A004742CA");
}

#[test]
fn children_name_rejects_other_shapes() {
    assert_eq!(
        children_name("no comment here"),
        Err(SortError::ChildrenNameParserError)
    );
    assert_eq!(
        children_name("AAA /* name */ = {"),
        Err(SortError::ChildrenNameParserError)
    );
}

#[test]
fn file_id_rejects_other_shapes() {
    assert_eq!(file_id(""), Err(SortError::FileIdParserError));
    assert_eq!(file_id("justoneword"), Err(SortError::FileIdParserError));
    assert_eq!(file_id("two words"), Err(SortError::FileIdParserError));
}

#[test]
fn end_parent_allows_surrounding_whitespace_only() {
    assert_eq!(is_end_parent("\t\t);"), true);
    assert_eq!(is_end_parent("   );   "), true);
    assert_eq!(is_end_parent("foo );"), false);
}

#[test]
fn child_name_may_contain_spaces() {
    assert_eq!(
        children_name("AA11 /* My File.swift */,").unwrap(),
        "My File.swift"
    );
}

#[test]
fn child_name_strips_opener_run_and_one_closing_space() {
    // the run after the opener is skipped whole; only the single
    // whitespace before the closing `*/,` is dropped at the end
    assert_eq!(children_name("AA1 /*  sp  */,").unwrap(), "sp ");
}

#[test]
fn block_name_accepts_tab_whitespace() {
    assert_eq!(has_block_name("AA11\t/*\tAuth\t*/\t=\t{"), true);
}

#[test]
fn indented_file_reference_line_has_id() {
    assert_eq!(
        file_id("\t\tDC6DBBF9215F677A004742CA /* File */ = {isa = PBXFileReference; };").unwrap(),
        "DC6DBBF9215F677A004742CA"
    );
}
