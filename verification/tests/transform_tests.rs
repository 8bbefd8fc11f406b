use xcodesort::{make_path, reduce_read_mode, transform, ReadMode};

fn lines(strs: &[&str]) -> Vec<String> {
    strs.iter().map(|s| s.to_string()).collect()
}

#[test]
fn sorts_children_unregistered_first_then_registered() {
    // Z.swift and M.swift are not file references; A.swift is one.
    let input = lines(&[
        "/* Begin PBXFileReference section */",
        "AAA1 /* A.swift */ = {isa = PBXFileReference; };",
        "/* End PBXFileReference section */",
        "GRP /* Main */ = {",
        "\tisa = PBXGroup;",
        "\tchildren = (",
        "\t\tZZZ1 /* Z.swift */,",
        "\t\tAAA1 /* A.swift */,",
        "\t\tMMM1 /* M.swift */,",
        "\t);",
        "};",
    ]);
    let expected = lines(&[
        "/* Begin PBXFileReference section */",
        "AAA1 /* A.swift */ = {isa = PBXFileReference; };",
        "/* End PBXFileReference section */",
        "GRP /* Main */ = {",
        "\tisa = PBXGroup;",
        "\tchildren = (",
        "\t\tMMM1 /* M.swift */,",
        "\t\tZZZ1 /* Z.swift */,",
        "\t\tAAA1 /* A.swift */,",
        "\t);",
        "};",
    ]);
    assert_eq!(transform(&input), expected);
}

#[test]
fn marker_without_header_leaves_children_untouched() {
    // the pre-group marker has no block header before it: no capture
    let input = lines(&[
        "some line",
        "isa = PBXGroup;",
        "children = (",
        "\t\tZZZ1 /* Z.swift */,",
        "\t\tAAA1 /* A.swift */,",
        ");",
    ]);
    assert_eq!(transform(&input), input);
}

#[test]
fn empty_children_list_emits_nothing_extra() {
    let input = lines(&[
        "GRP /* Main */ = {",
        "\tisa = PBXGroup;",
        "\tchildren = (",
        "\t);",
        "};",
    ]);
    assert_eq!(transform(&input), input);
}

#[test]
fn registered_id_sorts_into_registered_run_regardless_of_name() {
    let input = lines(&[
        "/* Begin PBXFileReference section */",
        "DC6DBBF9215F677A004742CA /* File */ = {isa = PBXFileReference; };",
        "/* End PBXFileReference section */",
        "GRP /* Main */ = {",
        "\tisa = PBXGroup;",
        "\tchildren = (",
        "\t\tDC6DBBF9215F677A004742CA /* AAFile */,",
        "\t\tXYZ9 /* zz */,",
        "\t);",
        "};",
    ]);
    let expected = lines(&[
        "/* Begin PBXFileReference section */",
        "DC6DBBF9215F677A004742CA /* File */ = {isa = PBXFileReference; };",
        "/* End PBXFileReference section */",
        "GRP /* Main */ = {",
        "\tisa = PBXGroup;",
        "\tchildren = (",
        "\t\tXYZ9 /* zz */,",
        "\t\tDC6DBBF9215F677A004742CA /* AAFile */,",
        "\t);",
        "};",
    ]);
    assert_eq!(transform(&input), expected);
}

#[test]
fn transform_is_idempotent_on_sorted_output() {
    let input = lines(&[
        "/* Begin PBXFileReference section */",
        "AAA1 /* A.swift */ = {isa = PBXFileReference; };",
        "BBB1 /* B.swift */ = {isa = PBXFileReference; };",
        "/* End PBXFileReference section */",
        "GRP /* Main */ = {",
        "\tisa = PBXGroup;",
        "\tchildren = (",
        "\t\tZZZ1 /* Z.swift */,",
        "\t\tBBB1 /* B.swift */,",
        "\t\tAAA1 /* A.swift */,",
        "\t\tMMM1 /* M.swift */,",
        "\t);",
        "};",
    ]);
    let once = transform(&input);
    let twice = transform(&once);
    assert_eq!(twice, once);
}

#[test]
fn output_is_a_permutation_of_the_input() {
    let input = lines(&[
        "/* Begin PBXFileReference section */",
        "AAA1 /* A.swift */ = {isa = PBXFileReference; };",
        "/* End PBXFileReference section */",
        "GRP /* Main */ = {",
        "\tisa = PBXGroup;",
        "\tchildren = (",
        "\t\tZZZ1 /* Z.swift */,",
        "\t\tAAA1 /* A.swift */,",
        "\t);",
        "};",
    ]);
    let output = transform(&input);
    assert_eq!(output.len(), input.len());
    let mut sorted_in = input.clone();
    let mut sorted_out = output.clone();
    sorted_in.sort();
    sorted_out.sort();
    assert_eq!(sorted_out, sorted_in);
}

#[test]
fn two_groups_use_the_same_registry() {
    let input = lines(&[
        "/* Begin PBXFileReference section */",
        "AAA1 /* A.swift */ = {isa = PBXFileReference; };",
        "/* End PBXFileReference section */",
        "GRP1 /* One */ = {",
        "\tisa = PBXGroup;",
        "\tchildren = (",
        "\t\tAAA1 /* A.swift */,",
        "\t\tSUB1 /* Sub */,",
        "\t);",
        "};",
        "GRP2 /* Two */ = {",
        "\tisa = PBXGroup;",
        "\tchildren = (",
        "\t\tAAA1 /* A.swift */,",
        "\t\tBBB1 /* B.swift */,",
        "\t);",
        "};",
    ]);
    let output = transform(&input);
    assert_eq!(output[6], "\t\tSUB1 /* Sub */,");
    assert_eq!(output[7], "\t\tAAA1 /* A.swift */,");
    assert_eq!(output[13], "\t\tBBB1 /* B.swift */,");
    assert_eq!(output[14], "\t\tAAA1 /* A.swift */,");
}

#[test]
fn equal_names_keep_their_relative_order() {
    let input = lines(&[
        "GRP /* Main */ = {",
        "\tisa = PBXGroup;",
        "\tchildren = (",
        "\t\tBBB1 /* same.swift */,",
        "\t\tAAA1 /* same.swift */,",
        "\t);",
        "};",
    ]);
    let output = transform(&input);
    assert_eq!(output[3], "\t\tBBB1 /* same.swift */,");
    assert_eq!(output[4], "\t\tAAA1 /* same.swift */,");
}

#[test]
fn indented_file_references_register() {
    let input = lines(&[
        "/* Begin PBXFileReference section */",
        "\t\tAAA1 /* A.swift */ = {isa = PBXFileReference; };",
        "/* End PBXFileReference section */",
        "GRP /* Main */ = {",
        "\tisa = PBXGroup;",
        "\tchildren = (",
        "\t\tAAA1 /* A.swift */,",
        "\t\tSUB1 /* Sub */,",
        "\t);",
        "};",
    ]);
    let output = transform(&input);
    assert_eq!(output[6], "\t\tSUB1 /* Sub */,");
    assert_eq!(output[7], "\t\tAAA1 /* A.swift */,");
}

#[test]
fn make_path_resolves_directories() {
    assert_eq!(make_path("a/b.pbxproj", false), "a/b.pbxproj");
    assert_eq!(make_path("proj", true), "proj/project.pbxproj");
    assert_eq!(make_path("proj/", true), "proj/project.pbxproj");
}

#[test]
fn reduce_read_mode_follows_the_rules() {
    let header = "DC3EDF8121556470004B337E /* Auth */ = {";
    assert_eq!(
        reduce_read_mode(&ReadMode::Normal, "isa = PBXGroup;", header),
        ReadMode::PreGroup
    );
    assert_eq!(
        reduce_read_mode(&ReadMode::Normal, "isa = PBXGroup;", "some"),
        ReadMode::Normal
    );
    assert_eq!(
        reduce_read_mode(&ReadMode::Group, "isa = PBXGroup;", "some"),
        ReadMode::Group
    );
    assert_eq!(
        reduce_read_mode(&ReadMode::PreGroup, "\tchildren = (", "isa = PBXGroup;"),
        ReadMode::Group
    );
    assert_eq!(
        reduce_read_mode(&ReadMode::Group, "\t);", "x"),
        ReadMode::Normal
    );
    assert_eq!(
        reduce_read_mode(&ReadMode::Normal, "/* Begin PBXFileReference section */", ""),
        ReadMode::Files
    );
    assert_eq!(
        reduce_read_mode(&ReadMode::Files, "/* End PBXFileReference section */", ""),
        ReadMode::Normal
    );
}
