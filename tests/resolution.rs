use error_set::error::{Error, ErrorKind};
use error_set::parser::parse;
use error_set::resolve::{resolve, resolve_source, ErrorEnum, ErrorEnumBuilder};

fn resolve_text(src: &str) -> Result<Vec<ErrorEnum>, Error> {
    resolve_source(src).map(|(enums, _)| enums)
}

fn variant_names(enums: &[ErrorEnum], name: &str) -> Vec<String> {
    let e = enums.iter().find(|e| e.error_name == name).expect("declared");
    e.error_variants.iter().map(|v| v.name.clone()).collect()
}

fn includes(big: &[String], small: &[String]) -> bool {
    small.iter().all(|s| big.contains(s))
}

#[test]
fn into_works_correctly() {
    let enums = resolve_text(
        "MagazineParsingError = { MissingNameArg, MissingPublishTimeArg };
         BookParsingError = { MissingNameArg, MissingPublishTimeArg, MissingDescriptionArg, };
         SetLevelError = MagazineParsingError || BookParsingError;",
    )
    .unwrap();
    let magazine = variant_names(&enums, "MagazineParsingError");
    let book = variant_names(&enums, "BookParsingError");
    let set_level = variant_names(&enums, "SetLevelError");
    println!("{:?}", set_level);
    assert_eq!(set_level, vec!["MissingNameArg", "MissingPublishTimeArg", "MissingDescriptionArg"]);
    // Every magazine and book error converts into the set-level error.
    assert!(includes(&set_level, &magazine));
    assert!(includes(&set_level, &book));
    // A magazine error converts into a book error.
    assert!(includes(&book, &magazine));
}

#[test]
fn mod_test() {
    let enums = resolve_text(
        "MagazineParsingError = { MissingNameArg, MissingPublishTimeArg };
         BookParsingError = { MissingNameArg, MissingPublishTimeArg, MissingDescriptionArg, };
         SetLevelError = MagazineParsingError || { EmptySet1 } || BookParsingError || { EmptySet2 };",
    )
    .unwrap();
    let set_level = variant_names(&enums, "SetLevelError");
    assert!(set_level.contains(&"EmptySet1".to_string()));
    assert!(set_level.contains(&"EmptySet2".to_string()));
    let book = variant_names(&enums, "BookParsingError");
    assert!(includes(&set_level, &book));
    assert_eq!(set_level.len(), 5);
}

#[test]
fn only_empty_set() {
    let enums = resolve_text("SetLevelError = { EmptySet1, EmptySet2, };").unwrap();
    assert_eq!(variant_names(&enums, "SetLevelError"), vec!["EmptySet1", "EmptySet2"]);
}

#[test]
fn scenario_a_dedup_across_references() {
    let enums = resolve_text(
        "Mag = { MissingName, MissingDate }; Book = { MissingName, MissingDate, MissingDesc }; All = Mag || Book;",
    )
    .unwrap();
    assert_eq!(variant_names(&enums, "All"), vec!["MissingName", "MissingDate", "MissingDesc"]);
}

#[test]
fn scenario_b_two_node_cycle() {
    let err = resolve_text("A = B; B = A;").unwrap_err();
    match err.kind {
        ErrorKind::Cycle(path) => assert_eq!(path, vec!["A", "B", "A"]),
        other => panic!("expected a cycle, got {:?}", other),
    }
    assert!(err.message.contains("A->B->A"));
}

#[test]
fn self_reference_is_a_cycle() {
    let err = resolve_text("A = A;").unwrap_err();
    match err.kind {
        ErrorKind::Cycle(path) => assert_eq!(path, vec!["A", "A"]),
        other => panic!("expected a cycle, got {:?}", other),
    }
    assert_eq!(err.at, 0);
}

#[test]
fn cycle_reached_from_outside_reports_only_the_cycle() {
    let err = resolve_text("Top = { T } || A; A = B; B = C; C = A;").unwrap_err();
    match err.kind {
        ErrorKind::Cycle(path) => assert_eq!(path, vec!["A", "B", "C", "A"]),
        other => panic!("expected a cycle, got {:?}", other),
    }
}

#[test]
fn generic_substitution_renames_in_the_copy_only() {
    let enums = resolve_text("Generic<T> = { Wrap(T), Holder { value: T, other: u8 } }; Use = Generic<U>;").unwrap();
    let generic = enums.iter().find(|e| e.error_name == "Generic").unwrap();
    let used = enums.iter().find(|e| e.error_name == "Use").unwrap();
    assert_eq!(used.error_variants[0].name, "Wrap");
    assert_eq!(used.error_variants[0].source_type.as_deref(), Some("U"));
    let fields = used.error_variants[1].fields.as_ref().unwrap();
    assert_eq!(fields[0].ty, "U");
    assert_eq!(fields[1].ty, "u8");
    assert_eq!(generic.error_variants[0].source_type.as_deref(), Some("T"));
    assert_eq!(generic.error_variants[1].fields.as_ref().unwrap()[0].ty, "T");
    assert_eq!(generic.generics, vec!["T"]);
}

#[test]
fn arity_mismatch_is_reported_with_both_counts() {
    let err = resolve_text("G<T> = { W { x: T } }; U = G;").unwrap_err();
    match err.kind {
        ErrorKind::ArityMismatch { supplied, expected } => {
            assert_eq!(supplied, 0);
            assert_eq!(expected, 1);
        }
        other => panic!("expected an arity mismatch, got {:?}", other),
    }
    assert_eq!(err.at, 27);
    let err = resolve_text("G = { W }; U = G<A, B>;").unwrap_err();
    assert!(matches!(err.kind, ErrorKind::ArityMismatch { supplied: 2, expected: 0 }));
}

#[test]
fn undeclared_reference() {
    let err = resolve_text("A = { X } || Missing;").unwrap_err();
    assert!(matches!(err.kind, ErrorKind::Undeclared));
    assert_eq!(err.at, 13);
}

#[test]
fn inline_definition_wins_over_referenced_one() {
    let enums = resolve_text("B = { V1(std::io::Error), V2 }; A = { V1 } || B;").unwrap();
    let a = enums.iter().find(|e| e.error_name == "A").unwrap();
    let v1: Vec<_> = a.error_variants.iter().filter(|v| v.name == "V1").collect();
    assert_eq!(v1.len(), 1);
    assert!(v1[0].source_type.is_none());
    assert_eq!(variant_names(&enums, "A"), vec!["V1", "V2"]);
}

#[test]
fn transitive_inclusion_through_two_references() {
    let enums = resolve_text("A = { X } || B; B = { Y } || C; C = { Z };").unwrap();
    assert_eq!(variant_names(&enums, "A"), vec!["X", "Y", "Z"]);
    assert_eq!(variant_names(&enums, "B"), vec!["Y", "Z"]);
}

#[test]
fn inline_parts_come_before_referenced_variants() {
    let enums = resolve_text("B = { Y }; A = B || { X };").unwrap();
    assert_eq!(variant_names(&enums, "A"), vec!["X", "Y"]);
}

#[test]
fn declaration_of_references_only() {
    let enums = resolve_text("A = { X }; B = A || A; C = B;").unwrap();
    assert_eq!(variant_names(&enums, "B"), vec!["X"]);
    assert_eq!(variant_names(&enums, "C"), vec!["X"]);
}

#[test]
fn reference_names_in_order_with_duplicates() {
    let set = parse("A = { X }; B = A || A; C = B || A;").unwrap();
    let (_, names) = resolve(set).unwrap();
    assert_eq!(names, vec!["A", "A", "B", "A"]);
}

#[test]
fn resolution_keeps_declaration_order_and_headers() {
    let enums = resolve_text("#[derive(Clone)] X<T> = { A(T) }; Y = X<u8>;").unwrap();
    assert_eq!(enums[0].error_name, "X");
    assert_eq!(enums[1].error_name, "Y");
    assert_eq!(enums[0].attributes.len(), 1);
    assert_eq!(enums[0].attributes[0].text, "derive(Clone)");
}

#[test]
fn arity_message_names_both_counts() {
    let err = resolve_text("G<T> = { W { x: T } }; U = G;").unwrap_err();
    assert_eq!(err.message, "A reference to G was declared with 0 generic param(s), but its declaration takes 1.");
    let err = resolve_text("G = { W }; U = G<A, B, C, D, E, F, H, I, J, K, L, M>;").unwrap_err();
    assert!(err.message.contains("with 12 generic param(s), but its declaration takes 0."));
}

#[test]
fn builders_are_equal_by_name() {
    let a = ErrorEnumBuilder::new("A".to_string(), 0, Vec::new(), Vec::new(), Default::default());
    let a2 = ErrorEnumBuilder::new("A".to_string(), 9, Vec::new(), vec!["T".to_string()], Default::default());
    let b = ErrorEnumBuilder::new("B".to_string(), 0, Vec::new(), Vec::new(), Default::default());
    assert!(a == a2);
    assert!(a != b);
}

#[test]
fn duplicate_declaration_names_resolve_to_the_first() {
    let enums = resolve_text("X = { A }; X = { B }; Y = X;").unwrap();
    assert_eq!(enums.len(), 3);
    assert_eq!(variant_names(&enums, "Y"), vec!["A"]);
}

#[test]
fn parse_errors_come_through_the_entry_point() {
    let err = resolve_source("A = {};").unwrap_err();
    assert!(matches!(err.kind, ErrorKind::Syntax));
    let (enums, names) = resolve_source("A = { X }; B = A;").unwrap();
    assert_eq!(enums.len(), 2);
    assert_eq!(names, vec!["A"]);
    let direct = resolve(parse("A = { X }; B = A;").unwrap()).unwrap();
    assert_eq!(direct.0.len(), 2);
}

#[test]
fn cycle_path_starts_at_first_visit() {
    let err = resolve_text("A = { X } || B; B = C; C = B;").unwrap_err();
    match err.kind {
        ErrorKind::Cycle(path) => assert_eq!(path, vec!["B", "C", "B"]),
        other => panic!("expected a cycle, got {:?}", other),
    }
    assert_eq!(err.at, 16);
}
