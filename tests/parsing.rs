use error_set::ast::{reshape, Attribute, Part, Shape, Variant};
use error_set::error::ErrorKind;
use error_set::lexer::{chars_of, lex, TokenKind};
use error_set::parser::{disabled_of, extract_cfg, extract_display_attribute, parse, parse_tokens, split_named, Ctx, DisableArg};
use error_set::resolve::{does_occupy_the_same_space, merge_into, resolve_builders, substitute, ErrorEnumBuilder};

fn variant(name: &str) -> Variant {
    Variant {
        attributes: Vec::new(),
        cfg_attributes: Vec::new(),
        display: None,
        name: name.to_string(),
        fields: None,
        source_type: None,
        backtrace_type: None,
    }
}

fn attribute(name: &str, args: Option<&str>) -> Attribute {
    Attribute { text: name.to_string(), name: Some(name.to_string()), args: args.map(|a| a.to_string()), at: 0 }
}

#[test]
fn lexes_identifiers_punctuation_and_literals() {
    let chars = chars_of("A<T> = { X(\"a;b\") } // done\n|| 'c' 12;");
    let toks = lex(&chars).unwrap();
    let kinds: Vec<String> = toks
        .iter()
        .map(|t| match t.kind {
            TokenKind::Ident => "id".to_string(),
            TokenKind::Literal => "lit".to_string(),
            TokenKind::Punct(c) => c.to_string(),
        })
        .collect();
    assert_eq!(kinds, vec!["id", "<", "id", ">", "=", "{", "id", "(", "lit", ")", "}", "|", "|", "lit", "lit", ";"]);
    assert_eq!((toks[0].start, toks[0].end), (0, 1));
    assert_eq!((toks[8].start, toks[8].end), (11, 16));
}

#[test]
fn unterminated_string_is_a_syntax_error() {
    let err = lex(&chars_of("A = { X(\"oops) };")).unwrap_err();
    assert!(matches!(err.kind, ErrorKind::Syntax));
    assert_eq!(err.at, 8);
}

#[test]
fn parses_declarations_parts_and_variants() {
    let set = parse(
        "Base<T> = { Io(std::io::Error), Parse(Box<dyn E>, Backtrace) { line: usize, item: T }, Empty {}, Plain };
         Top = Base<U> || { Other };",
    )
    .unwrap();
    assert_eq!(set.declarations.len(), 2);
    let base = &set.declarations[0];
    assert_eq!(base.name, "Base");
    assert_eq!(base.generics, vec!["T"]);
    let vs = match &base.parts[0] {
        Part::Inline(vs) => vs,
        Part::Ref(_) => panic!("expected an inline part"),
    };
    assert_eq!(vs.len(), 4);
    assert_eq!(vs[0].source_type.as_deref(), Some("std::io::Error"));
    assert!(vs[0].fields.is_none());
    assert_eq!(vs[1].source_type.as_deref(), Some("Box<dyn E>"));
    assert_eq!(vs[1].backtrace_type.as_deref(), Some("Backtrace"));
    let fields = vs[1].fields.as_ref().unwrap();
    assert_eq!(fields.len(), 2);
    assert_eq!(fields[0].name, "line");
    assert_eq!(fields[1].ty, "T");
    assert_eq!(vs[2].fields.as_ref().map(|f| f.len()), Some(0));
    assert!(vs[3].fields.is_none());
    let top = &set.declarations[1];
    assert_eq!(top.parts.len(), 2);
    match &top.parts[0] {
        Part::Ref(r) => {
            assert_eq!(r.name, "Base");
            assert_eq!(r.generic_refs, vec!["U"]);
        }
        Part::Inline(_) => panic!("expected a reference"),
    }
}

#[test]
fn empty_source_is_an_empty_set() {
    assert_eq!(parse("").unwrap().declarations.len(), 0);
    assert_eq!(parse("  // nothing\n").unwrap().declarations.len(), 0);
}

#[test]
fn empty_inline_block_is_rejected() {
    let err = parse("A = {};").unwrap_err();
    assert!(matches!(err.kind, ErrorKind::Syntax));
    assert!(err.message.contains("cannot be empty"));
    assert_eq!(err.at, 4);
}

#[test]
fn declaration_without_parts_is_rejected() {
    let err = parse("A = ;").unwrap_err();
    assert!(matches!(err.kind, ErrorKind::Syntax));
    assert_eq!(err.at, 4);
}

#[test]
fn missing_terminator_points_at_last_token() {
    let err = parse("A = { X }").unwrap_err();
    assert!(matches!(err.kind, ErrorKind::Syntax));
    assert_eq!(err.at, 8);
    let err = parse("A = { X } B = { Y };").unwrap_err();
    assert_eq!(err.at, 10);
}

#[test]
fn parts_need_double_bar() {
    assert!(parse("A = { X } | B;").is_err());
    assert!(parse("A = { X } | | B;").is_err());
    assert!(parse("A = { X } || B;").is_ok());
}

#[test]
fn more_than_two_source_types_is_rejected() {
    let err = parse("A = { X(a::B, C, D) };").unwrap_err();
    assert!(matches!(err.kind, ErrorKind::Syntax));
}

#[test]
fn two_display_attributes_are_rejected() {
    let err = parse("A = { #[display(\"a\")] #[display(\"b\")] X };").unwrap_err();
    assert!(matches!(err.kind, ErrorKind::DuplicateDisplay));
    assert_eq!(err.at, 6);
}

#[test]
fn display_and_cfg_attributes_are_split_out() {
    let set = parse("A = { #[cfg(test)] #[display(\"x {}\", y)] #[doc = \"d\"] X };").unwrap();
    let v = match &set.declarations[0].parts[0] {
        Part::Inline(vs) => &vs[0],
        Part::Ref(_) => panic!("expected an inline part"),
    };
    assert_eq!(v.display.as_deref(), Some("\"x {}\", y"));
    assert_eq!(v.cfg_attributes.len(), 1);
    assert_eq!(v.cfg_attributes[0].text, "cfg(test)");
    assert_eq!(v.attributes.len(), 1);
    assert_eq!(v.attributes[0].text, "doc = \"d\"");
}

#[test]
fn disable_options_are_read() {
    let set = parse("#[disable(From(std::io::Error, Other), Display)] #[derive(Clone)] A = { X };").unwrap();
    let d = &set.declarations[0];
    assert_eq!(d.disabled.from, Some(vec!["std::io::Error".to_string(), "Other".to_string()]));
    assert!(d.disabled.display);
    assert!(!d.disabled.debug);
    assert!(!d.disabled.error);
    assert_eq!(d.attributes.len(), 1);
    assert_eq!(d.attributes[0].name.as_deref(), Some("derive"));
}

#[test]
fn last_disable_attribute_wins() {
    let set = parse("#[disable(Debug)] #[disable(Error)] A = { X };").unwrap();
    let d = &set.declarations[0].disabled;
    assert!(!d.debug);
    assert!(d.error);
    assert!(d.from.is_none());
}

#[test]
fn invalid_disable_options_are_rejected() {
    let err = parse("#[disable(Foo)] A = { X };").unwrap_err();
    assert!(matches!(err.kind, ErrorKind::InvalidDisable));
    assert_eq!(err.at, 10);
    let err = parse("#[disable(Display(x))] A = { X };").unwrap_err();
    assert!(matches!(err.kind, ErrorKind::InvalidDisable));
    let err = parse("#[disable(, )] A = { X };").unwrap_err();
    assert!(matches!(err.kind, ErrorKind::Syntax));
}

#[test]
fn dangling_attribute_is_rejected() {
    let err = parse("#[derive(Debug)]").unwrap_err();
    assert!(matches!(err.kind, ErrorKind::Syntax));
    assert!(err.message.contains("dangling"));
}

#[test]
fn split_named_keeps_order() {
    let attrs = || vec![attribute("cfg", Some("a")), attribute("doc", None), attribute("cfg", Some("b")), attribute("cfg", None)];
    let (rest, cfgs) = split_named(attrs(), "cfg");
    assert_eq!(cfgs.iter().map(|a| a.args.clone().unwrap()).collect::<Vec<_>>(), vec!["a", "b"]);
    assert_eq!(rest.len(), 2);
    let (rest2, cfgs2) = extract_cfg(attrs());
    assert_eq!(rest2.len(), rest.len());
    assert_eq!(cfgs2.len(), 2);
}

#[test]
fn extract_display_removes_the_attribute() {
    let mut attrs = vec![attribute("doc", None), attribute("display", Some("\"m\""))];
    let d = extract_display_attribute(&mut attrs).unwrap();
    assert_eq!(d.as_deref(), Some("\"m\""));
    assert_eq!(attrs.len(), 1);
    let mut none = vec![attribute("doc", None)];
    assert!(extract_display_attribute(&mut none).unwrap().is_none());
    assert_eq!(none.len(), 1);
}

#[test]
fn same_space_is_decided_by_name_alone() {
    let mut a = variant("V");
    a.source_type = Some("E".to_string());
    let b = variant("V");
    assert!(does_occupy_the_same_space(&a, &b));
    assert!(!does_occupy_the_same_space(&a, &variant("W")));
}

#[test]
fn merge_keeps_first_and_drops_later_duplicates() {
    let mut dst = vec![variant("A")];
    merge_into(&mut dst, &vec![variant("B"), variant("A"), variant("B"), variant("C")]);
    assert_eq!(dst.iter().map(|v| v.name.clone()).collect::<Vec<_>>(), vec!["A", "B", "C"]);
}

#[test]
fn substitute_renames_matching_types_only() {
    let mut v = variant("V");
    v.source_type = Some("T".to_string());
    v.fields = Some(vec![
        error_set::ast::Field { name: "a".to_string(), ty: "T".to_string() },
        error_set::ast::Field { name: "b".to_string(), ty: "Vec<T>".to_string() },
    ]);
    let out = substitute(&vec![v], &vec!["T".to_string()], &vec!["X".to_string()]);
    assert_eq!(out[0].source_type.as_deref(), Some("X"));
    let f = out[0].fields.as_ref().unwrap();
    assert_eq!(f[0].ty, "X");
    assert_eq!(f[1].ty, "Vec<T>");
}

#[test]
fn reshape_follows_fields_and_source() {
    let mut v = variant("V");
    assert!(matches!(reshape(&v), Shape::Named));
    v.fields = Some(Vec::new());
    assert!(matches!(reshape(&v), Shape::Struct));
    v.source_type = Some("E".to_string());
    assert!(matches!(reshape(&v), Shape::SourceStruct));
    v.fields = None;
    assert!(matches!(reshape(&v), Shape::SourceTuple));
}

#[test]
fn resolving_resolved_builders_changes_nothing() {
    let mut a = ErrorEnumBuilder::new("A".to_string(), 0, Vec::new(), Vec::new(), Default::default());
    a.error_variants.push(variant("X"));
    a.error_variants.push(variant("X"));
    let mut b = ErrorEnumBuilder::new("B".to_string(), 10, Vec::new(), vec!["T".to_string()], Default::default());
    b.error_variants.push(variant("Y"));
    let out = resolve_builders(vec![a, b]).unwrap();
    assert_eq!(out[0].error_variants.iter().map(|v| v.name.clone()).collect::<Vec<_>>(), vec!["X", "X"]);
    assert_eq!(out[1].error_variants.len(), 1);
    assert_eq!(out[1].generics, vec!["T"]);
}

#[test]
fn whitespace_only_text_is_an_empty_set() {
    assert_eq!(parse(" \n\t\r ").unwrap().declarations.len(), 0);
}

#[test]
fn keyword_like_names_and_paths_in_types() {
    let set = parse("A = { X { f: std::collections::HashMap<String, Vec<u8>>, g: &'static str, h: [u8; 4] } };").unwrap();
    let v = match &set.declarations[0].parts[0] {
        Part::Inline(vs) => &vs[0],
        Part::Ref(_) => panic!("expected an inline part"),
    };
    let f = v.fields.as_ref().unwrap();
    assert_eq!(f.len(), 3);
    assert_eq!(f[0].ty, "std::collections::HashMap<String, Vec<u8>>");
    assert_eq!(f[1].ty, "&'static str");
    assert_eq!(f[2].ty, "[u8; 4]");
}

fn option(name: &str, refs: &[&str]) -> DisableArg {
    DisableArg { name: name.to_string(), at: 0, refs: refs.iter().map(|r| r.to_string()).collect() }
}

#[test]
fn disable_options_set_switches_and_last_from_wins() {
    let d = disabled_of(vec![option("From", &["A"]), option("Debug", &[]), option("From", &["B", "C"])]).unwrap();
    assert_eq!(d.from, Some(vec!["B".to_string(), "C".to_string()]));
    assert!(d.debug && !d.display && !d.error);
    let none = disabled_of(Vec::new()).unwrap();
    assert!(none.from.is_none() && !none.display && !none.debug && !none.error);
    let mut bad = option("Error", &["X"]);
    bad.at = 7;
    let err = disabled_of(vec![option("Display", &[]), bad, option("Nope", &[])]).unwrap_err();
    assert!(matches!(err.kind, ErrorKind::InvalidDisable));
    assert_eq!(err.at, 7);
}

#[test]
fn parse_tokens_reads_scenario_a() {
    let src = "Mag = { MissingName, MissingDate }; Book = { MissingName, MissingDate, MissingDesc }; All = Mag || Book;";
    let chars = chars_of(src);
    let toks = lex(&chars).unwrap();
    let cx = Ctx { src: src.to_string(), chars, toks };
    let set = parse_tokens(&cx).unwrap();
    let names: Vec<String> = set.declarations.iter().map(|d| d.name.clone()).collect();
    assert_eq!(names, vec!["Mag", "Book", "All"]);
    match (&set.declarations[2].parts[0], &set.declarations[2].parts[1]) {
        (Part::Ref(a), Part::Ref(b)) => {
            assert_eq!(a.name, "Mag");
            assert_eq!(b.name, "Book");
            assert!(a.generic_refs.is_empty());
        }
        _ => panic!("expected two references"),
    }
}

#[test]
fn references_only_declaration_parses() {
    let set = parse("A = B; B = A;").unwrap();
    assert_eq!(set.declarations.len(), 2);
    assert_eq!(set.declarations[0].parts.len(), 1);
    assert!(matches!(&set.declarations[0].parts[0], Part::Ref(r) if r.name == "B"));
}

#[test]
fn missing_equals_and_trailing_equals_are_rejected() {
    assert!(parse("A { X };").is_err());
    let err = parse("A =").unwrap_err();
    assert_eq!(err.at, 2);
    let err = parse("A = ;").unwrap_err();
    assert!(matches!(err.kind, ErrorKind::Syntax));
}

#[test]
fn unterminated_block_comment_is_rejected() {
    let err = lex(&chars_of("A = { X }; /* open")).unwrap_err();
    assert_eq!(err.at, 11);
}

#[test]
fn field_needs_a_colon() {
    assert!(parse("A = { X { x: u32 } };").is_ok());
    let err = parse("A = { X { x u32 } };").unwrap_err();
    assert!(matches!(err.kind, ErrorKind::Syntax));
    assert_eq!(err.at, 12);
}
