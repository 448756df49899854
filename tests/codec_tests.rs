use gram_codec::{
    dedup_patterns, parse_gram_notation, parse_single_pattern, round_trip, serialize_pattern,
    serialize_patterns, validate_gram, Arrow, Combinable, DiagnosticKind, Form, LabelSet, Pattern,
    PropertyMap, Subject, Symbol, Value,
};

fn reparsed(text: &str) -> (Vec<Pattern<Subject>>, Vec<Pattern<Subject>>) {
    let first = parse_gram_notation(text).expect("first parse");
    let written = serialize_patterns(&first).expect("serialize");
    let second = parse_gram_notation(&written).expect("second parse");
    (first, second)
}

fn subject(id: &str, form: Form) -> Subject {
    Subject {
        identity: Symbol::new(id),
        labels: LabelSet::new(),
        properties: PropertyMap::new(),
        form,
    }
}

#[test]
fn test_validate_gram() {
    assert!(validate_gram("(hello)"));
    assert!(validate_gram("(a)-->(b)"));
    assert!(!validate_gram("(unclosed"));
}

#[test]
fn test_round_trip() {
    let input = "(hello)";
    let output = round_trip(input).unwrap();
    assert_eq!(output, "(hello)");
}

#[test]
fn serializes_node_with_labels_and_properties() {
    let p = parse_single_pattern("( a : Person:Admin { name : \"Alice\", age: 30 } )").unwrap();
    assert_eq!(
        serialize_pattern(&p).unwrap(),
        "(a:Person:Admin {name: \"Alice\", age: 30})"
    );
}

#[test]
fn serializes_every_arrow() {
    assert_eq!(round_trip("(a)-->(b)").unwrap(), "(a)-->(b)");
    assert_eq!(round_trip("(a)<--(b)").unwrap(), "(a)<--(b)");
    assert_eq!(round_trip("(a)<-->(b)").unwrap(), "(a)<-->(b)");
    assert_eq!(round_trip("(a)~~(b)").unwrap(), "(a)~~(b)");
    assert_eq!(
        round_trip("(a)-[:KNOWS {since: 2020}]->(b)").unwrap(),
        "(a)-[:KNOWS {since: 2020}]->(b)"
    );
    assert_eq!(round_trip("(a)<-[r:T]-(b)").unwrap(), "(a)<-[r:T]-(b)");
    assert_eq!(round_trip("(a)<-[r]->(b)").unwrap(), "(a)<-[r]->(b)");
    assert_eq!(round_trip("(a)~[r]~(b)").unwrap(), "(a)~[r]~(b)");
}

#[test]
fn relationship_direction_is_metadata() {
    let p = parse_single_pattern("(a)<--(b)").unwrap();
    assert_eq!(p.value.form, Form::Relationship(Arrow::Left));
    assert_eq!(p.elements[0].value.identity.0, "a");
    assert_eq!(p.elements[1].value.identity.0, "b");
}

#[test]
fn chains_nest_to_the_right() {
    let p = parse_single_pattern("(a)-->(b)-->(c)").unwrap();
    assert_eq!(p.elements.len(), 2);
    assert_eq!(p.elements[0].value.identity.0, "a");
    assert_eq!(p.elements[1].elements.len(), 2);
    assert_eq!(round_trip("(a)-->(b)<--(c)").unwrap(), "(a)-->(b)<--(c)");
}

#[test]
fn serializes_groups_and_annotations() {
    assert_eq!(round_trip("[team | alice, bob]").unwrap(), "[team | (alice), (bob)]");
    assert_eq!(round_trip("[empty]").unwrap(), "[empty]");
    assert_eq!(round_trip("@depth(2) (a)").unwrap(), "@depth(2) (a)");
    assert_eq!(
        round_trip("@a(1) @b(x) [g | (n)]").unwrap(),
        "@a(1) @b(x) [g | (n)]"
    );
    assert_eq!(round_trip("(a) (b)").unwrap(), "(a)\n(b)");
}

#[test]
fn stacked_annotations_later_wins() {
    let p = parse_single_pattern("@k(1) @k(2) (a)").unwrap();
    assert_eq!(p.value.properties.len(), 1);
    assert!(matches!(p.value.properties.get("k"), Some(Value::Integer(2))));
}

#[test]
fn values_of_every_kind() {
    let p = parse_single_pattern(
        "(n {s: \"q\\\"b\\\\n\\n\", i: -42, d: 1.5e-3, t: true, f: false, y: sym})",
    )
    .unwrap();
    let props = &p.value.properties;
    assert!(matches!(props.get("s"), Some(Value::Str(s)) if s == "q\"b\\n\n"));
    assert!(matches!(props.get("i"), Some(Value::Integer(-42))));
    assert!(matches!(props.get("d"), Some(Value::Decimal(d)) if d == "1.5e-3"));
    assert!(matches!(props.get("t"), Some(Value::Boolean(true))));
    assert!(matches!(props.get("f"), Some(Value::Boolean(false))));
    assert!(matches!(props.get("y"), Some(Value::Symbol(y)) if y == "sym"));
    assert_eq!(
        serialize_pattern(&p).unwrap(),
        "(n {s: \"q\\\"b\\\\n\\n\", i: -42, d: 1.5e-3, t: true, f: false, y: sym})"
    );
}

#[test]
fn integer_limits() {
    assert_eq!(
        round_trip("(n {a: -9223372036854775808, b: 9223372036854775807})").unwrap(),
        "(n {a: -9223372036854775808, b: 9223372036854775807})"
    );
    let err = parse_gram_notation("(n {a: 9223372036854775808})").unwrap_err();
    assert_eq!(err.error_count(), 1);
    assert_eq!(err.errors[0].kind, DiagnosticKind::Syntax);
}

#[test]
fn round_trip_law_on_documents() {
    let docs = [
        "(hello)",
        "(a:Person {name: \"Alice\"})-[:KNOWS]->(b:Person {name: \"Bob\"})",
        "[team:Crew {size: 2} | alice, (bob)-->(carol), [inner | x]]",
        "@type(node) @depth(3) (a)",
        "// comment\n(x)~~(y) (z)",
        "({k: 1.25})",
    ];
    for d in docs.iter() {
        let (first, second) = reparsed(d);
        assert_eq!(first.len(), second.len());
        for (a, b) in first.iter().zip(second.iter()) {
            assert!(a == b, "round trip changed {}", d);
        }
    }
}

#[test]
fn every_problem_is_diagnosed() {
    let err = parse_gram_notation("(unclosed\n(ok)\n(a:)\n(b) )").unwrap_err();
    assert_eq!(err.error_count(), 3);
    assert_eq!(err.message, "Parse failed with 3 error(s)");
    assert_eq!(err.errors[0].kind, DiagnosticKind::Missing);
    assert_eq!(err.errors[0].location.line, 2);
    assert_eq!(err.errors[0].location.column, 1);
    assert_eq!(err.errors[0].location.offset, 10);
    assert_eq!(err.errors[1].kind, DiagnosticKind::Missing);
    assert_eq!(err.errors[2].kind, DiagnosticKind::Syntax);
    assert_eq!(err.errors[2].location.line, 4);
}

#[test]
fn one_problem_one_diagnostic() {
    let err = parse_gram_notation("(unclosed").unwrap_err();
    assert_eq!(err.error_count(), 1);
    assert_eq!(err.errors[0].message, "Missing required syntax: )");
    let err = parse_gram_notation("(a (b)").unwrap_err();
    assert_eq!(err.error_count(), 1);
    assert_eq!(err.errors[0].message, "Missing required syntax: ) at `(`");
    let err = parse_gram_notation("$ (a)").unwrap_err();
    assert_eq!(err.error_count(), 1);
    let err = parse_gram_notation("\"open").unwrap_err();
    assert_eq!(err.error_count(), 1);
}

#[test]
fn nesting_limit() {
    let mut text = String::new();
    for _ in 0..600 {
        text.push_str("[g | ");
    }
    text.push_str("(a)");
    for _ in 0..600 {
        text.push(']');
    }
    let err = parse_gram_notation(&text).unwrap_err();
    assert_eq!(err.error_count(), 1);
    assert!(err.errors[0].message.contains("nesting too deep"));
    let long_chain = vec!["(n)"; 600].join("-->");
    let err = parse_gram_notation(&long_chain).unwrap_err();
    assert_eq!(err.error_count(), 1);
    let chain = vec!["(n)"; 300].join("-->");
    assert_eq!(round_trip(&chain).unwrap(), chain);
}

#[test]
fn single_pattern_counts() {
    let err = parse_single_pattern("(a) (b) (c)").unwrap_err();
    assert_eq!(err.message, "Input contains 3 patterns, expected exactly 1");
    assert_eq!(err.error_count(), 0);
    let err = parse_single_pattern("  ").unwrap_err();
    assert_eq!(err.message, "Input contains no patterns");
}

#[test]
fn refuses_shapes_gram_cannot_express() {
    let bad_node = Pattern::pattern(
        subject("a", Form::Node),
        vec![Pattern::point(subject("b", Form::Node))],
    );
    assert!(serialize_pattern(&bad_node).is_err());
    let bad_rel = Pattern::pattern(
        subject("", Form::Relationship(Arrow::Right)),
        vec![Pattern::point(subject("a", Form::Node))],
    );
    assert!(serialize_pattern(&bad_rel).is_err());
    let bad_id = Pattern::point(subject("two words", Form::Node));
    assert!(serialize_pattern(&bad_id).is_err());
    let empty_annotation = Pattern::pattern(
        subject("", Form::Annotated),
        vec![Pattern::point(subject("a", Form::Node))],
    );
    assert!(serialize_pattern(&empty_annotation).is_err());
    let one_member = Pattern::pattern(
        subject("g", Form::Group),
        vec![Pattern::point(subject("a", Form::Node))],
    );
    assert_eq!(serialize_pattern(&one_member).unwrap(), "[g | (a)]");
    assert!(serialize_patterns(&[one_member, bad_id]).is_err());
    assert!(round_trip("(a").unwrap_err().starts_with("Parse error: "));
}

#[test]
fn hash_follows_equality() {
    let (first, second) = reparsed("[g | (a:X {k: 1})-->(b), c]");
    assert!(first[0] == second[0]);
    assert_eq!(first[0].structural_hash(), second[0].structural_hash());
    assert_eq!(first[0].structural_hash(), first[0].structural_hash());
    let other = parse_single_pattern("[g | (a:X {k: 2})-->(b), c]").unwrap();
    assert!(first[0] != other);
}

#[test]
fn labels_compare_as_sets() {
    let a = parse_single_pattern("(n:A:B)").unwrap();
    let b = parse_single_pattern("(n:B:A:B)").unwrap();
    assert_eq!(b.value.labels.len(), 2);
    assert!(a == b);
}

#[test]
fn map_identity_and_shape() {
    let p = Pattern::pattern(
        "root".to_string(),
        vec![Pattern::point("a".to_string()), Pattern::point("b".to_string())],
    );
    assert!(p.map(|s: &String| s.clone()) == p);
    let lens = p.map(|s: &String| s.len());
    assert_eq!(lens.value, 4);
    assert_eq!(lens.elements.len(), 2);
    assert_eq!(lens.elements[1].value, 1);
}

#[test]
fn combine_concatenates_and_associates() {
    let a = Pattern::pattern("a".to_string(), vec![Pattern::point("x".to_string())]);
    let b = Pattern::point("b".to_string());
    let c = Pattern::pattern("c".to_string(), vec![Pattern::point("y".to_string())]);
    let left = a.clone().combine(b.clone()).combine(c.clone());
    let right = a.combine(b.combine(c));
    assert!(left == right);
    assert_eq!(left.value, "abc");
    assert_eq!(left.elements.len(), 2);
    assert_eq!(left.elements[1].value, "y");
}

#[test]
fn subject_combine_policy() {
    let a = parse_single_pattern("(:A {k: 1, m: 2})").unwrap();
    let b = parse_single_pattern("(b:B {k: 3, n: 4})").unwrap();
    let merged = a.value.combine(b.value);
    assert_eq!(merged.identity.0, "b");
    assert!(merged.labels.contains("A") && merged.labels.contains("B"));
    assert_eq!(merged.properties.len(), 3);
    assert!(matches!(merged.properties.get("k"), Some(Value::Integer(3))));
    assert_eq!(merged.properties.key_at(0), "m");
}

#[test]
fn dedup_counts_distinct_patterns() {
    let ps = parse_gram_notation("(a) (b) (a) (a)-->(b) (c) (b) (a)-->(b)").unwrap();
    let unique = dedup_patterns(&ps);
    assert_eq!(unique.len(), 4);
    assert!(unique[0] == ps[0]);
    assert!(unique[2] == ps[3]);
    let empty: Vec<Pattern<String>> = Vec::new();
    assert_eq!(dedup_patterns(&empty).len(), 0);
}

#[test]
fn map_composes() {
    let p = Pattern::pattern(
        "ab".to_string(),
        vec![Pattern::point("c".to_string()), Pattern::point("def".to_string())],
    );
    let twice = p.map(|s: &String| s.len()).map(|n: &usize| n * 2);
    let once = p.map(|s: &String| s.len() * 2);
    assert_eq!(twice.value, once.value);
    assert_eq!(twice.elements[1].value, 6);
    assert_eq!(once.elements[1].value, 6);
}

#[test]
fn integer_text_reads_back() {
    for i in [0i64, 7, -7, 1234567890, i64::MAX, i64::MIN] {
        let cs: Vec<char> = i.to_string().chars().collect();
        assert_eq!(gram_codec::parser::integer_value(&cs), Some(i));
    }
    let cs: Vec<char> = "9223372036854775808".chars().collect();
    assert_eq!(gram_codec::parser::integer_value(&cs), None);
}

#[test]
fn comments_alone_give_no_patterns() {
    let ps = parse_gram_notation("// only a comment\n  // another").unwrap();
    assert_eq!(ps.len(), 0);
    let ps = parse_gram_notation("(a) // trailing (b)").unwrap();
    assert_eq!(ps.len(), 1);
    assert!(validate_gram("\t// note\n"));
    assert_eq!(round_trip("// note").unwrap(), "");
}

#[test]
fn control_characters_are_escaped() {
    let mut node = subject("n", Form::Node);
    node.properties.insert("k".to_string(), Value::Str("a\u{1}b\u{7f}\"".to_string()));
    let p = Pattern::point(node);
    let text = serialize_pattern(&p).unwrap();
    assert_eq!(text, "(n {k: \"a\\x01b\\x7f\\\"\"})");
    let back = parse_single_pattern(&text).unwrap();
    assert!(back == p);
}

#[test]
fn unicode_white_space_is_blank() {
    let ps = parse_gram_notation("\u{c}\u{b}\u{85}\u{a0}\u{2003}\u{3000}").unwrap();
    assert_eq!(ps.len(), 0);
    let ps = parse_gram_notation("\u{a0}(a)\u{2028}(b)").unwrap();
    assert_eq!(ps.len(), 2);
}

#[test]
fn duplicate_keys_are_refused() {
    let mut node = subject("n", Form::Node);
    node.properties.entries.push(("k".to_string(), Value::Integer(1)));
    node.properties.entries.push(("k".to_string(), Value::Integer(2)));
    assert!(serialize_pattern(&Pattern::point(node)).is_err());
}

#[test]
fn too_deep_patterns_are_refused() {
    let mut p = Pattern::point(subject("a", Form::Node));
    for _ in 0..600 {
        p = Pattern::pattern(subject("g", Form::Group), vec![p]);
    }
    assert!(serialize_pattern(&p).is_err());
    let err = round_trip("(a)").unwrap();
    assert_eq!(err, "(a)");
    assert_eq!(round_trip("(a").unwrap_err(), "Parse error: Parse failed with 1 error(s)");
}

#[test]
fn recovery_skips_the_rest_of_a_failed_group() {
    let err = parse_gram_notation("[g | (a) (b)] (c)").unwrap_err();
    assert_eq!(err.error_count(), 1);
    let err = parse_gram_notation("[g | (a) (b)] (c:) [h | x y]").unwrap_err();
    assert_eq!(err.error_count(), 3);
}
