use sjdiff::{
    ArrayDifference, ArrayIndex, Condition, Diff, DiffBuilder, DiffBuilderError, Difference,
    EntryDifference, Number, ParseError, Path, PathElement, ScalarDifference, TreeSide, Value,
    parse_element_path, value_by_path, value_eq, number_is_valid,
};
use std::time::Duration;

fn key(s: &str) -> PathElement {
    PathElement::Key(s.to_string())
}

fn obj(entries: Vec<(&str, Value)>) -> Value {
    Value::Object(entries.into_iter().map(|(k, v)| (k.to_string(), v)).collect())
}

fn arr(items: Vec<Value>) -> Value {
    Value::Array(items)
}

fn vstr(s: &str) -> Value {
    Value::String(s.to_string())
}

fn vint(n: u64) -> Value {
    Value::Number(Number::PosInt(n))
}

fn vfloat(x: f64) -> Value {
    Value::Number(Number::Float(format!("{}", x)))
}

fn eps(x: f64) -> String {
    format!("{}", x)
}

#[test]
fn test_parse_element_path() {
    assert_eq!(
        parse_element_path("a.b.c").unwrap(),
        vec![key("a"), key("b"), key("c")]
    );

    assert_eq!(
        parse_element_path("[_].a.c").unwrap(),
        vec![PathElement::ArrayIndex(ArrayIndex::All), key("a"), key("c")]
    );

    assert_eq!(
        parse_element_path("'[_]'.a").unwrap(),
        vec![key("[_]"), key("a")]
    );

    assert_eq!(
        parse_element_path("a.[1]").unwrap(),
        vec![key("a"), PathElement::ArrayIndex(ArrayIndex::Index(1))]
    );

    assert_eq!(
        parse_element_path("a.'.'.b").unwrap(),
        vec![key("a"), key("."), key("b")]
    );

    assert!(parse_element_path("").is_err());
    assert!(parse_element_path("''").is_err());
    assert!(parse_element_path("a.'").is_err());
    assert!(parse_element_path("a.[").is_err());
    assert!(parse_element_path("a.[x]").is_err());
}

#[test]
fn parse_error_variants() {
    assert_eq!(parse_element_path("").unwrap_err(), ParseError::EmptyPath);
    assert_eq!(parse_element_path("ab'c").unwrap_err(), ParseError::UnexpectedQuote);
    assert_eq!(parse_element_path("''").unwrap_err(), ParseError::EmptyQuotedKey);
    assert_eq!(parse_element_path(".a").unwrap_err(), ParseError::PathStartsWithDot);
    assert_eq!(parse_element_path("a]").unwrap_err(), ParseError::UnexpectedClosingBracket);
    assert_eq!(parse_element_path("a.[x]").unwrap_err(), ParseError::InvalidArrayIndex);
    assert_eq!(parse_element_path("a.'x").unwrap_err(), ParseError::UnclosedQuote);
    assert_eq!(parse_element_path("a.[1").unwrap_err(), ParseError::UnclosedBracket);
}

#[test]
fn wildcard_path_equality() {
    let pattern: Path = Path(parse_element_path("a.[_].c").unwrap());
    let p0 = Path(parse_element_path("a.[0].c").unwrap());
    let p7 = Path(parse_element_path("a.[7].c").unwrap());
    let itself = Path(parse_element_path("a.[_].c").unwrap());
    let other = Path(parse_element_path("a.[0].d").unwrap());
    assert!(pattern == p0);
    assert!(pattern == p7);
    assert!(pattern == itself);
    assert!(!(pattern == other));
}

#[test]
fn path_round_trip() {
    for text in ["a.b.c", "a.[1]", "[_].a.c", "'x.y'.b", "a.'.'.b", "'a[0]'.z.[10]"] {
        let parsed = Path(parse_element_path(text).unwrap());
        let rendered = parsed.to_path_string();
        let reparsed = Path(parse_element_path(rendered.as_str()).unwrap());
        assert!(parsed == reparsed, "round trip failed for {}", text);
    }
    let p = Path(parse_element_path("a.'.'.b.[3]").unwrap());
    assert_eq!(p.to_path_string(), "a.'.'.b.[3]".to_string());
}

#[test]
fn resolver_substitutes_wildcards() {
    let pattern = Path(parse_element_path("a.[_].c").unwrap());
    let concrete = Path(parse_element_path("a.[3].c").unwrap());
    let resolved = pattern.replace_array_index_all_by_exact_path(&concrete).unwrap();
    assert_eq!(resolved.to_path_string(), "a.[3].c".to_string());
    let short = Path(parse_element_path("a.[3]").unwrap());
    assert!(pattern.replace_array_index_all_by_exact_path(&short).is_none());
}

#[test]
fn value_by_path_reads_scalar() {
    let tree = obj(vec![
        ("a", arr(vec![vint(1), obj(vec![("b", vint(5))])])),
    ]);
    let p = Path(parse_element_path("a.[1].b").unwrap());
    let located = value_by_path(&tree, &p).unwrap();
    assert!(value_eq(located, &vint(5)));
    let missing = Path(parse_element_path("a.[1].c").unwrap());
    assert!(value_by_path(&tree, &missing).is_none());
    let container = Path(parse_element_path("a.[1]").unwrap());
    assert!(value_by_path(&tree, &container).is_none());
}

#[test]
fn builder_requires_both_trees() {
    assert_eq!(
        DiffBuilder::default().build().unwrap_err(),
        DiffBuilderError::MissingSource
    );
    assert_eq!(
        DiffBuilder::default().source(vint(1)).build().unwrap_err(),
        DiffBuilderError::MissingTarget
    );
}

#[test]
fn ignore_source_missing() {
    let obj1 = obj(vec![("name", vstr("John Doe"))]);

    let obj2 = obj(vec![("name", vstr("John Doe")), ("age", vint(30))]);

    let diff = DiffBuilder::default()
        .source(obj1)
        .target(obj2)
        .ignore_path_with_missing("age", true)
        .build();
    let diff = diff.unwrap().compare();

    assert!(diff.is_none(), "{:?}", diff);
}

#[test]
fn equal_objects() {
    let make = || {
        obj(vec![
            ("string", vstr("b")),
            ("int", vint(1)),
            ("float", vfloat(1.0)),
            ("bool", Value::Bool(true)),
            ("int_array", arr(vec![vint(1), vint(2), vint(3)])),
            ("float_array", arr(vec![vfloat(1.0), vfloat(2.0), vfloat(3.0)])),
            (
                "bool_array",
                arr(vec![Value::Bool(true), Value::Bool(false), Value::Bool(false)]),
            ),
            ("string_array", arr(vec![vstr("foo"), vstr("bar")])),
            ("empty_array", arr(vec![])),
            ("null", Value::Null),
            (
                "object",
                obj(vec![
                    ("string", vstr("c")),
                    ("int", vint(1)),
                    ("float", vfloat(1.0)),
                    ("bool", Value::Bool(true)),
                    ("array", arr(vec![vint(1), vint(2), vint(3)])),
                    ("null", Value::Null),
                    ("object", obj(vec![("string", vstr("d"))])),
                ]),
            ),
        ])
    };

    let diff = DiffBuilder::default().source(make()).target(make()).build().unwrap();
    let diff = diff.compare();
    assert_eq!(true, diff.is_none(), "diff should be None, but got: {:?}", diff);
}

#[test]
fn ignore_fields() {
    let user_1 = obj(vec![
        ("user", vstr("John")),
        ("address", obj(vec![("city", vstr("Astana")), ("zip", vint(123))])),
        ("animals", arr(vec![vstr("dog"), vstr("cat")])),
        ("object_array", arr(vec![obj(vec![("a", vstr("b")), ("c", vstr("d"))])])),
        ("optional_array", arr(vec![])),
        ("target_missing_value", vint(1)),
    ]);

    let user_2 = obj(vec![
        ("user", vstr("Joe")),
        ("address", obj(vec![("city", vstr("Boston")), ("zip", vint(312))])),
        ("animals", arr(vec![vstr("dog"), vstr("cat")])),
        ("object_array", arr(vec![obj(vec![("a", vstr("3")), ("c", vstr("d"))])])),
        ("optional_array", Value::Null),
    ]);

    let diff = DiffBuilder::default()
        .ignore_path("user")
        .ignore_path("address.city")
        .ignore_path("address.zip")
        .ignore_path("object_array.[_].a")
        .ignore_path_with_missing("target_missing_value", true)
        .equate_empty_arrays(true)
        .source(user_1)
        .target(user_2)
        .build()
        .unwrap();

    let diff = diff.compare();

    assert_eq!(true, diff.is_none(), "diff should be None, but got: {:?}", diff);
}

#[test]
fn approx_float_eq() {
    let obj1 = obj(vec![("float", vfloat(1.34))]);

    let obj2 = obj(vec![("float", vfloat(1.341))]);

    let diff = DiffBuilder::default()
        .approx_float_eq_epsilon(eps(0.001))
        .source(obj1)
        .target(obj2)
        .build()
        .unwrap();

    let diff = diff.compare();

    assert_eq!(true, diff.is_none(), "diff should be None, but got: {:?}", diff);
}

#[test]
fn approx_date_time_eq() {
    let obj1 = obj(vec![("ts", vstr("2023-07-25T15:30:01Z"))]);

    let obj2 = obj(vec![("ts", vstr("2023-07-25T15:30:00Z"))]);

    let diff = DiffBuilder::default()
        .approx_date_time_eq_duration(Duration::from_secs(1).as_nanos())
        .source(obj1)
        .target(obj2)
        .build()
        .unwrap();

    let diff = diff.compare();

    assert_eq!(true, diff.is_none(), "diff should be None, but got: {:?}", diff);
}

#[test]
fn date_time_exceeding_tolerance_differs() {
    let obj1 = obj(vec![("ts", vstr("2023-07-25T15:30:02Z"))]);
    let obj2 = obj(vec![("ts", vstr("2023-07-25T15:30:00Z"))]);
    let diff = DiffBuilder::default()
        .approx_date_time_eq_duration(Duration::from_secs(1).as_nanos())
        .source(obj1)
        .target(obj2)
        .build()
        .unwrap()
        .compare();
    assert!(diff.is_some());
}

#[test]
fn reflexivity_on_concrete_tree() {
    let make = || {
        obj(vec![
            ("k", vstr("v")),
            ("nested", obj(vec![("xs", arr(vec![vint(1), Value::Null, vstr("s")]))])),
            ("ts", vstr("2023-07-25T15:30:00Z")),
        ])
    };
    let diff = DiffBuilder::default()
        .approx_date_time_eq_duration(Duration::from_secs(5).as_nanos())
        .source(make())
        .target(make())
        .build()
        .unwrap()
        .compare();
    assert!(diff.is_none(), "{:?}", diff);
}

#[test]
fn exemption_suppresses_exactly_the_entry() {
    let s = || obj(vec![("user", vstr("John")), ("age", vint(31))]);
    let t = || obj(vec![("user", vstr("Jane")), ("age", vint(31))]);

    let suppressed = DiffBuilder::default()
        .ignore_path("user")
        .source(s())
        .target(t())
        .build()
        .unwrap()
        .compare();
    assert!(suppressed.is_none(), "{:?}", suppressed);

    let reported = DiffBuilder::default().source(s()).target(t()).build().unwrap().compare();
    match reported.expect("a difference was expected") {
        Difference::Object { different_entries } => {
            assert_eq!(different_entries.0.len(), 1);
            let (k, e) = &different_entries.0[0];
            assert_eq!(k.as_str(), "user");
            match e {
                EntryDifference::Value { value_diff } => match value_diff {
                    Difference::Scalar(ScalarDifference::String { source, target }) => {
                        assert_eq!(source.as_str(), "John");
                        assert_eq!(target.as_str(), "Jane");
                    },
                    other => panic!("expected a string scalar difference, got {:?}", other),
                },
                other => panic!("expected a value difference, got {:?}", other),
            }
        },
        other => panic!("expected an object difference, got {:?}", other),
    }
}

#[test]
fn numeric_exact_vs_tolerant() {
    let ints = |e: String| {
        DiffBuilder::default()
            .approx_float_eq_epsilon(e)
            .source(obj(vec![("n", vint(31))]))
            .target(obj(vec![("n", vint(33))]))
            .build()
            .unwrap()
            .compare()
    };
    assert!(ints(eps(0.0)).is_some());
    assert!(ints(eps(100.0)).is_some());

    let floats = |e: String| {
        DiffBuilder::default()
            .approx_float_eq_epsilon(e)
            .source(obj(vec![("x", vfloat(1.34))]))
            .target(obj(vec![("x", vfloat(1.341))]))
            .build()
            .unwrap()
            .compare()
    };
    assert!(floats(eps(0.0)).is_some());
    assert!(floats(eps(0.0005)).is_some());
    assert!(floats(eps(0.001)).is_none());
    assert!(floats(eps(0.002)).is_none());
}

#[test]
fn mixed_integer_pairs_compare_by_value() {
    let run = |s: Value, t: Value| {
        DiffBuilder::default().source(s).target(t).build().unwrap().compare()
    };
    // An integer above i64::MAX never equals a negative integer.
    let big = Value::Number(Number::PosInt(9223372036854775808));
    let neg = Value::Number(Number::NegInt(-5));
    match run(big, neg).expect("a difference was expected") {
        Difference::Scalar(ScalarDifference::Number { source, target }) => {
            assert!(matches!(source, Number::PosInt(9223372036854775808)));
            assert!(matches!(target, Number::NegInt(-5)));
        },
        other => panic!("expected a number scalar difference, got {:?}", other),
    }
    // The same value held as a non-negative NegInt and as a PosInt is equal.
    let five_pos = Value::Number(Number::PosInt(5));
    let five_neg_repr = Value::Number(Number::NegInt(5));
    assert!(run(five_pos, five_neg_repr).is_none());
}

#[test]
fn number_text_validity() {
    assert!(number_is_valid(&Number::PosInt(7)));
    assert!(number_is_valid(&Number::Float("1.34".to_string())));
    assert!(number_is_valid(&Number::Float("-2.5e10".to_string())));
    assert!(!number_is_valid(&Number::Float("abc".to_string())));
    assert!(!number_is_valid(&Number::Float("".to_string())));
}

#[test]
fn invalid_epsilon_equates_nothing() {
    let run = |e: &str| {
        DiffBuilder::default()
            .approx_float_eq_epsilon(e.to_string())
            .source(obj(vec![("x", vfloat(1.5))]))
            .target(obj(vec![("x", vfloat(1.5))]))
            .build()
            .unwrap()
            .compare()
    };
    assert!(run("0").is_none());
    assert!(run("not a number").is_some());
}

#[test]
fn array_length_classification() {
    let run = |s: Value, t: Value| {
        DiffBuilder::default().source(s).target(t).build().unwrap().compare()
    };

    let longer = run(arr(vec![vint(1), vint(2), vint(3)]), arr(vec![vint(1), vint(2)]));
    match longer.expect("a difference was expected") {
        Difference::Array(ArrayDifference::Longer { different_pairs, extra_length }) => {
            assert!(different_pairs.is_none());
            assert_eq!(extra_length, 1);
        },
        other => panic!("expected Longer, got {:?}", other),
    }

    let shorter = run(arr(vec![vint(1), vint(2)]), arr(vec![vint(1), vint(2), vint(3)]));
    match shorter.expect("a difference was expected") {
        Difference::Array(ArrayDifference::Shorter { different_pairs, missing_elements }) => {
            assert!(different_pairs.is_none());
            assert_eq!(missing_elements.len(), 1);
            assert!(value_eq(&missing_elements[0], &vint(3)));
        },
        other => panic!("expected Shorter, got {:?}", other),
    }

    let pairs = run(
        arr(vec![vint(1), vint(2), vint(3)]),
        arr(vec![vint(1), vint(9), vint(3)]),
    );
    match pairs.expect("a difference was expected") {
        Difference::Array(ArrayDifference::PairsOnly { different_pairs }) => {
            assert_eq!(different_pairs.0.len(), 1);
            let (ix, d) = &different_pairs.0[0];
            assert_eq!(*ix, 1);
            match d {
                Difference::Scalar(ScalarDifference::Number { source, target }) => {
                    assert!(matches!(source, Number::PosInt(2)));
                    assert!(matches!(target, Number::PosInt(9)));
                },
                other => panic!("expected a number scalar difference, got {:?}", other),
            }
        },
        other => panic!("expected PairsOnly, got {:?}", other),
    }
}

#[test]
fn symmetry_of_shape() {
    let s = || {
        obj(vec![
            ("shared", vstr("x")),
            ("extra_key", vint(1)),
            ("nums", arr(vec![vint(1), vint(2), vint(3)])),
        ])
    };
    let t = || {
        obj(vec![
            ("shared", vstr("x")),
            ("missing_key", vint(2)),
            ("nums", arr(vec![vint(1), vint(2)])),
        ])
    };
    let run = |a: Value, b: Value| {
        DiffBuilder::default().source(a).target(b).build().unwrap().compare().unwrap()
    };

    let forward = run(s(), t());
    let mut fwd_extra = 0;
    let mut fwd_missing = 0;
    let mut fwd_longer = 0;
    match forward {
        Difference::Object { different_entries } => {
            for (k, e) in &different_entries.0 {
                match e {
                    EntryDifference::Extra { .. } => {
                        fwd_extra += 1;
                        assert_eq!(k.as_str(), "extra_key");
                    },
                    EntryDifference::Missing { .. } => {
                        fwd_missing += 1;
                        assert_eq!(k.as_str(), "missing_key");
                    },
                    EntryDifference::Value { value_diff } => match value_diff {
                        Difference::Array(ArrayDifference::Longer { extra_length, .. }) => {
                            fwd_longer += 1;
                            assert_eq!(*extra_length, 1);
                        },
                        other => panic!("unexpected nested difference: {:?}", other),
                    },
                }
            }
        },
        other => panic!("expected an object difference, got {:?}", other),
    }
    assert_eq!((fwd_extra, fwd_missing, fwd_longer), (1, 1, 1));

    let backward = run(t(), s());
    let mut bwd_extra = 0;
    let mut bwd_missing = 0;
    let mut bwd_shorter = 0;
    match backward {
        Difference::Object { different_entries } => {
            for (k, e) in &different_entries.0 {
                match e {
                    EntryDifference::Extra { .. } => {
                        bwd_extra += 1;
                        assert_eq!(k.as_str(), "missing_key");
                    },
                    EntryDifference::Missing { .. } => {
                        bwd_missing += 1;
                        assert_eq!(k.as_str(), "extra_key");
                    },
                    EntryDifference::Value { value_diff } => match value_diff {
                        Difference::Array(ArrayDifference::Shorter {
                            missing_elements, ..
                        }) => {
                            bwd_shorter += 1;
                            assert_eq!(missing_elements.len(), 1);
                        },
                        other => panic!("unexpected nested difference: {:?}", other),
                    },
                }
            }
        },
        other => panic!("expected an object difference, got {:?}", other),
    }
    assert_eq!((bwd_extra, bwd_missing, bwd_shorter), (1, 1, 1));
}

fn conditional_docs(animal: &str, age: u64) -> Value {
    obj(vec![(
        "users",
        arr(vec![
            obj(vec![("name", vstr("Joe")), ("age", vint(43))]),
            obj(vec![
                ("name", vstr("Ana")),
                ("age", vint(age)),
                ("animals", obj(vec![("type", vstr(animal))])),
            ]),
        ]),
    )])
}

#[test]
fn conditional_exemption_suppresses_when_condition_holds() {
    let cond = Condition {
        side: TreeSide::Target,
        path: Path(parse_element_path("users.[1].age").unwrap()),
        expected: vint(33),
    };
    let diff = DiffBuilder::default()
        .ignore_path_with_condition("users.[_].animals.type", cond)
        .source(conditional_docs("dog", 33))
        .target(conditional_docs("cat", 33))
        .build()
        .unwrap()
        .compare();
    assert!(diff.is_none(), "{:?}", diff);
}

#[test]
fn conditional_exemption_surfaces_when_condition_fails() {
    let cond = Condition {
        side: TreeSide::Target,
        path: Path(parse_element_path("users.[1].age").unwrap()),
        expected: vint(33),
    };
    let diff = DiffBuilder::default()
        .ignore_path_with_condition("users.[_].animals.type", cond)
        .source(conditional_docs("dog", 34))
        .target(conditional_docs("cat", 34))
        .build()
        .unwrap()
        .compare();
    assert!(diff.is_some());
}

#[test]
fn conditional_exemption_with_wildcard_query() {
    let cond = Condition {
        side: TreeSide::Target,
        path: Path(parse_element_path("users.[_].age").unwrap()),
        expected: vint(33),
    };
    let diff = DiffBuilder::default()
        .ignore_path_with_condition("users.[_].animals.type", cond)
        .source(conditional_docs("dog", 33))
        .target(conditional_docs("cat", 33))
        .build()
        .unwrap()
        .compare();
    assert!(diff.is_none(), "{:?}", diff);
}
