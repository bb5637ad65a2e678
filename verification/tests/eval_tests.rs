use docq::command::{EvalError, OpTag, StreamCommand};
use docq::compile::evaluate_command;
use docq::eval::{apply_stream, equal, normalize};
use docq::value::{dup, Kind, Val};

fn num(n: &str) -> Val {
    Val::Number(n.to_string())
}

fn text(s: &str) -> Val {
    Val::Text(s.to_string())
}

fn mapping(entries: Vec<(&str, Val)>) -> Val {
    Val::Mapping(
        entries
            .into_iter()
            .map(|(k, v)| (k.to_string(), v))
            .collect(),
    )
}

#[test]
fn empty_pipeline_is_identity() {
    let doc = mapping(vec![("a", num("1")), ("b", Val::Sequence(vec![num("2"), Val::Null]))]);
    let expected = dup(&doc);
    assert_eq!(apply_stream(doc, &[]), Ok(vec![expected]));
}

#[test]
fn negative_range_start_counts_from_the_end() {
    let five = || {
        Val::Sequence(vec![num("0"), num("1"), num("2"), num("3"), num("4")])
    };
    let neg = apply_stream(five(), &[StreamCommand::Range(Some(-2), None)]).unwrap();
    let pos = apply_stream(five(), &[StreamCommand::Range(Some(3), None)]).unwrap();
    assert_eq!(neg, pos);
    assert_eq!(neg, vec![num("3"), num("4")]);
}

#[test]
fn filter_keeps_match_with_key_removed_and_put_restores_it() {
    let doc = Val::Sequence(vec![mapping(vec![("k", text("v")), ("o", num("1"))])]);
    let cmds = vec![
        StreamCommand::Filter("k=v".to_string()),
        StreamCommand::Put("k".to_string(), "v".to_string()),
    ];
    let out = apply_stream(doc, &cmds).unwrap();
    assert_eq!(out, vec![mapping(vec![("o", num("1")), ("k", text("v"))])]);
}

#[test]
fn key_selects_and_missing_key_degrades_to_null() {
    let doc = mapping(vec![("a", num("7"))]);
    let out = apply_stream(doc, &[StreamCommand::Key("a".to_string())]).unwrap();
    assert_eq!(out, vec![num("7")]);

    let doc = mapping(vec![("a", num("7"))]);
    let out = apply_stream(doc, &[StreamCommand::Key("b".to_string())]).unwrap();
    assert_eq!(out, vec![Val::Null]);
}

#[test]
fn filter_on_sequence_drops_non_matches_silently() {
    let doc = Val::Sequence(vec![
        mapping(vec![("x", num("1"))]),
        num("9"),
        mapping(vec![("y", num("2"))]),
        mapping(vec![("x", num("2"))]),
    ]);
    let out = apply_stream(doc, &[StreamCommand::Filter("x=2".to_string())]).unwrap();
    assert_eq!(out, vec![mapping(vec![])]);
}

#[test]
fn filter_on_mapping_continues_or_yields_nothing() {
    let doc = mapping(vec![("k", text("v")), ("o", num("1"))]);
    let keep = dup(&doc);
    let out = apply_stream(doc, &[StreamCommand::Filter("k=v".to_string())]).unwrap();
    assert_eq!(out, vec![keep]);

    let doc = mapping(vec![("k", text("w"))]);
    let out = apply_stream(doc, &[StreamCommand::Filter("k=v".to_string())]).unwrap();
    assert_eq!(out, vec![]);

    let doc = mapping(vec![("o", num("1"))]);
    let keep = dup(&doc);
    let out = apply_stream(doc, &[StreamCommand::Filter("k=null".to_string())]).unwrap();
    assert_eq!(out, vec![keep]);

    let doc = mapping(vec![("o", num("1"))]);
    let out = apply_stream(doc, &[StreamCommand::Filter("k=v".to_string())]).unwrap();
    assert_eq!(out, vec![]);
}

#[test]
fn put_parses_json_literals_and_falls_back_to_text() {
    let out = apply_stream(
        mapping(vec![]),
        &[StreamCommand::Put("a".to_string(), "5".to_string())],
    )
    .unwrap();
    assert_eq!(out, vec![mapping(vec![("a", num("5"))])]);

    let out = apply_stream(
        mapping(vec![]),
        &[StreamCommand::Put("a".to_string(), "true".to_string())],
    )
    .unwrap();
    assert_eq!(out, vec![mapping(vec![("a", Val::Bool(true))])]);

    let out = apply_stream(
        mapping(vec![]),
        &[StreamCommand::Put("a".to_string(), "hello".to_string())],
    )
    .unwrap();
    assert_eq!(out, vec![mapping(vec![("a", text("hello"))])]);
}

#[test]
fn put_overwrites_in_place_and_delete_removes() {
    let doc = mapping(vec![("a", num("1")), ("b", num("2"))]);
    let out = apply_stream(doc, &[StreamCommand::Put("a".to_string(), "9".to_string())]).unwrap();
    assert_eq!(out, vec![mapping(vec![("a", num("9")), ("b", num("2"))])]);

    let doc = mapping(vec![("a", num("1")), ("b", num("2"))]);
    let out = apply_stream(doc, &[StreamCommand::Delete("a".to_string())]).unwrap();
    assert_eq!(out, vec![mapping(vec![("b", num("2"))])]);

    let doc = mapping(vec![("b", num("2"))]);
    let out = apply_stream(doc, &[StreamCommand::Delete("zz".to_string())]).unwrap();
    assert_eq!(out, vec![mapping(vec![("b", num("2"))])]);
}

#[test]
fn index_takes_one_element() {
    let doc = Val::Sequence(vec![num("0"), num("1"), num("2")]);
    let out = apply_stream(doc, &[StreamCommand::Index(1)]).unwrap();
    assert_eq!(out, vec![num("1")]);
}

#[test]
fn end_to_end_filter_selects_matching_record() {
    let doc = mapping(vec![(
        "a",
        Val::Sequence(vec![
            mapping(vec![("x", num("1"))]),
            mapping(vec![("x", num("2"))]),
            mapping(vec![("x", num("3"))]),
        ]),
    )]);
    let (commands, _) = evaluate_command("a[x=2]").unwrap();
    let out = apply_stream(doc, &commands).unwrap();
    assert_eq!(out, vec![mapping(vec![])]);
}

#[test]
fn key_on_non_mapping_aborts() {
    let out = apply_stream(num("1"), &[StreamCommand::Key("a".to_string())]);
    assert_eq!(
        out,
        Err(EvalError::MissingKeyStrict {
            key: "a".to_string(),
            found: Kind::Number,
        })
    );
}

#[test]
fn index_out_of_range_aborts() {
    let out = apply_stream(Val::Sequence(vec![]), &[StreamCommand::Index(0)]);
    assert_eq!(out, Err(EvalError::IndexOutOfRange { index: 0, len: 0 }));
}

#[test]
fn range_on_non_sequence_aborts() {
    let out = apply_stream(Val::Null, &[StreamCommand::Range(None, None)]);
    assert_eq!(
        out,
        Err(EvalError::TypeMismatch {
            op: OpTag::Range,
            found: Kind::Null,
        })
    );
}

#[test]
fn filter_without_equals_aborts() {
    let out = apply_stream(mapping(vec![]), &[StreamCommand::Filter("x".to_string())]);
    assert_eq!(
        out,
        Err(EvalError::BadFilter {
            expr: "x".to_string(),
        })
    );
}

#[test]
fn equality_rule_compares_canonical_text() {
    assert!(equal(&num("2"), "2"));
    assert!(!equal(&num("2"), "3"));
    assert!(equal(&text("2"), "2"));
    assert!(equal(&Val::Bool(true), "true"));
    assert!(equal(&Val::Bool(false), "false"));
    assert!(equal(&Val::Null, "null"));
    assert!(!equal(&Val::Sequence(vec![]), "2"));
    assert!(!equal(&mapping(vec![]), "2"));
}

#[test]
fn normalize_counts_negative_positions_from_the_end() {
    assert_eq!(normalize(-2, 5), 3);
    assert_eq!(normalize(3, 5), 3);
    assert_eq!(normalize(9, 5), 9);
    assert_eq!(normalize(-5, 5), 0);
    assert_eq!(normalize(0, 0), 0);
}

#[test]
fn range_fans_out_through_remaining_commands() {
    let doc = Val::Sequence(vec![
        mapping(vec![("a", num("1"))]),
        mapping(vec![("a", num("2"))]),
    ]);
    let (commands, _) = evaluate_command("[].a").unwrap();
    let out = apply_stream(doc, &commands).unwrap();
    assert_eq!(out, vec![num("1"), num("2")]);
}

#[test]
fn nested_fan_out_flattens_in_order() {
    let doc = Val::Sequence(vec![
        Val::Sequence(vec![num("1"), num("2")]),
        Val::Sequence(vec![num("3")]),
    ]);
    let (commands, _) = evaluate_command("[][0]").unwrap();
    assert_eq!(
        commands,
        vec![StreamCommand::Range(None, None), StreamCommand::Index(0)]
    );
    let out = apply_stream(doc, &commands).unwrap();
    assert_eq!(out, vec![num("1"), num("3")]);
}

#[test]
fn compiled_put_list_applies_in_order() {
    let (commands, _) = evaluate_command("put a=1)a=2").unwrap();
    let out = apply_stream(mapping(vec![]), &commands).unwrap();
    assert_eq!(out, vec![mapping(vec![("a", num("2"))])]);
}

#[test]
fn range_selects_half_open_slice() {
    let doc = Val::Sequence(vec![num("0"), num("1"), num("2"), num("3")]);
    let (commands, _) = evaluate_command("[1..3]").unwrap();
    assert_eq!(apply_stream(doc, &commands).unwrap(), vec![num("1"), num("2")]);
}

#[test]
fn error_inside_a_fan_out_aborts_the_whole_evaluation() {
    let doc = Val::Sequence(vec![num("1"), num("2")]);
    let out = apply_stream(
        doc,
        &[
            StreamCommand::Range(None, None),
            StreamCommand::Key("a".to_string()),
        ],
    );
    assert_eq!(
        out,
        Err(EvalError::MissingKeyStrict {
            key: "a".to_string(),
            found: Kind::Number,
        })
    );
}
