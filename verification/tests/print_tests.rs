use docq::command::PrintCommand;
use docq::compile::evaluate_command;
use docq::eval::apply_stream;
use docq::print::{collapse_for_json, csv_header, csv_row, csv_rows, keys_of, len_of, PrintError};
use docq::value::Val;

fn num(n: &str) -> Val {
    Val::Number(n.to_string())
}

fn mapping(entries: Vec<(&str, Val)>) -> Val {
    Val::Mapping(
        entries
            .into_iter()
            .map(|(k, v)| (k.to_string(), v))
            .collect(),
    )
}

#[test]
fn keys_come_out_in_insertion_order() {
    let (_, print) = evaluate_command("keys").unwrap();
    assert_eq!(print, PrintCommand::Keys);
    let doc = mapping(vec![("a", num("1")), ("b", num("2"))]);
    assert_eq!(keys_of(&doc), Ok(vec!["a".to_string(), "b".to_string()]));
}

#[test]
fn keys_of_refuses_non_mappings() {
    assert_eq!(keys_of(&Val::Null), Err(PrintError::NotAMapping));
}

#[test]
fn len_counts_elements_and_entries() {
    assert_eq!(len_of(&Val::Sequence(vec![num("1"), num("2"), num("3")])), Ok(3));
    assert_eq!(len_of(&mapping(vec![("a", num("1"))])), Ok(1));
    assert_eq!(len_of(&num("1")), Err(PrintError::NotCountable));
}

#[test]
fn json_mode_collapses_a_fanned_out_document() {
    let doc = Val::Sequence(vec![
        mapping(vec![("a", num("1"))]),
        mapping(vec![("a", num("2"))]),
    ]);
    let (commands, _) = evaluate_command("[].a").unwrap();
    let results = apply_stream(doc, &commands).unwrap();
    let collapsed = collapse_for_json(results);
    assert_eq!(collapsed, vec![Val::Sequence(vec![num("1"), num("2")])]);

    let single = collapse_for_json(vec![num("7")]);
    assert_eq!(single, vec![num("7")]);
}

#[test]
fn csv_writes_its_header_exactly_once() {
    let (_, mut print) = evaluate_command("csv a,b").unwrap();
    let docs = vec![
        mapping(vec![("a", num("1")), ("b", num("2"))]),
        mapping(vec![("a", num("3")), ("b", num("4"))]),
    ];
    let mut header_rows: Vec<Vec<String>> = Vec::new();
    let mut data_rows: Vec<Vec<Val>> = Vec::new();
    for doc in docs {
        let results = apply_stream(doc, &[]).unwrap();
        for value in results {
            print.add_headers(&value);
            match &print {
                PrintCommand::Csv(pairs, owed) => {
                    if *owed {
                        header_rows.push(csv_header(pairs));
                    }
                    data_rows.push(csv_row(&value, pairs).unwrap());
                }
                _ => panic!("not csv"),
            }
            print.turn_off_headers();
        }
    }
    assert_eq!(header_rows, vec![vec!["a".to_string(), "b".to_string()]]);
    assert_eq!(
        data_rows,
        vec![vec![num("1"), num("2")], vec![num("3"), num("4")]]
    );
}

#[test]
fn empty_csv_columns_are_inferred_from_the_first_record() {
    let (_, mut print) = evaluate_command("csv").unwrap();
    let first = mapping(vec![("x", num("1")), ("y", num("2"))]);
    print.add_headers(&first);
    match &print {
        PrintCommand::Csv(pairs, owed) => {
            assert!(*owed);
            assert_eq!(
                pairs,
                &vec![
                    ("x".to_string(), "x".to_string()),
                    ("y".to_string(), "y".to_string()),
                ]
            );
        }
        _ => panic!("not csv"),
    }
}

#[test]
fn header_inference_descends_into_first_elements() {
    let (_, mut print) = evaluate_command("csv").unwrap();
    let first = Val::Sequence(vec![mapping(vec![("x", num("1"))]), num("9")]);
    print.add_headers(&first);
    assert_eq!(
        print,
        PrintCommand::Csv(vec![("x".to_string(), "x".to_string())], true)
    );
}

#[test]
fn csv_row_reads_missing_columns_as_null() {
    let pairs = vec![
        ("a".to_string(), "a".to_string()),
        ("zz".to_string(), "zz".to_string()),
    ];
    let row = csv_row(&mapping(vec![("a", num("1"))]), &pairs).unwrap();
    assert_eq!(row, vec![num("1"), Val::Null]);
    assert_eq!(csv_row(&Val::Null, &pairs), Err(PrintError::NotAMapping));
}

#[test]
fn turn_off_headers_only_touches_csv() {
    let mut p = PrintCommand::Csv(vec![], true);
    p.turn_off_headers();
    assert_eq!(p, PrintCommand::Csv(vec![], false));

    let mut p = PrintCommand::Pretty;
    p.turn_off_headers();
    assert_eq!(p, PrintCommand::Pretty);
}

#[test]
fn csv_rows_take_a_record_or_a_sequence_of_records() {
    let pairs = vec![("a".to_string(), "a".to_string())];
    let rows = csv_rows(&mapping(vec![("a", num("1"))]), &pairs).unwrap();
    assert_eq!(rows, vec![vec![num("1")]]);

    let seq = Val::Sequence(vec![
        mapping(vec![("a", num("1"))]),
        mapping(vec![("b", num("2"))]),
    ]);
    let rows = csv_rows(&seq, &pairs).unwrap();
    assert_eq!(rows, vec![vec![num("1")], vec![Val::Null]]);
}

#[test]
fn csv_rows_refuse_anything_that_is_not_a_record() {
    let pairs = vec![("a".to_string(), "a".to_string())];
    let bad = Val::Sequence(vec![mapping(vec![("a", num("1"))]), num("9")]);
    assert_eq!(csv_rows(&bad, &pairs), Err(PrintError::NotAMapping));
    assert_eq!(csv_rows(&Val::Null, &pairs), Err(PrintError::NotAMapping));
}
