use docq::command::{CompileError, PrintCommand, StreamCommand};
use docq::compile::{evaluate_command, split_headers};

#[test]
fn test_evaluate_command() {
    let (commands, _) = evaluate_command("foo").unwrap();
    assert_eq!(commands, vec![StreamCommand::Key("foo".to_string())]);

    let (commands, _) = evaluate_command(".keys").unwrap();
    assert_eq!(commands, vec![StreamCommand::Key("keys".to_string())]);

    let (commands, _) = evaluate_command(".a.b.c.").unwrap();
    assert_eq!(
        commands,
        vec![
            StreamCommand::Key("a".to_string()),
            StreamCommand::Key("b".to_string()),
            StreamCommand::Key("c".to_string()),
        ]
    );

    let (commands, print) = evaluate_command("foo, keys").unwrap();
    assert_eq!(commands, vec![StreamCommand::Key("foo".to_string())]);
    assert_eq!(print, PrintCommand::Keys);
}

#[test]
fn test_eval_command() {
    let (commands, _) = evaluate_command("[0..5]").unwrap();
    assert_eq!(commands, vec![StreamCommand::Range(Some(0), Some(5))]);
    let (commands, _) = evaluate_command("[..5]").unwrap();
    assert_eq!(commands, vec![StreamCommand::Range(None, Some(5))]);
    let (commands, _) = evaluate_command("[..-5]").unwrap();
    assert_eq!(commands, vec![StreamCommand::Range(None, Some(-5))]);
    let (commands, _) = evaluate_command("[-5..]").unwrap();
    assert_eq!(commands, vec![StreamCommand::Range(Some(-5), None)]);
    let (commands, _) = evaluate_command("..5").unwrap();
    assert_eq!(commands, vec![StreamCommand::Range(None, Some(5))]);
    let (commands, _) = evaluate_command("5..").unwrap();
    assert_eq!(commands, vec![StreamCommand::Range(Some(5), None)]);
    let (commands, _) = evaluate_command("-5..").unwrap();
    assert_eq!(commands, vec![StreamCommand::Range(Some(-5), None)]);
}

#[test]
fn dotted_path_compiles_to_keys() {
    let (commands, print) = evaluate_command("a.b.c").unwrap();
    assert_eq!(
        commands,
        vec![
            StreamCommand::Key("a".to_string()),
            StreamCommand::Key("b".to_string()),
            StreamCommand::Key("c".to_string()),
        ]
    );
    assert_eq!(print, PrintCommand::Pretty);
}

#[test]
fn bare_ranges_match_bracketed_ranges() {
    assert_eq!(
        evaluate_command("0..5").unwrap(),
        evaluate_command("[0..5]").unwrap()
    );
    assert_eq!(
        evaluate_command("..5").unwrap().0,
        evaluate_command("[..5]").unwrap().0
    );
    assert_eq!(
        evaluate_command("5..").unwrap().0,
        evaluate_command("[5..]").unwrap().0
    );
    assert_eq!(
        evaluate_command("-5..").unwrap().0,
        evaluate_command("[-5..]").unwrap().0
    );
}

#[test]
fn filter_path_compiles() {
    let (commands, print) = evaluate_command("a[x=2].x").unwrap();
    assert_eq!(
        commands,
        vec![
            StreamCommand::Key("a".to_string()),
            StreamCommand::Filter("x=2".to_string()),
            StreamCommand::Key("x".to_string()),
        ]
    );
    assert_eq!(print, PrintCommand::Pretty);
}

#[test]
fn empty_brackets_compile_to_full_range() {
    let (commands, _) = evaluate_command("[].a").unwrap();
    assert_eq!(
        commands,
        vec![
            StreamCommand::Range(None, None),
            StreamCommand::Key("a".to_string()),
        ]
    );
}

#[test]
fn csv_mode_takes_column_list() {
    let (commands, print) = evaluate_command("csv a,b").unwrap();
    assert_eq!(commands, vec![]);
    assert_eq!(
        print,
        PrintCommand::Csv(
            vec![
                ("a".to_string(), "a".to_string()),
                ("b".to_string(), "b".to_string()),
            ],
            true
        )
    );
}

#[test]
fn csv_mode_without_columns_infers_later() {
    let (_, print) = evaluate_command("csv").unwrap();
    assert_eq!(print, PrintCommand::Csv(vec![], true));
}

#[test]
fn len_mode_compiles() {
    let (commands, print) = evaluate_command("a, len").unwrap();
    assert_eq!(commands, vec![StreamCommand::Key("a".to_string())]);
    assert_eq!(print, PrintCommand::Len);
}

#[test]
fn put_list_compiles() {
    let (commands, print) = evaluate_command("put a=5)b=x").unwrap();
    assert_eq!(
        commands,
        vec![
            StreamCommand::Put("a".to_string(), "5".to_string()),
            StreamCommand::Put("b".to_string(), "x".to_string()),
        ]
    );
    assert_eq!(print, PrintCommand::Pretty);
}

#[test]
fn delete_list_compiles() {
    let (commands, _) = evaluate_command("delete a)b").unwrap();
    assert_eq!(
        commands,
        vec![
            StreamCommand::Delete("a".to_string()),
            StreamCommand::Delete("b".to_string()),
        ]
    );
}

#[test]
fn bad_numeric_token_is_refused() {
    assert_eq!(evaluate_command("[5x]"), Err(CompileError::BadNumber));
    assert_eq!(evaluate_command("-5"), Err(CompileError::BadNumber));
}

#[test]
fn unterminated_bracket_is_refused() {
    assert_eq!(evaluate_command("[a=1"), Err(CompileError::UnterminatedBracket));
}

#[test]
fn cut_short_put_is_refused() {
    assert_eq!(evaluate_command("put"), Err(CompileError::BadPut));
    assert_eq!(evaluate_command("put a"), Err(CompileError::BadPut));
}

#[test]
fn cut_short_delete_is_refused() {
    assert_eq!(evaluate_command("delete"), Err(CompileError::BadDelete));
}

#[test]
fn split_headers_takes_three_forms() {
    assert_eq!(
        split_headers("a=x, b as y,c.d"),
        vec![
            ("a".to_string(), "x".to_string()),
            ("b".to_string(), "y".to_string()),
            ("c.d".to_string(), "d".to_string()),
        ]
    );
    assert_eq!(
        split_headers("plain"),
        vec![("plain".to_string(), "plain".to_string())]
    );
}
