use bluecsv::editor::{
    build_code_actions, command_named, completion_values, definition_target, full_range, hover_at,
    move_target, quote_fix, reference_ranges, run_command, save_edit, ActionArg, CommandError,
    CommandOutcome, EditCommand,
};
use bluecsv::model::{Model, Position, Range};
use bluecsv::types::CellType;

fn titles(model: &Model, pos: Position) -> Vec<String> {
    build_code_actions(model, pos).into_iter().map(|a| a.title).collect()
}

#[test]
fn full_range_single_line_no_newline() {
    let r = full_range("abc");
    assert_eq!(r.start, Position::new(0, 0));
    assert_eq!(r.end, Position::new(0, 3));
}

#[test]
fn full_range_multiple_lines() {
    let r = full_range("a\nbc\nd");
    assert_eq!(r.end, Position::new(2, 1));
}

#[test]
fn full_range_trailing_newline() {
    let r = full_range("a,b\n");
    assert_eq!(r.end, Position::new(1, 0));
}

#[test]
fn code_actions_always_offer_whole_buffer_commands() {
    let model = Model::parse("id,name\n1,alice\n");
    let actions = build_code_actions(&model, Position::new(5, 5));
    let t = titles(&model, Position::new(5, 5));
    assert!(t.iter().any(|t| t == "Align columns"));
    assert!(t.iter().any(|t| t == "Unalign columns"));
    assert!(t.iter().any(|t| t == "Add column"));
    assert!(t.iter().any(|t| t == "Convert CSV to markdown table"));
    assert!(t.iter().any(|t| t == "Parse markdown table into CSV"));
    assert_eq!(actions.len(), 5);
}

#[test]
fn code_actions_add_cell_scoped_actions_when_cursor_in_cell() {
    let model = Model::parse("id,name\n1,alice\n2,bob\n");
    let t = titles(&model, Position::new(1, 3));
    assert!(t.iter().any(|t| t == "Delete \u{201c}name\u{201d}"));
    assert!(t.iter().any(|t| t == "Duplicate row 2"));
    assert!(t.iter().any(|t| t == "Sort rows by \u{201c}name\u{201d} (ascending)"));
    assert!(t.iter().any(|t| t == "Sort rows by \u{201c}name\u{201d} (descending)"));
}

#[test]
fn code_action_command_carries_uri_and_args() {
    let model = Model::parse("id,name\n1,alice\n");
    let actions = build_code_actions(&model, Position::new(1, 3));
    let delete = actions
        .iter()
        .find(|a| a.command == EditCommand::DeleteColumn)
        .expect("deleteColumn action missing");
    assert_eq!(delete.command.name(), "bluecsv.deleteColumn");
    assert_eq!(delete.arg, ActionArg::Col(1));
}

// Further cases.

#[test]
fn column_label_falls_back_to_number() {
    let model = Model::parse(",x\n1,2\n");
    let t = titles(&model, Position::new(1, 0));
    assert!(t.iter().any(|t| t == "Delete column 1"));
    assert!(t.iter().any(|t| t == "Sort rows by column 1 (descending)"));
}

#[test]
fn hover_names_column_and_row() {
    let model = Model::parse("id,name\n1,alice\n2,bob\n");
    let (text, range) = hover_at(&model, Position::new(2, 3), true, &vec![]).unwrap();
    assert_eq!(text, "**name** \u{2014} row 2");
    assert_eq!(range, Range::new(Position::new(2, 2), Position::new(2, 5)));
    let (text, _) = hover_at(&model, Position::new(0, 0), true, &vec![]).unwrap();
    assert_eq!(text, "**id** \u{2014} header");
    let (text, _) = hover_at(&model, Position::new(2, 3), false, &vec![]).unwrap();
    assert_eq!(text, "**column 2** \u{2014} row 3");
    assert!(hover_at(&model, Position::new(9, 0), true, &vec![]).is_none());
}

#[test]
fn stray_quote_is_quoted_whole() {
    let model = Model::parse("a,he said \"hi\n");
    let (range, text) = quote_fix(&model, Position::new(0, 5)).unwrap();
    assert_eq!(text, "\"he said \"\"hi\"");
    assert_eq!(range, Range::new(Position::new(0, 2), Position::new(0, 13)));
    let model = Model::parse("a,  \"ok\"\n");
    assert!(quote_fix(&model, Position::new(0, 5)).is_none());
    let model = Model::parse("a,plain\n");
    assert!(quote_fix(&model, Position::new(0, 3)).is_none());
}

#[test]
fn completion_offers_other_values_of_the_column() {
    let model = Model::parse("name\nbob\nalice\nbob\ncarol\n");
    let vals = completion_values(&model, Position::new(1, 1), true).unwrap();
    assert_eq!(vals, vec!["alice".to_string(), "bob".to_string(), "carol".to_string()]);
    assert!(completion_values(&model, Position::new(9, 9), true).is_none());
}

#[test]
fn definition_and_references_follow_equal_values() {
    let model = Model::parse("name\nalice\nbob\nalice\n");
    let def = definition_target(&model, Position::new(3, 1), true).unwrap();
    assert_eq!(def.start, Position::new(1, 0));
    let refs = reference_ranges(&model, Position::new(1, 1), true, true).unwrap();
    assert_eq!(refs.len(), 2);
    let refs = reference_ranges(&model, Position::new(1, 1), true, false).unwrap();
    assert_eq!(refs.len(), 1);
    assert_eq!(refs[0].start, Position::new(3, 0));
    assert!(definition_target(&model, Position::new(2, 1), true).is_none());
}

#[test]
fn moving_between_cells() {
    let model = Model::parse("a,b\nc,d\n");
    assert_eq!(
        move_target(&model, Position::new(0, 0), true),
        Some(Range::new(Position::new(0, 2), Position::new(0, 3)))
    );
    assert_eq!(
        move_target(&model, Position::new(1, 0), false),
        Some(Range::new(Position::new(0, 2), Position::new(0, 3)))
    );
    assert_eq!(
        move_target(&model, Position::new(5, 0), false),
        Some(Range::new(Position::new(1, 2), Position::new(1, 3)))
    );
    assert_eq!(move_target(&model, Position::new(1, 2), true), None);
    assert_eq!(move_target(&Model::parse(""), Position::new(0, 0), true), None);
}

#[test]
fn commands_by_name() {
    assert_eq!(command_named("bluecsv.align"), Some(EditCommand::Align));
    assert_eq!(command_named("bluecsv.fromMarkdownTable"), Some(EditCommand::FromMarkdownTable));
    assert_eq!(command_named("bluecsv.nope"), None);
    assert_eq!(EditCommand::SortByColumn.name(), "bluecsv.sortByColumn");
}

#[test]
fn running_commands() {
    match run_command(EditCommand::Align, "a,bb\nccc,d\n", true, None, None, None) {
        Ok(CommandOutcome::Replace(t)) => assert_eq!(t, "a  ,bb\nccc,d \n"),
        _ => panic!("expected an edit"),
    }
    assert!(matches!(
        run_command(EditCommand::Unalign, "a,b\n", true, None, None, None),
        Ok(CommandOutcome::Unchanged)
    ));
    assert!(matches!(
        run_command(EditCommand::DeleteColumn, "a,b\n", true, None, None, None),
        Err(CommandError::MissingColumn)
    ));
    assert!(matches!(
        run_command(EditCommand::DuplicateRow, "a,b\n", true, None, None, None),
        Err(CommandError::MissingRow)
    ));
    assert!(matches!(
        run_command(EditCommand::PrevCell, "a,b\n", true, None, None, None),
        Ok(CommandOutcome::MoveCell(false))
    ));
    match run_command(EditCommand::SortByColumn, "k\nb\na\n", true, Some(0), None, None) {
        Ok(CommandOutcome::Replace(t)) => assert_eq!(t, "k\na\nb\n"),
        _ => panic!("expected an edit"),
    }
    assert_eq!(CommandError::MissingRow.message(), "expected row argument");
}

#[test]
fn aligning_on_save() {
    assert!(save_edit("a,b\n").is_none());
    let (range, text) = save_edit("a,bb\nccc,d").unwrap();
    assert_eq!(text, "a  ,bb\nccc,d ");
    assert_eq!(range.end, Position::new(1, 5));
}

#[test]
fn hover_shows_the_kind_of_a_data_cell() {
    let model = Model::parse("id,name,count\n1,Alice,10\n2,Bob,42\n3,Carol,7\n");
    let kinds = vec![CellType::Int, CellType::String, CellType::Int];
    let (text, _) = hover_at(&model, Position::new(1, 9), true, &kinds).unwrap();
    assert_eq!(text, "**count** \u{2014} row 1 \u{00b7} type: int");
    let (text, _) = hover_at(&model, Position::new(0, 10), true, &kinds).unwrap();
    assert_eq!(text, "**count** \u{2014} header");
}

#[test]
fn column_summary_asks_for_a_column() {
    assert!(matches!(
        run_command(EditCommand::ColumnSummary, "a\n1\n", true, Some(0), None, None),
        Ok(CommandOutcome::Summarize(0))
    ));
    assert!(matches!(
        run_command(EditCommand::ColumnSummary, "a\n1\n", true, None, None, None),
        Err(CommandError::MissingColumn)
    ));
    assert_eq!(command_named("bluecsv.columnSummary"), Some(EditCommand::ColumnSummary));
}
