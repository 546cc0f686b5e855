use cat_library::editor::{Command, Editor, EditorAction, Passback};
use cat_library::text::{join_lines, split_lines};

fn lines_of(editor: &Editor) -> Vec<String> {
    editor.lines.clone()
}

#[test]
fn authoring_round_trip() {
    let mut editor = Editor::new(Vec::new(), false);
    let (pb, action) = {
        // the buffer is empty, so clamp it the way a redraw would
        editor.render();
        editor.handle_cmd(Command::Delete)
    };
    assert!(matches!(pb, Passback::Continue));
    assert!(matches!(action, EditorAction::Nothing));
    // the buffer is now empty again: author two lines through the insert
    // sub-loop and end it with the terminator
    editor.render();
    let (_, action) = editor.handle_cmd(Command::Insert);
    assert!(matches!(action, EditorAction::InsertMode));
    editor.insert_line("alpha".to_string());
    editor.insert_line("beta".to_string());
    editor.end_insert();
    let lines = editor.into_lines();
    assert_eq!(lines, vec!["alpha".to_string(), "beta".to_string(), "".to_string()]);

    // the sub-loop alone round-trips exactly
    let mut fresh = Editor::new(Vec::new(), false);
    fresh.insert_line("alpha".to_string());
    fresh.insert_line("beta".to_string());
    fresh.end_insert();
    let authored = fresh.into_lines();
    assert_eq!(authored, vec!["alpha".to_string(), "beta".to_string()]);
    let content = join_lines(&authored);
    assert_eq!(content, "alpha\nbeta\n");
    let reopened = split_lines(&content);
    assert_eq!(reopened, authored);
}

#[test]
fn readonly_refusal_leaves_the_buffer_unchanged() {
    let lines = vec!["one".to_string(), "two".to_string()];
    let mut editor = Editor::new(lines.clone(), true);
    editor.render();
    for cmd in [Command::Insert, Command::Append, Command::Change, Command::Delete] {
        let (pb, action) = editor.handle_cmd(cmd);
        assert!(matches!(pb, Passback::Continue));
        assert!(matches!(action, EditorAction::Refused));
        assert_eq!(lines_of(&editor), lines);
        assert_eq!(editor.cur_line, 0);
    }
}

#[test]
fn build_parses_numbers_and_words() {
    assert_eq!(Command::build("5", 9), Some(Command::LineGotoIdx(4)));
    assert_eq!(Command::build("+5", 9), Some(Command::LineGotoIdx(4)));
    assert_eq!(Command::build("0", 9), Some(Command::LineGotoIdx(0)));
    assert_eq!(Command::build("j3", 9), Some(Command::LineNext(3)));
    assert_eq!(Command::build("k2", 9), Some(Command::LinePrev(2)));
    assert_eq!(Command::build("", 9), Some(Command::LineNext(1)));
    assert_eq!(Command::build("j", 9), Some(Command::LineNext(1)));
    assert_eq!(Command::build("k", 9), Some(Command::LinePrev(1)));
    assert_eq!(Command::build("g", 9), Some(Command::LineGotoIdx(0)));
    assert_eq!(Command::build("G", 9), Some(Command::LineGotoIdx(8)));
    assert_eq!(Command::build("G", 0), Some(Command::LineGotoIdx(0)));
    assert_eq!(Command::build("q", 9), Some(Command::Quit));
    assert_eq!(Command::build("quit", 9), Some(Command::Quit));
    assert_eq!(Command::build("help", 9), Some(Command::Help));
    assert_eq!(Command::build("p", 9), Some(Command::Print));
    assert_eq!(Command::build("l", 9), Some(Command::CountLines));
    assert_eq!(Command::build("i", 9), Some(Command::Insert));
    assert_eq!(Command::build("a", 9), Some(Command::Append));
    assert_eq!(Command::build("c", 9), Some(Command::Change));
    assert_eq!(Command::build("d", 9), Some(Command::Delete));
    assert_eq!(Command::build("frobnicate", 9), None);
    assert_eq!(Command::build("99999999999999999999999", 9), None);
}

#[test]
fn margin_is_right_aligned() {
    assert_eq!(Editor::fmt_margin(3, 41), " 42 |\t");
    assert_eq!(Editor::fmt_margin(1, 0), "1 |\t");
    assert_eq!(Editor::fmt_margin(2, 0), " 1 |\t");
    assert_eq!(Editor::fmt_margin(1, 123), "124 |\t");
}

#[test]
fn render_reveals_only_new_lines() {
    let lines = vec!["one".to_string(), "two".to_string(), "three".to_string()];
    let mut editor = Editor::new(lines, true);
    let out = editor.render();
    assert!(!out.cursor_up);
    assert_eq!(out.lines, vec!["1 |\tone\n".to_string()]);

    let (_, _) = editor.handle_cmd(Command::LineNext(1));
    let out = editor.render();
    // moving forward reveals just the next line, overwriting the prompt
    assert!(out.cursor_up);
    assert_eq!(out.lines, vec!["2 |\ttwo\n".to_string()]);

    let (_, _) = editor.handle_cmd(Command::LineNext(1));
    let out = editor.render();
    assert!(out.cursor_up);
    assert_eq!(out.lines, vec!["3 |\tthree\n".to_string()]);

    // a print command resets the anchor so everything is redrawn
    let (_, action) = editor.handle_cmd(Command::Print);
    assert!(matches!(action, EditorAction::Nothing));
    let out = editor.render();
    assert!(!out.cursor_up);
    assert_eq!(
        out.lines,
        vec![
            "1 |\tone\n".to_string(),
            "2 |\ttwo\n".to_string(),
            "3 |\tthree\n".to_string()
        ]
    );
}

#[test]
fn count_lines_reports_the_buffer_size() {
    let lines = vec!["one".to_string(), "two".to_string()];
    let mut editor = Editor::new(lines, true);
    editor.render();
    let (pb, action) = editor.handle_cmd(Command::CountLines);
    assert!(matches!(pb, Passback::Continue));
    assert_eq!(action, EditorAction::ShowCount(2));
}

#[test]
fn replace_swaps_one_line() {
    let lines = vec!["one".to_string(), "two".to_string()];
    let mut editor = Editor::new(lines, false);
    editor.render();
    let (_, action) = editor.handle_cmd(Command::Change);
    assert_eq!(action, EditorAction::ReplaceWanted);
    editor.replace_current("uno".to_string());
    assert_eq!(editor.into_lines(), vec!["uno".to_string(), "two".to_string()]);
}
