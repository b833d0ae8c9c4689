use qldbshell::text::{split_script, split_statements};
use qldbshell::ui::Ui;

fn strings(v: &[&str]) -> Vec<String> {
    v.iter().map(|s| s.to_string()).collect()
}

fn drain(ui: &mut Ui) -> Vec<String> {
    let mut out = Vec::new();
    while let Some(s) = ui.next_pending() {
        out.push(s);
    }
    out
}

#[test]
fn splits_on_delimiter_and_trims() {
    assert_eq!(split_statements("foo; bar ;baz"), strings(&["foo", "bar", "baz"]));
}

#[test]
fn line_without_delimiter_is_one_trimmed_statement() {
    assert_eq!(split_statements("  select 1 \t"), strings(&["select 1"]));
    assert_eq!(split_statements("x"), strings(&["x"]));
}

#[test]
fn spacing_around_delimiter_does_not_matter() {
    assert_eq!(split_statements("foo;bar"), split_statements("foo; bar"));
}

#[test]
fn empty_and_delimiter_only_lines() {
    assert_eq!(split_statements(""), strings(&[""]));
    assert_eq!(split_statements(";;"), strings(&["", "", ""]));
    assert_eq!(split_statements("  ;  "), strings(&["", ""]));
}

#[test]
fn trims_unicode_blanks() {
    assert_eq!(split_statements("\u{3000}x y\u{a0};\u{2003}z\r"), strings(&["x y", "z"]));
}

#[test]
fn delimiter_count_gives_statement_count() {
    assert_eq!(split_statements("a;b;c;d").len(), 4);
    assert_eq!(split_statements(" a ; ; b").len(), 3);
}

#[test]
fn script_statements_in_order_then_exit() {
    assert_eq!(split_script("a; b\nc"), strings(&["a", "b", "c", "exit"]));
}

#[test]
fn script_session_replays_statements() {
    let mut ui = Ui::new_for_script("a; b\nc");
    assert_eq!(ui.prompt(), "");
    assert_eq!(drain(&mut ui), strings(&["a", "b", "c", "exit"]));
    assert!(!ui.has_pending());
}

#[test]
fn empty_script_only_exits() {
    assert_eq!(split_script(""), strings(&["exit"]));
}

#[test]
fn script_line_endings() {
    assert_eq!(split_script("a\r\nb\n"), strings(&["a", "b", "exit"]));
    assert_eq!(split_script("a\n\nb"), strings(&["a", "", "b", "exit"]));
    assert_eq!(split_script("x;y\n"), strings(&["x", "y", "exit"]));
}

#[test]
fn new_session_is_interactive_and_empty() {
    let mut ui = Ui::new();
    assert_eq!(ui.prompt(), "> ");
    assert!(!ui.has_pending());
    assert_eq!(ui.next_pending(), None);
}

#[test]
fn line_is_recorded_whole_and_replayed_in_order() {
    let mut ui = Ui::new();
    let out = ui.take_line::<()>(Ok("foo; bar".to_string()));
    assert_eq!(out.history, Some("foo; bar".to_string()));
    assert_eq!(out.input, Ok("foo".to_string()));
    assert_eq!(ui.next_pending(), Some("bar".to_string()));
    assert_eq!(ui.next_pending(), None);
}

#[test]
fn single_statement_line_leaves_nothing_queued() {
    let mut ui = Ui::new();
    let out = ui.take_line::<()>(Ok("  show tables  ".to_string()));
    assert_eq!(out.history, Some("  show tables  ".to_string()));
    assert_eq!(out.input, Ok("show tables".to_string()));
    assert!(!ui.has_pending());
}

#[test]
fn clear_pending_drops_rest_of_line() {
    let mut ui = Ui::new();
    let out = ui.take_line::<()>(Ok("foo; bar".to_string()));
    assert_eq!(out.input, Ok("foo".to_string()));
    ui.clear_pending();
    assert_eq!(ui.next_pending(), None);
    let out = ui.take_line::<()>(Ok("baz".to_string()));
    assert_eq!(out.input, Ok("baz".to_string()));
}

#[derive(Debug, PartialEq)]
enum Signal {
    EndOfInput,
    Interrupted,
}

#[test]
fn signals_pass_through_unchanged() {
    let mut ui = Ui::new_for_script("a; b");
    assert_eq!(ui.next_pending(), Some("a".to_string()));
    let out = ui.take_line(Err(Signal::EndOfInput));
    assert_eq!(out.history, None);
    assert_eq!(out.input, Err(Signal::EndOfInput));
    let out = ui.take_line(Err(Signal::Interrupted));
    assert_eq!(out.input, Err(Signal::Interrupted));
    assert_eq!(drain(&mut ui), strings(&["b", "exit"]));
}

#[test]
fn set_prompt_changes_only_prompt() {
    let mut ui = Ui::new_for_script("a");
    ui.set_prompt("one> ".to_string());
    ui.set_prompt("two> ".to_string());
    assert_eq!(ui.prompt(), "two> ");
    assert_eq!(drain(&mut ui), strings(&["a", "exit"]));
}
