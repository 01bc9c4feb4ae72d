use printcore::print::{print, PrintOptions};
use printcore::print_items::{ConditionResolver, PrintItems, Signal};
use printcore::print_write_items::{print_write_items, NewlineKind, PrintWriteItemsOptions};
use printcore::printer::{
    get_resolved_infos, get_write_items, GetWriteItemsOptions, InfoPos, PrintError,
};
use printcore::write_items::WriteItem;

fn lf_opts(max_width: u32) -> PrintOptions {
    PrintOptions {
        max_width,
        indent_width: 2,
        use_tabs: false,
        newline_kind: NewlineKind::LineFeed,
    }
}

#[test]
fn exact_width_single_token() {
    let mut items = PrintItems::new();
    items.text("abcdefghij".to_string());
    let out = print(&items, lf_opts(10)).unwrap();
    assert_eq!(out, "abcdefghij");
}

#[test]
fn possible_newline_fires_on_overflow() {
    let mut items = PrintItems::new();
    items.text("hello".to_string());
    items.signal(Signal::PossibleNewLine);
    items.text("world".to_string());
    let out = print(&items, lf_opts(8)).unwrap();
    assert_eq!(out, "hello\nworld");
}

#[test]
fn possible_newline_silent_when_it_fits() {
    let mut items = PrintItems::new();
    items.text("hello".to_string());
    items.signal(Signal::PossibleNewLine);
    items.text("world".to_string());
    let out = print(&items, lf_opts(10)).unwrap();
    assert_eq!(out, "helloworld");
}

#[test]
fn indent_after_newline() {
    let mut items = PrintItems::new();
    items.signal(Signal::StartIndent);
    items.signal(Signal::NewLine);
    items.text("x".to_string());
    items.signal(Signal::FinishIndent);
    let out = print(&items, lf_opts(10)).unwrap();
    assert_eq!(out, "\n  x");
}

#[test]
fn single_line_condition_commits_false() {
    let mut items = PrintItems::new();
    let mut true_path = PrintItems::new();
    true_path.text("M".to_string());
    let mut false_path = PrintItems::new();
    false_path.text("S".to_string());
    items.info(0);
    items.text("ab".to_string());
    items.condition(7, ConditionResolver::IsMultipleLines(0, 1), true_path, false_path);
    items.info(1);
    let out = print(&items, lf_opts(10)).unwrap();
    assert_eq!(out, "abS");
}

#[test]
fn multi_line_condition_commits_true() {
    let mut items = PrintItems::new();
    let mut true_path = PrintItems::new();
    true_path.text("M".to_string());
    let mut false_path = PrintItems::new();
    false_path.text("S".to_string());
    items.info(0);
    items.text("ab".to_string());
    items.condition(7, ConditionResolver::IsMultipleLines(0, 1), true_path, false_path);
    items.signal(Signal::NewLine);
    items.info(1);
    let out = print(&items, lf_opts(10)).unwrap();
    assert_eq!(out, "abM\n");
}

#[test]
fn determinism_same_tree_same_config() {
    let mut items = PrintItems::new();
    items.text("alpha".to_string());
    items.signal(Signal::SpaceOrNewLine);
    items.text("beta".to_string());
    items.signal(Signal::SpaceOrNewLine);
    items.text("gamma".to_string());
    let first = print(&items, lf_opts(9)).unwrap();
    let second = print(&items, lf_opts(9)).unwrap();
    assert_eq!(first, second);
    assert_eq!(first, "alpha\nbeta\ngamma");
}

#[test]
fn writer_replay_is_identity() {
    let mut items = PrintItems::new();
    items.signal(Signal::StartIndent);
    items.signal(Signal::NewLine);
    items.text("x".to_string());
    items.signal(Signal::FinishIndent);
    let out = print(&items, lf_opts(10)).unwrap();
    let replay = vec![WriteItem::Text(out.clone())];
    let wo = PrintWriteItemsOptions {
        indent_width: 2,
        use_tabs: false,
        newline_kind: NewlineKind::LineFeed,
    };
    let replayed = print_write_items(&replay, wo);
    assert_eq!(replayed, out);
}

#[test]
fn info_positions_in_commit_order() {
    let mut items = PrintItems::new();
    items.text("ab".to_string());
    items.info(0);
    items.signal(Signal::NewLine);
    items.text("c".to_string());
    items.info(1);
    let o = GetWriteItemsOptions { max_width: 10, indent_width: 2 };
    let infos = get_resolved_infos(&items, o).unwrap();
    assert_eq!(infos[0], Some(InfoPos { line: 0, col: 2, indent: 0 }));
    assert_eq!(infos[1], Some(InfoPos { line: 1, col: 1, indent: 0 }));
}

#[test]
fn cyclic_conditions_exhaust_deterministically() {
    let mut items = PrintItems::new();
    let mut path_a = PrintItems::new();
    path_a.info(20);
    let mut path_b = PrintItems::new();
    path_b.info(21);
    items.condition(1, ConditionResolver::IsMultipleLines(21, 21), path_a, PrintItems::new());
    items.condition(2, ConditionResolver::IsMultipleLines(20, 20), path_b, PrintItems::new());
    let first = print(&items, lf_opts(10));
    let second = print(&items, lf_opts(10));
    assert_eq!(first, Err(PrintError::ResolutionExhausted(1)));
    assert_eq!(second, Err(PrintError::ResolutionExhausted(1)));
}

#[test]
fn zero_width_rejected() {
    let mut items = PrintItems::new();
    items.text("a".to_string());
    let mut o = lf_opts(10);
    o.max_width = 0;
    assert_eq!(print(&items, o), Err(PrintError::InvalidConfig));
    let mut o2 = lf_opts(10);
    o2.indent_width = 0;
    assert_eq!(print(&items, o2), Err(PrintError::InvalidConfig));
}

#[test]
fn dangling_info_named() {
    let mut items = PrintItems::new();
    items.condition(
        3,
        ConditionResolver::IsMultipleLines(5, 5),
        PrintItems::new(),
        PrintItems::new(),
    );
    assert_eq!(print(&items, lf_opts(10)), Err(PrintError::DanglingInfo(5)));
}

#[test]
fn space_or_newline_space_when_fits() {
    let mut items = PrintItems::new();
    items.text("foo".to_string());
    items.signal(Signal::SpaceOrNewLine);
    items.text("bar".to_string());
    let out = print(&items, lf_opts(10)).unwrap();
    assert_eq!(out, "foo bar");
}

#[test]
fn space_or_newline_breaks_on_overflow() {
    let mut items = PrintItems::new();
    items.text("foo".to_string());
    items.signal(Signal::SpaceOrNewLine);
    items.text("bar".to_string());
    let out = print(&items, lf_opts(5)).unwrap();
    assert_eq!(out, "foo\nbar");
}

#[test]
fn tabs_indentation() {
    let mut items = PrintItems::new();
    items.signal(Signal::StartIndent);
    items.signal(Signal::NewLine);
    items.text("x".to_string());
    let mut o = lf_opts(10);
    o.use_tabs = true;
    let out = print(&items, o).unwrap();
    assert_eq!(out, "\n\tx");
}

#[test]
fn carriage_return_line_feed_newlines() {
    let mut items = PrintItems::new();
    items.text("a".to_string());
    items.signal(Signal::NewLine);
    items.text("b".to_string());
    let mut o = lf_opts(10);
    o.newline_kind = NewlineKind::CarriageReturnLineFeed;
    let out = print(&items, o).unwrap();
    assert_eq!(out, "a\r\nb");
}

#[test]
fn tab_signal_expands_to_tab_stop() {
    let mut items = PrintItems::new();
    items.text("a".to_string());
    items.signal(Signal::Tab);
    items.text("b".to_string());
    let out = print(&items, lf_opts(10)).unwrap();
    assert_eq!(out, "a\tb");
}

#[test]
fn expect_newline_forces_fresh_line() {
    let mut items = PrintItems::new();
    items.text("a".to_string());
    items.signal(Signal::ExpectNewLine);
    items.text("b".to_string());
    let out = print(&items, lf_opts(10)).unwrap();
    assert_eq!(out, "a\nb");
}

#[test]
fn expect_newline_noop_at_line_start() {
    let mut items = PrintItems::new();
    items.signal(Signal::ExpectNewLine);
    let out = print(&items, lf_opts(10)).unwrap();
    assert_eq!(out, "");
}

#[test]
fn ignoring_indent_suppresses_indentation() {
    let mut items = PrintItems::new();
    items.signal(Signal::StartIndent);
    items.signal(Signal::NewLine);
    items.signal(Signal::StartIgnoringIndent);
    items.text("x".to_string());
    items.signal(Signal::FinishIgnoringIndent);
    items.signal(Signal::NewLine);
    items.text("y".to_string());
    let out = print(&items, lf_opts(10)).unwrap();
    assert_eq!(out, "\nx\n  y");
}

#[test]
fn start_of_line_resolver_is_immediate() {
    let mut items = PrintItems::new();
    let mut true_path = PrintItems::new();
    true_path.text("fresh".to_string());
    let mut false_path = PrintItems::new();
    false_path.text("mid".to_string());
    items.text("a".to_string());
    items.condition(9, ConditionResolver::IsStartOfLine, true_path, false_path);
    let out = print(&items, lf_opts(10)).unwrap();
    assert_eq!(out, "amid");
}

#[test]
fn empty_tree_prints_nothing() {
    let items = PrintItems::new();
    let out = print(&items, lf_opts(10)).unwrap();
    assert_eq!(out, "");
}

#[test]
fn write_items_carry_no_conditions() {
    let mut items = PrintItems::new();
    items.text("hello".to_string());
    items.signal(Signal::PossibleNewLine);
    items.text("world".to_string());
    let o = GetWriteItemsOptions { max_width: 8, indent_width: 2 };
    let ws = get_write_items(&items, o).unwrap();
    assert_eq!(
        ws,
        vec![
            WriteItem::Text("hello".to_string()),
            WriteItem::NewLine,
            WriteItem::Text("world".to_string()),
        ]
    );
}

#[test]
fn unbreakable_content_overflows_rather_than_splits() {
    let mut items = PrintItems::new();
    items.text("abcdefghijkl".to_string());
    let out = print(&items, lf_opts(10)).unwrap();
    assert_eq!(out, "abcdefghijkl");
}

#[test]
fn embedded_tab_widens_to_tab_stop() {
    // "a" then a tab inside the text: the tab expands to the next multiple
    // of the indent width (2), so "a\tbcdefgh" measures 10 columns and a
    // break opportunity before it fires at width 8.
    let mut items = PrintItems::new();
    items.text("ab".to_string());
    items.signal(Signal::PossibleNewLine);
    items.text("a\tbcdefgh".to_string());
    let out = print(&items, lf_opts(8)).unwrap();
    assert_eq!(out, "ab\na\tbcdefgh");
}

#[test]
fn reports_end_position_of_rendered_text() {
    let mut items = PrintItems::new();
    items.text("ab".to_string());
    items.signal(Signal::NewLine);
    items.text("c".to_string());
    items.signal(Signal::Tab);
    let out = print(&items, lf_opts(10)).unwrap();
    assert_eq!(out, "ab\nc\t");
    let pos = printcore::print_write_items::rendered_end_position(&out, 2);
    assert_eq!(pos, (1, 2));
}

#[test]
fn greedy_fill_breaks_at_last_opportunity() {
    let mut items = PrintItems::new();
    items.text("alpha".to_string());
    items.signal(Signal::SpaceOrNewLine);
    items.text("beta".to_string());
    items.signal(Signal::SpaceOrNewLine);
    items.text("gamma".to_string());
    let out = print(&items, lf_opts(11)).unwrap();
    assert_eq!(out, "alpha beta\ngamma");
}
