use prettyplease::algorithm::Printer;
use prettyplease::token::{BeginToken, BreakToken, Breaks};
use prettyplease::INDENT;
use std::borrow::Cow;

fn word(printer: &mut Printer, text: &str) {
    printer.word(Cow::Owned(text.to_string()));
}

#[test]
fn one_line_fit() {
    let mut p = Printer::new();
    p.cbox(INDENT);
    word(&mut p, "a");
    p.space();
    word(&mut p, "b");
    p.end();
    assert_eq!(p.eof(), "a b");
}

#[test]
fn forced_break() {
    let long = "a".repeat(90);
    let mut p = Printer::new();
    p.cbox(INDENT);
    word(&mut p, &long);
    p.space();
    word(&mut p, "b");
    p.end();
    assert_eq!(p.eof(), format!("{}\n    b", long));
}

#[test]
fn consistent_block_that_fits() {
    let mut p = Printer::new();
    p.cbox(INDENT);
    word(&mut p, "x");
    p.space();
    word(&mut p, "y");
    p.space();
    word(&mut p, "z");
    p.end();
    assert_eq!(p.eof(), "x y z");
}

#[test]
fn consistent_block_breaks_everywhere() {
    let x = "x".repeat(30);
    let y = "y".repeat(30);
    let z = "z".repeat(30);
    let mut p = Printer::new();
    p.cbox(INDENT);
    word(&mut p, &x);
    p.space();
    word(&mut p, &y);
    p.space();
    word(&mut p, &z);
    p.end();
    assert_eq!(p.eof(), format!("{}\n    {}\n    {}", x, y, z));
}

#[test]
fn inconsistent_block_breaks_where_needed() {
    let a = "a".repeat(30);
    let b = "b".repeat(30);
    let c = "c".repeat(30);
    let mut p = Printer::new();
    p.ibox(INDENT);
    word(&mut p, &a);
    p.space();
    word(&mut p, &b);
    p.space();
    word(&mut p, &c);
    p.end();
    assert_eq!(p.eof(), format!("{} {}\n    {}", a, b, c));
}

fn arguments(items: &[String]) -> String {
    let mut p = Printer::new();
    word(&mut p, "f(");
    p.cbox(INDENT);
    p.zerobreak();
    for (i, item) in items.iter().enumerate() {
        word(&mut p, item);
        p.trailing_comma(i == items.len() - 1);
    }
    p.offset(-INDENT);
    p.end();
    word(&mut p, ")");
    p.eof()
}

#[test]
fn trailing_comma_absent_when_block_fits() {
    let items = vec!["one".to_string(), "two".to_string(), "three".to_string()];
    assert_eq!(arguments(&items), "f(one, two, three)");
}

#[test]
fn trailing_comma_present_when_block_breaks() {
    let items = vec!["p".repeat(30), "q".repeat(30), "r".repeat(30)];
    let expected = format!(
        "f(\n    {},\n    {},\n    {},\n)",
        items[0], items[1], items[2]
    );
    assert_eq!(arguments(&items), expected);
}

#[test]
fn empty_block_leaves_nothing() {
    let mut p = Printer::new();
    p.cbox(INDENT);
    p.zerobreak();
    p.end();
    assert_eq!(p.eof(), "");
}

#[test]
fn text_outside_blocks_is_written_at_once() {
    let mut p = Printer::new();
    word(&mut p, "hello");
    word(&mut p, " world");
    assert_eq!(p.eof(), "hello world");
}

#[test]
fn idle_break_before_end_is_dropped() {
    let mut p = Printer::new();
    p.cbox(INDENT);
    word(&mut p, "a");
    p.scan_break(BreakToken {
        offset: 0,
        blank_space: 1,
        trailing_comma: false,
        if_nonempty: true,
    });
    p.end();
    word(&mut p, "b");
    assert_eq!(p.eof(), "ab");
}

#[test]
fn offset_on_begin_changes_nothing() {
    let mut p = Printer::new();
    p.scan_begin(BeginToken {
        offset: INDENT,
        breaks: Breaks::Consistent,
    });
    p.offset(3);
    word(&mut p, &"a".repeat(90));
    p.space();
    word(&mut p, "b");
    p.end();
    assert_eq!(p.eof(), format!("{}\n    b", "a".repeat(90)));
}

#[test]
fn negative_indentation_stops_at_column_zero() {
    let mut p = Printer::new();
    p.cbox(-INDENT);
    word(&mut p, &"a".repeat(90));
    p.space();
    word(&mut p, "b");
    p.end();
    assert_eq!(p.eof(), format!("{}\nb", "a".repeat(90)));
}

#[test]
fn deep_nesting_keeps_minimum_space() {
    let mut p = Printer::new();
    for _ in 0..10 {
        p.cbox(INDENT);
        word(&mut p, &"w".repeat(50));
        p.space();
    }
    word(&mut p, &"v".repeat(59));
    p.space();
    word(&mut p, "t");
    for _ in 0..10 {
        p.end();
    }
    let out = p.eof();
    let last_two: Vec<&str> = out.lines().rev().take(2).collect();
    assert_eq!(last_two[0], format!("{}t", " ".repeat(40)));
    assert_eq!(last_two[1], format!("{}{}", " ".repeat(40), "v".repeat(59)));
}
