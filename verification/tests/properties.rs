use prettyplease::algorithm::Printer;
use prettyplease::token::{BeginToken, BreakToken, Breaks};
use prettyplease::INDENT;
use std::borrow::Cow;

fn word(printer: &mut Printer, text: &str) {
    printer.scan_string(Cow::Owned(text.to_string()));
}

fn lines_are_tidy(out: &str) -> bool {
    out.split('\n').all(|line| !line.ends_with(' '))
}

/// A list of `count` items of `width` characters in a block of kind `breaks`,
/// nested `depth` blocks deep.
fn list(p: &mut Printer, breaks: Breaks, depth: usize, count: usize, width: usize) {
    p.scan_begin(BeginToken {
        offset: INDENT,
        breaks,
    });
    word(p, "[");
    p.zerobreak();
    for i in 0..count {
        if depth > 0 && i % 2 == 1 {
            list(p, breaks, depth - 1, count, width);
        } else {
            word(p, &"w".repeat(width));
        }
        p.trailing_comma(i + 1 == count);
    }
    p.offset(-INDENT);
    p.end();
    word(p, "]");
}

#[test]
fn all_that_goes_in_comes_out_when_blocks_are_closed() {
    for (depth, count, width) in [(0, 3, 5), (1, 4, 10), (2, 3, 30), (3, 2, 50)] {
        for breaks in [Breaks::Consistent, Breaks::Inconsistent] {
            let mut p = Printer::new();
            list(&mut p, breaks, depth, count, width);
            let out = p.eof();
            let opened = out.matches('[').count();
            let closed = out.matches(']').count();
            assert_eq!(opened, closed);
            assert!(out.ends_with(']'));
            let written: usize = out.matches('w').count();
            assert_eq!(written % width, 0);
            assert!(written > 0);
        }
    }
}

#[test]
fn what_follows_an_open_block_stays_in_the_buffer() {
    let mut p = Printer::new();
    word(&mut p, "before ");
    p.cbox(INDENT);
    word(&mut p, "inside");
    assert_eq!(p.eof(), "before ");
}

#[test]
fn no_line_ends_in_a_space() {
    for width in [1usize, 7, 20, 39, 40, 78, 79, 80, 120] {
        for breaks in [Breaks::Consistent, Breaks::Inconsistent] {
            let mut p = Printer::new();
            list(&mut p, breaks, 2, 3, width);
            p.space();
            word(&mut p, "after");
            p.space();
            let out = p.eof();
            assert!(lines_are_tidy(&out), "{:?}", out);
        }
    }
}

#[test]
fn a_text_that_ends_in_a_space_can_end_a_line() {
    let mut p = Printer::new();
    p.cbox(INDENT);
    word(&mut p, &format!("{} ", "a".repeat(90)));
    p.space();
    word(&mut p, "b");
    p.end();
    let out = p.eof();
    assert!(!lines_are_tidy(&out));
}

#[test]
fn breaks_of_a_consistent_block_fall_all_or_none() {
    for width in [5usize, 20, 25, 26, 27, 40, 100] {
        let mut p = Printer::new();
        p.cbox(INDENT);
        for i in 0..3 {
            if i > 0 {
                p.space();
            }
            word(&mut p, &"x".repeat(width));
        }
        p.end();
        let out = p.eof();
        let newlines = out.matches('\n').count();
        let blanks = out.matches(' ').count() - newlines * INDENT as usize;
        assert!(
            (newlines == 2 && blanks == 0) || (newlines == 0 && blanks == 2),
            "{:?}",
            out
        );
        assert_eq!(newlines == 0, 3 * width + 2 <= 79);
    }
}

#[test]
fn a_block_that_fits_stays_on_its_line_with_all_that_is_in_it() {
    let mut p = Printer::new();
    p.cbox(INDENT);
    word(&mut p, "outer");
    p.space();
    p.ibox(INDENT);
    word(&mut p, "inner");
    p.space();
    p.cbox(INDENT);
    word(&mut p, "innermost");
    p.space();
    word(&mut p, "end");
    p.end();
    p.end();
    p.space();
    word(&mut p, "tail");
    p.end();
    assert_eq!(p.eof(), "outer inner innermost end tail");
}

#[test]
fn a_block_fits_up_to_the_margin_and_not_beyond() {
    for (width, fits) in [(38usize, true), (39, true), (40, false)] {
        let mut p = Printer::new();
        p.cbox(INDENT);
        word(&mut p, &"a".repeat(width));
        p.space();
        word(&mut p, &"b".repeat(39));
        p.end();
        let out = p.eof();
        assert_eq!(out.contains('\n'), !fits, "{}", width);
    }
}

#[test]
fn text_after_a_block_counts_towards_its_size() {
    let mut p = Printer::new();
    p.cbox(INDENT);
    word(&mut p, &"a".repeat(30));
    p.space();
    word(&mut p, &"b".repeat(30));
    p.end();
    word(&mut p, &"c".repeat(30));
    p.space();
    let out = p.eof();
    assert_eq!(
        out,
        format!("{}\n    {}{}", "a".repeat(30), "b".repeat(30), "c".repeat(30))
    );
}

#[test]
fn a_new_stream_after_a_drained_one_starts_afresh() {
    let mut p = Printer::new();
    for _ in 0..3 {
        p.cbox(INDENT);
        word(&mut p, &"a".repeat(50));
        p.space();
        word(&mut p, &"b".repeat(50));
        p.end();
        p.scan_break(BreakToken {
            offset: 0,
            blank_space: 0xffff,
            trailing_comma: false,
            if_nonempty: false,
        });
    }
    let block = format!("{}\n    {}\n", "a".repeat(50), "b".repeat(50));
    assert_eq!(p.eof(), block.repeat(3));
}

#[test]
fn many_breaks_in_a_row_are_buffered_until_the_end() {
    let mut p = Printer::new();
    word(&mut p, "a");
    for _ in 0..200 {
        p.space();
    }
    word(&mut p, "b");
    let out = p.eof();
    assert!(out.starts_with('a') && out.ends_with('b'));
    assert!(lines_are_tidy(&out));
}
