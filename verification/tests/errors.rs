use prettyplease::chain::Chain;
use prettyplease::context::{Context, StdError};
use prettyplease::ensure::{render, BothDebug, Buf, NotBothDebug};
use prettyplease::error::{Adhoc, AdhocKind, Boxed, BoxedKind, Cause, Error, Trait, TraitKind};
use prettyplease::report::{decimal_text, Indented};

fn cause(messages: &[&str]) -> Cause {
    let mut built: Option<Box<Cause>> = None;
    for message in messages.iter().rev() {
        built = Some(Box::new(Cause {
            message: message.to_string(),
            source: built,
        }));
    }
    *built.unwrap()
}

fn messages(chain: &mut Chain) -> Vec<String> {
    let mut found = Vec::new();
    while let Some(cause) = chain.next() {
        found.push(cause.message.clone());
    }
    found
}

#[test]
fn chain_walks_from_the_error_to_the_root() {
    let error = Error::new(cause(&["top", "middle", "root"]));
    let mut chain = error.chain();
    assert_eq!(chain.len(), 3);
    assert_eq!(chain.size_hint(), (3, Some(3)));
    assert_eq!(messages(&mut chain), vec!["top", "middle", "root"]);
    assert_eq!(chain.len(), 0);
}

#[test]
fn chain_can_be_taken_from_both_ends() {
    let error = Error::new(cause(&["a", "b", "c", "d"]));
    let mut chain = error.chain();
    assert_eq!(chain.next_back().unwrap().message, "d");
    assert_eq!(chain.next().unwrap().message, "a");
    assert_eq!(chain.len(), 2);
    assert_eq!(chain.next_back().unwrap().message, "c");
    assert_eq!(chain.next_back().unwrap().message, "b");
    assert!(chain.next_back().is_none());
    assert!(chain.next().is_none());
}

#[test]
fn empty_chain_has_nothing() {
    let mut chain = Chain::empty();
    assert_eq!(chain.len(), 0);
    assert!(chain.next().is_none());
    assert!(chain.next_back().is_none());
}

#[test]
fn root_cause_is_the_last_of_the_chain() {
    let error = Error::new(cause(&["top", "root"])).context("while testing".to_string());
    assert_eq!(error.root_cause().message, "root");
    assert_eq!(Error::msg("alone".to_string()).root_cause().message, "alone");
}

#[test]
fn display_shows_the_message_or_the_whole_chain() {
    let error = Error::msg("root".to_string())
        .context("middle".to_string())
        .context("top".to_string());
    assert_eq!(error.display(false), "top");
    assert_eq!(error.display(true), "top: middle: root");
}

#[test]
fn debug_of_an_error_without_cause_is_its_message() {
    assert_eq!(Error::msg("alone".to_string()).debug(), "alone");
}

#[test]
fn debug_lists_one_cause_without_number() {
    let error = Error::msg("root\nsecond line".to_string()).context("top".to_string());
    assert_eq!(error.debug(), "top\n\nCaused by:\n    root\n    second line");
}

#[test]
fn debug_numbers_several_causes() {
    let error = Error::msg("root".to_string())
        .context("middle\nmore".to_string())
        .context("top".to_string());
    assert_eq!(
        error.debug(),
        "top\n\nCaused by:\n    0: middle\n       more\n    1: root"
    );
}

#[test]
fn indented_writes_the_lead_once() {
    let mut out = String::from(">");
    let mut indented = Indented {
        number: Some(12),
        started: false,
    };
    indented.write_str(&mut out, "one\ntwo");
    indented.write_str(&mut out, " three\nfour");
    assert_eq!(out, ">   12: one\n       two three\n       four");
    assert!(indented.started);
}

#[test]
fn decimal_text_of_numbers() {
    assert_eq!(decimal_text(0), "0");
    assert_eq!(decimal_text(7), "7");
    assert_eq!(decimal_text(10), "10");
    assert_eq!(decimal_text(123456), "123456");
}

#[test]
fn buf_refuses_spaces_newlines_and_overflow() {
    let mut buf = Buf::new();
    assert!(buf.write_str("abc").is_ok());
    assert!(buf.write_str("a b").is_err());
    assert!(buf.write_str("a\nb").is_err());
    assert!(buf.write_str(&"x".repeat(37)).is_ok());
    assert!(buf.write_str("y").is_err());
    assert_eq!(buf.as_str(), format!("abc{}", "x".repeat(37)));
}

#[test]
fn render_shows_both_sides_when_they_are_short() {
    let error = render("Condition failed: `a == b`", "1", "2");
    assert_eq!(error.display(false), "Condition failed: `a == b` (1 vs 2)");
    let error = render("Condition failed: `a == b`", "\"x y\"", "2");
    assert_eq!(error.display(false), "Condition failed: `a == b`");
    let long = "9".repeat(41);
    let error = render("Condition failed: `a == b`", "1", &long);
    assert_eq!(error.display(false), "Condition failed: `a == b`");
}

#[test]
fn dispatch_by_what_can_be_shown() {
    let shown = ("1", "2").__dispatch_ensure("no");
    assert_eq!(shown.display(false), "no (1 vs 2)");
    let hidden = (&(vec![1], 2u8)).__dispatch_ensure("no");
    assert_eq!(hidden.display(false), "no");
}

#[test]
fn kinds_make_errors() {
    let message = "adhoc".to_string();
    let made = (&message).anyhow_kind().new(message.clone());
    assert_eq!(made.display(true), "adhoc");
    let already = Error::msg("is one".to_string());
    let kind: Trait = already.anyhow_kind();
    assert_eq!(kind.new(already).display(true), "is one");
    let boxed = Box::new(cause(&["outer", "inner"]));
    let kind: Boxed = boxed.anyhow_kind();
    assert_eq!(kind.new(boxed).display(true), "outer: inner");
    let _unit: Adhoc = Adhoc;
    assert_eq!(
        prettyplease::error::must_use(Error::msg("kept".to_string())).display(false),
        "kept"
    );
}

#[test]
fn context_wraps_errors_and_leaves_values() {
    let fine: Result<u8, Error> = Ok(3);
    assert_eq!(fine.context("reading".to_string()).ok(), Some(3));
    let failed: Result<u8, Error> = Err(Error::msg("no file".to_string()));
    let wrapped = failed.context("reading".to_string()).err().unwrap();
    assert_eq!(wrapped.display(true), "reading: no file");
    let plain: Result<u8, Cause> = Err(cause(&["denied", "locked"]));
    let wrapped = plain.context("opening".to_string()).err().unwrap();
    assert_eq!(wrapped.display(true), "opening: denied: locked");
    let missing: Option<u8> = None;
    let made = missing.context("nothing there".to_string()).err().unwrap();
    assert_eq!(made.display(true), "nothing there");
    assert_eq!(Some(5u8).context("unused".to_string()).ok(), Some(5));
    let direct = cause(&["low"]).ext_context("high".to_string());
    assert_eq!(direct.display(true), "high: low");
}
