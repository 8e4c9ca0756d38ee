use prettyplease::algorithm::Printer;
use prettyplease::path::{
    AngleBracketedGenericArguments, Binding, ConstArgument, Constraint, GenericArgument,
    ParenthesizedGenericArguments, Path, PathArguments, PathSegment, QSelf,
};
use prettyplease::script::{Script, Step};

fn text(word: &str) -> Script {
    Script {
        steps: vec![Step::Word(word.to_string())],
    }
}

fn nothing() -> Script {
    Script { steps: Vec::new() }
}

fn plain(name: &str) -> PathSegment {
    PathSegment {
        ident: name.to_string(),
        arguments: PathArguments::Empty,
    }
}

fn angle(name: &str, colon2_token: bool, args: Vec<GenericArgument>) -> PathSegment {
    PathSegment {
        ident: name.to_string(),
        arguments: PathArguments::AngleBracketed(AngleBracketedGenericArguments {
            colon2_token,
            args,
        }),
    }
}

fn printed(path: &Path) -> String {
    let mut p = Printer::new();
    p.path(path);
    p.eof()
}

#[test]
fn path_of_plain_segments() {
    let path = Path {
        leading_colon: false,
        segments: vec![plain("std"), plain("vec"), plain("Vec")],
    };
    assert_eq!(printed(&path), "std::vec::Vec");
    let path = Path {
        leading_colon: true,
        segments: vec![plain("core"), plain("fmt")],
    };
    assert_eq!(printed(&path), "::core::fmt");
}

#[test]
fn arguments_are_written_by_rank() {
    let args = vec![
        GenericArgument::Binding(Binding {
            ident: "Item".to_string(),
            ty: text("u8"),
        }),
        GenericArgument::Type(text("T")),
        GenericArgument::Lifetime(text("'a")),
        GenericArgument::Const(ConstArgument::Other(text("N + 1"))),
        GenericArgument::Const(ConstArgument::Lit(text("3"))),
    ];
    let path = Path {
        leading_colon: false,
        segments: vec![angle("Map", false, args)],
    };
    assert_eq!(printed(&path), "Map<'a, T, {N + 1}, 3, Item = u8>");
}

#[test]
fn empty_angle_brackets_are_left_out() {
    let path = Path {
        leading_colon: false,
        segments: vec![angle("Vec", true, Vec::new())],
    };
    assert_eq!(printed(&path), "Vec");
}

#[test]
fn turbofish_keeps_its_colons() {
    let path = Path {
        leading_colon: false,
        segments: vec![
            plain("iter"),
            angle("collect", true, vec![GenericArgument::Type(text("Vec<_>"))]),
        ],
    };
    assert_eq!(printed(&path), "iter::collect::<Vec<_>>");
}

#[test]
fn long_arguments_break_with_a_trailing_comma() {
    let a = "A".repeat(40);
    let b = "B".repeat(40);
    let path = Path {
        leading_colon: false,
        segments: vec![angle(
            "Pair",
            false,
            vec![
                GenericArgument::Type(text(&a)),
                GenericArgument::Type(text(&b)),
            ],
        )],
    };
    assert_eq!(printed(&path), format!("Pair<\n    {},\n    {},\n>", a, b));
}

#[test]
fn constraint_lists_its_bounds() {
    let path = Path {
        leading_colon: false,
        segments: vec![angle(
            "Iterator",
            false,
            vec![GenericArgument::Constraint(Constraint {
                ident: "Item".to_string(),
                bounds: vec![text("Display"), text("Debug")],
            })],
        )],
    };
    assert_eq!(printed(&path), "Iterator<Item: Display + Debug>");
}

#[test]
fn parenthesized_arguments() {
    let path = Path {
        leading_colon: false,
        segments: vec![PathSegment {
            ident: "Fn".to_string(),
            arguments: PathArguments::Parenthesized(ParenthesizedGenericArguments {
                inputs: vec![text("u8"), text("bool")],
                output: text(" -> String"),
            }),
        }],
    };
    assert_eq!(printed(&path), "Fn(u8, bool) -> String");
    let path = Path {
        leading_colon: false,
        segments: vec![PathSegment {
            ident: "FnOnce".to_string(),
            arguments: PathArguments::Parenthesized(ParenthesizedGenericArguments {
                inputs: Vec::new(),
                output: nothing(),
            }),
        }],
    };
    assert_eq!(printed(&path), "FnOnce()");
}

#[test]
fn path_segment_alone() {
    let mut p = Printer::new();
    p.path_segment(&angle(
        "Option",
        false,
        vec![GenericArgument::Type(text("u8"))],
    ));
    assert_eq!(p.eof(), "Option<u8>");
}

#[test]
fn qualified_paths() {
    let path = Path {
        leading_colon: false,
        segments: vec![plain("iter"), plain("Iterator"), plain("Item")],
    };
    let mut p = Printer::new();
    p.qpath(
        &Some(QSelf {
            ty: text("T"),
            position: 2,
        }),
        &path,
    );
    assert_eq!(p.eof(), "<T as iter::Iterator>::Item");

    let mut p = Printer::new();
    p.qpath(
        &Some(QSelf {
            ty: text("T"),
            position: 0,
        }),
        &path,
    );
    assert_eq!(p.eof(), "<T>::iter::Iterator::Item");

    let mut p = Printer::new();
    p.qpath(&None, &path);
    assert_eq!(p.eof(), "iter::Iterator::Item");
}

#[test]
fn script_plays_its_steps_in_order() {
    let script = Script {
        steps: vec![
            Step::Begin(prettyplease::token::BeginToken {
                offset: 4,
                breaks: prettyplease::token::Breaks::Consistent,
            }),
            Step::Word("a".repeat(50)),
            Step::Break(prettyplease::token::BreakToken {
                offset: 0,
                blank_space: 1,
                trailing_comma: false,
                if_nonempty: false,
            }),
            Step::Offset(2),
            Step::Word("b".repeat(50)),
            Step::End,
        ],
    };
    let mut p = Printer::new();
    p.play(&script);
    assert_eq!(
        p.eof(),
        format!("{}\n      {}", "a".repeat(50), "b".repeat(50))
    );
}

#[test]
fn try_play_stops_at_a_step_that_may_not_be_done() {
    let script = Script {
        steps: vec![
            Step::Word("a".to_string()),
            Step::End,
            Step::Word("b".to_string()),
        ],
    };
    let mut p = Printer::new();
    assert_eq!(p.try_play(&script), 1);
    assert_eq!(p.eof(), "a");

    let script = Script {
        steps: vec![Step::Word("a".to_string()), Step::Offset(1)],
    };
    let mut p = Printer::new();
    assert_eq!(p.try_play(&script), 1);
}

#[test]
fn try_step_counts_blocks_and_room() {
    let mut p = Printer::new();
    assert_eq!(p.open_blocks(), 0);
    assert_eq!(p.room(), (isize::MAX / 2) as usize);
    assert!(!p.ends_in_break_or_begin());
    assert!(p.try_step(&Step::Begin(prettyplease::token::BeginToken {
        offset: -4,
        breaks: prettyplease::token::Breaks::Inconsistent,
    })));
    assert_eq!(p.open_blocks(), 1);
    assert_eq!(p.room(), (isize::MAX / 2) as usize - 5);
    assert!(p.ends_in_break_or_begin());
    assert!(p.try_step(&Step::Offset(3)));
    assert!(p.try_step(&Step::Word("abc".to_string())));
    assert_eq!(p.room(), (isize::MAX / 2) as usize - 12);
    assert!(!p.try_step(&Step::Offset(1)));
    assert!(p.try_step(&Step::End));
    assert!(!p.try_step(&Step::End));
    assert_eq!(p.open_blocks(), 0);
    assert!(!p.try_step(&Step::Break(prettyplease::token::BreakToken {
        offset: isize::MIN,
        blank_space: 0,
        trailing_comma: false,
        if_nonempty: false,
    })));
    assert_eq!(p.eof(), "abc");
}
