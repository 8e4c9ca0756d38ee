//! No line of the output ends in a space.

use crate::laws::law_step;
use crate::model::{line_end, spaces, Entry, Op, State};
use crate::settling::lemma_check_stack;
use crate::token::TokenView;
use vstd::prelude::*;

verus! {

/// No space of `text` stands at the end of a line or at the end of the
/// text.
pub open spec fn tidy(text: Seq<char>) -> bool {
    &&& text.len() > 0 ==> text.last() != ' '
    &&& forall|i: int, j: int|
        #![trigger text[i], text[j]]
        0 <= i && j == i + 1 && j < text.len() && text[i] == ' ' ==> text[j] != '\n'
}

/// The text is not empty, does not start with a newline, and none of its
/// spaces stands at the end of a line or at the end of the text.
pub open spec fn neat(text: Seq<char>) -> bool {
    text.len() > 0 && text[0] != '\n' && tidy(text)
}

/// Whether the operation hands the printer no text but a neat one.
pub open spec fn neat_op(op: Op) -> bool {
    op matches Op::String(text) ==> neat(text)
}

impl State {
    /// Every buffered text is neat.
    pub open spec fn texts_neat(self) -> bool {
        forall|i: int|
            0 <= i < self.buf.len() ==> ((#[trigger] self.buf[i]).token matches TokenView::String(
                text,
            ) ==> neat(text))
    }

    /// The output is tidy so far and will stay so when what is buffered is
    /// written.
    pub open spec fn clean(self) -> bool {
        tidy(self.out) && self.texts_neat()
    }
}

/// One tidy text after another is a tidy text.
pub proof fn lemma_tidy_concat(a: Seq<char>, b: Seq<char>)
    requires
        tidy(a),
        tidy(b),
    ensures
        tidy(a + b),
{
    let c = a + b;
    if b.len() == 0 {
        assert(c =~= a);
    } else {
        assert forall|i: int, j: int|
            #![trigger c[i], c[j]]
            0 <= i && j == i + 1 && j < c.len() && c[i] == ' ' implies c[j] != '\n' by {
            if j < a.len() {
                assert(a[i] == ' ' && a[j] == c[j]);
            } else if i >= a.len() {
                assert(b[i - a.len()] == ' ' && b[j - a.len()] == c[j]);
            } else {
                assert(a.last() == c[i]);
            }
        }
    }
}

/// Spaces before a neat text make a tidy text.
pub proof fn lemma_tidy_indented(count: nat, text: Seq<char>)
    requires
        neat(text),
    ensures
        tidy(spaces(count) + text),
{
    let c = spaces(count) + text;
    assert(c.last() == text.last());
    assert forall|i: int, j: int|
        #![trigger c[i], c[j]]
        0 <= i && j == i + 1 && j < c.len() && c[i] == ' ' implies c[j] != '\n' by {
        if j < count {
            assert(c[j] == ' ');
        } else if i < count {
            assert(c[j] == text[0]);
        } else {
            assert(text[i - count] == ' ' && text[j - count] == c[j]);
        }
    }
}

/// Writing an entry keeps the output tidy, if the entry is no text or a
/// neat one.
pub proof fn lemma_print_tidy(s: State, entry: Entry)
    requires
        tidy(s.out),
        entry.token matches TokenView::String(text) ==> neat(text),
    ensures
        tidy(s.print(entry).out),
        s.print(entry).buf == s.buf,
{
    match entry.token {
        TokenView::String(text) => {
            lemma_tidy_indented(s.pending_indentation, text);
            lemma_tidy_concat(s.out, spaces(s.pending_indentation) + text);
            assert(s.out + spaces(s.pending_indentation) + text =~= s.out + (spaces(
                s.pending_indentation,
            ) + text));
        },
        TokenView::Break(token) => {
            lemma_tidy_concat(s.out, line_end(token));
        },
        _ => {},
    }
}

/// Writing out what can be written keeps the state clean.
pub proof fn lemma_advance_left_clean(s: State)
    requires
        s.clean(),
    ensures
        s.advance_left().clean(),
    decreases s.buf.len(),
{
    if s.buf.len() > 0 && s.buf[0].size >= 0 {
        lemma_print_tidy(s.pop_first(), s.buf[0]);
        let t = s.pop_first().print(s.buf[0]);
        assert forall|i: int| 0 <= i < t.buf.len() implies ((#[trigger] t.buf[i]).token matches TokenView::String(
            text,
        ) ==> neat(text)) by {
            assert(t.buf[i] == s.buf[i + 1]);
        }
        lemma_advance_left_clean(t);
    }
}

/// Writing out while the buffer is overfull keeps the state clean.
pub proof fn lemma_check_stream_clean(s: State)
    requires
        s.clean(),
    ensures
        s.check_stream().clean(),
    decreases s.buf.len(),
{
    if s.overfull() && s.buf.len() > 0 {
        let f = s.force_first();
        assert forall|i: int| 0 <= i < f.buf.len() implies ((#[trigger] f.buf[i]).token matches TokenView::String(
            text,
        ) ==> neat(text)) by {
            assert(f.buf[i].token == s.buf[i].token);
        }
        lemma_advance_left_clean(f);
        let drained = f.advance_left();
        if 0 < drained.buf.len() < s.buf.len() {
            lemma_check_stream_clean(drained);
        }
    }
}

/// A fresh printer is clean.
pub proof fn law_clean_initial()
    ensures
        State::initial().clean(),
{
}

/// Every operation that hands the printer no text but a neat one keeps the
/// state clean.
pub proof fn law_clean_step(s: State, op: Op, spent: nat)
    requires
        s.wf(),
        s.bounded(spent),
        s.clean(),
        s.admits(op),
        neat_op(op),
    ensures
        s.apply(op).clean(),
{
    let r = s.apply(op);
    match op {
        Op::String(text) => {
            if s.scan_stack.len() == 0 {
                lemma_print_tidy(s, Entry { token: TokenView::String(text), size: 0 });
            } else {
                let pushed = State {
                    right_total: s.right_total + text.len(),
                    ..s.push(TokenView::String(text), text.len() as int)
                };
                assert forall|i: int| 0 <= i < pushed.buf.len() implies ((
                #[trigger] pushed.buf[i]).token matches TokenView::String(t) ==> neat(t)) by {
                    if i < s.buf.len() {
                        assert(pushed.buf[i] == s.buf[i]);
                    }
                }
                lemma_check_stream_clean(pushed);
            }
        },
        Op::Break(token) => {
            let settled = if s.scan_stack.len() == 0 {
                s.rebase()
            } else {
                s.check_stack(0)
            };
            if s.scan_stack.len() > 0 {
                lemma_check_stack(s, 0);
            }
            assert forall|i: int| 0 <= i < r.buf.len() implies ((#[trigger] r.buf[i]).token matches TokenView::String(
                t,
            ) ==> neat(t)) by {
                if i < settled.buf.len() {
                    assert(r.buf[i] == settled.buf[i]);
                    assert(settled.buf[i].token == s.buf[i].token);
                }
            }
        },
        Op::Begin(token) => {
            let based = if s.scan_stack.len() == 0 {
                s.rebase()
            } else {
                s
            };
            assert forall|i: int| 0 <= i < r.buf.len() implies ((#[trigger] r.buf[i]).token matches TokenView::String(
                t,
            ) ==> neat(t)) by {
                if i < based.buf.len() {
                    assert(r.buf[i] == s.buf[i]);
                }
            }
        },
        Op::End => {
            assert forall|i: int| 0 <= i < r.buf.len() implies ((#[trigger] r.buf[i]).token matches TokenView::String(
                t,
            ) ==> neat(t)) by {
                if i < s.buf.len() && r.buf[i].token is String {
                    assert(r.buf[i] == s.buf[i]);
                }
            }
        },
        Op::Offset(delta) => {
            assert forall|i: int| 0 <= i < r.buf.len() implies ((#[trigger] r.buf[i]).token matches TokenView::String(
                t,
            ) ==> neat(t)) by {
                if r.buf[i].token is String {
                    assert(r.buf[i] == s.buf[i]);
                }
            }
        },
    }
}

/// At the end of the input a clean state hands out a tidy text.
pub proof fn law_eof_tidy(s: State)
    requires
        s.wf(),
        s.clean(),
    ensures
        tidy(s.eof()),
{
    if s.scan_stack.len() > 0 {
        lemma_check_stack(s, 0);
        let c = s.check_stack(0);
        assert forall|i: int| 0 <= i < c.buf.len() implies ((#[trigger] c.buf[i]).token matches TokenView::String(
            t,
        ) ==> neat(t)) by {
            assert(c.buf[i].token == s.buf[i].token);
        }
        lemma_advance_left_clean(c);
    }
}

/// Whether every text among the operations is neat.
pub open spec fn all_neat(ops: Seq<Op>) -> bool {
    forall|i: int| 0 <= i < ops.len() ==> neat_op(#[trigger] ops[i])
}

/// No line of what a printer hands out ends in a space, and neither does
/// its last line, if every text that the printer was handed was neat.
pub proof fn law_no_trailing_whitespace(ops: Seq<Op>) -> (spent: nat)
    requires
        State::initial().admits_all(ops),
        all_neat(ops),
    ensures
        State::initial().run(ops).wf(),
        State::initial().run(ops).bounded(spent),
        State::initial().run(ops).clean(),
        tidy(crate::model::render(ops)),
    decreases ops.len(),
{
    let spent = if ops.len() == 0 {
        crate::wellformed::lemma_initial_wf();
        0nat
    } else {
        let init = ops.drop_last();
        assert forall|i: int| 0 <= i < init.len() implies neat_op(#[trigger] init[i]) by {
            assert(init[i] == ops[i]);
        }
        let before = law_no_trailing_whitespace(init);
        let s = State::initial().run(init);
        law_step(s, ops.last(), before);
        law_clean_step(s, ops.last(), before);
        before + crate::laws::cost(ops.last())
    };
    law_eof_tidy(State::initial().run(ops));
    spent
}

} // verus!
