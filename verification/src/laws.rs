//! What follows for every driver from the way the printer works.

use crate::model::{clip, Entry, Op, State, MARGIN};
use crate::scanning::{
    lemma_offset, lemma_scan_begin, lemma_scan_break, lemma_scan_end, lemma_scan_string,
};
use crate::settling::lemma_check_stack;
use crate::sums::lemma_total_nonnegative;
use crate::token::{Measure, TokenView};
use vstd::prelude::*;

verus! {

/// What an operation takes of the printer's capacity.
pub open spec fn cost(op: Op) -> nat {
    match op {
        Op::String(text) => TokenView::String(text).cost(),
        Op::Break(token) => TokenView::Break(token).cost(),
        Op::Begin(token) => TokenView::Begin(token).cost(),
        Op::End => TokenView::End.cost(),
        Op::Offset(delta) => crate::token::magnitude(delta),
    }
}

/// Every operation that the driver may do leaves a state that is
/// well-formed, and moves the number of open blocks as its token says.
pub proof fn law_step(s: State, op: Op, spent: nat)
    requires
        s.wf(),
        s.bounded(spent),
        s.admits(op),
    ensures
        s.apply(op).wf(),
        s.apply(op).bounded(spent + cost(op)),
        s.apply(op).depth() == s.depth() + (match op {
            Op::Begin(_) => 1int,
            Op::End => -1int,
            _ => 0int,
        }),
{
    match op {
        Op::String(text) => lemma_scan_string(s, text, spent),
        Op::Break(token) => lemma_scan_break(s, token, spent),
        Op::Begin(token) => lemma_scan_begin(s, token, spent),
        Op::End => lemma_scan_end(s, spent),
        Op::Offset(delta) => lemma_offset(s, delta, spent),
    }
}

/// Writing out never lowers the total of what left the buffer, and leaves
/// the total of what entered it as it is.
pub proof fn lemma_advance_left_totals(s: State)
    ensures
        s.advance_left().left_total >= s.left_total,
        s.advance_left().right_total == s.right_total,
    decreases s.buf.len(),
{
    if s.buf.len() > 0 && s.buf[0].size >= 0 {
        lemma_advance_left_totals(s.pop_first().print(s.buf[0]));
    }
}

/// Writing out while the buffer is overfull never lowers the total of what
/// left the buffer, and leaves the total of what entered it as it is.
pub proof fn lemma_check_stream_totals(s: State)
    ensures
        s.check_stream().left_total >= s.left_total,
        s.check_stream().right_total == s.right_total,
    decreases s.buf.len(),
{
    if s.overfull() && s.buf.len() > 0 {
        let drained = s.force_first().advance_left();
        lemma_advance_left_totals(s.force_first());
        if 0 < drained.buf.len() < s.buf.len() {
            lemma_check_stream_totals(drained);
        }
    }
}

/// Settling sizes leaves both totals as they are.
pub proof fn lemma_check_stack_totals(s: State, depth: nat)
    ensures
        s.check_stack(depth).left_total == s.left_total,
        s.check_stack(depth).right_total == s.right_total,
    decreases s.scan_stack.len(),
{
    if s.scan_stack.len() > 0 {
        let index = s.scan_stack.last() as int;
        let entry = s.entry(index);
        match entry.token {
            TokenView::Begin(_) => {
                if depth != 0 {
                    lemma_check_stack_totals(
                        s.pop_scan().resize(index, entry.size + s.right_total),
                        (depth - 1) as nat,
                    );
                }
            },
            TokenView::End => {
                lemma_check_stack_totals(s.pop_scan().resize(index, 1), depth + 1);
            },
            TokenView::Break(_) => {
                if depth != 0 {
                    lemma_check_stack_totals(
                        s.pop_scan().resize(index, entry.size + s.right_total),
                        depth,
                    );
                }
            },
            TokenView::String(_) => {},
        }
    }
}

/// In every well-formed state the total of what entered the buffer is at
/// least the total of what left it, and the difference is the width of what
/// is buffered.
pub proof fn law_totals_ordered(s: State)
    requires
        s.wf(),
    ensures
        0 <= s.left_total <= s.right_total,
        s.right_total - s.left_total == s.buffered_width(),
{
    lemma_total_nonnegative(Measure::Width, s.buf);
}

/// No operation lowers the total of what left the buffer, unless it starts
/// the totals afresh.
pub proof fn law_left_total_grows(s: State, op: Op)
    requires
        !s.rebases(op),
    ensures
        s.apply(op).left_total >= s.left_total,
{
    match op {
        Op::String(text) => {
            if s.scan_stack.len() > 0 {
                lemma_check_stream_totals(
                    State {
                        right_total: s.right_total + text.len(),
                        ..s.push(TokenView::String(text), text.len() as int)
                    },
                );
            }
        },
        Op::Break(_) => {
            lemma_check_stack_totals(s, 0);
        },
        _ => {},
    }
}

/// No operation lowers the total of what entered the buffer, unless it
/// starts the totals afresh or is an end that takes a break out of the
/// buffer again.
pub proof fn law_right_total_grows(s: State, op: Op)
    requires
        !s.rebases(op),
        op is End ==> !(s.scan_stack.len() > 0 && (s.ends_in_empty_block()
            || s.ends_in_idle_break()) && s.buf.last().token.width() > 0),
    ensures
        s.apply(op).right_total >= s.right_total,
{
    match op {
        Op::String(text) => {
            if s.scan_stack.len() > 0 {
                lemma_check_stream_totals(
                    State {
                        right_total: s.right_total + text.len(),
                        ..s.push(TokenView::String(text), text.len() as int)
                    },
                );
            }
        },
        Op::Break(_) => {
            lemma_check_stack_totals(s, 0);
        },
        _ => {},
    }
}

/// An end that takes a break out of the buffer again lowers the total of
/// what entered the buffer by the blank space of that break, and by no
/// more.
pub proof fn law_right_total_at_end(s: State)
    requires
        s.scan_stack.len() > 0,
        s.buf.len() > 0,
    ensures
        s.scan_end().right_total == s.right_total - (if s.ends_in_empty_block()
            || s.ends_in_idle_break() {
            s.buf.last().token.width() as int
        } else {
            0int
        }),
{
}

/// An operation that starts the totals afresh leaves them equal but for the
/// blank space of the break that it took in: the opening of a block with
/// both at one, a break with what left the buffer at one.
pub proof fn law_rebase(s: State, op: Op)
    requires
        s.rebases(op),
    ensures
        s.rebase().left_total == s.rebase().right_total,
        s.apply(op).left_total == 1,
        op is Begin ==> s.apply(op).right_total == 1,
        op matches Op::Break(token) ==> s.apply(op).right_total == 1 + token.blank_space,
        s.wf() ==> s.rebase().buf == s.buf,
{
    if s.wf() {
        assert(s.rebase().buf =~= s.buf);
    }
}

/// The width of the buffered tokens that came in after the newest buffered
/// text.
pub open spec fn trailing_width(buf: Seq<Entry>) -> int
    decreases buf.len(),
{
    if buf.len() == 0 || buf.last().token is String {
        0
    } else {
        trailing_width(buf.drop_last()) + buf.last().token.width()
    }
}

impl State {
    /// What is buffered is no wider than the space left on the line, but
    /// for what came in after the newest buffered text.
    pub open spec fn snug(self) -> bool {
        self.right_total - self.left_total <= clip(self.space) + trailing_width(self.buf)
    }
}

/// The width of what came in after the newest buffered text is not
/// negative.
pub proof fn lemma_trailing_width_nonnegative(buf: Seq<Entry>)
    ensures
        trailing_width(buf) >= 0,
    decreases buf.len(),
{
    if buf.len() > 0 {
        lemma_trailing_width_nonnegative(buf.drop_last());
    }
}

/// The width of what came in after the newest buffered text depends on the
/// tokens alone.
pub proof fn lemma_trailing_width_same(a: Seq<Entry>, b: Seq<Entry>)
    requires
        a.len() == b.len(),
        forall|i: int| 0 <= i < a.len() ==> (#[trigger] a[i]).token == b[i].token,
    ensures
        trailing_width(a) == trailing_width(b),
    decreases a.len(),
{
    if a.len() > 0 {
        lemma_trailing_width_same(a.drop_last(), b.drop_last());
    }
}

/// A fresh printer buffers nothing.
pub proof fn law_snug_initial()
    ensures
        State::initial().snug(),
{
}

/// Every operation that the driver may do keeps what is buffered no wider
/// than the space left on the line, but for what came in after the newest
/// buffered text.
pub proof fn law_snug_step(s: State, op: Op, spent: nat)
    requires
        s.wf(),
        s.bounded(spent),
        s.snug(),
        s.admits(op),
    ensures
        s.apply(op).snug(),
{
    let r = s.apply(op);
    lemma_trailing_width_nonnegative(r.buf);
    lemma_trailing_width_nonnegative(s.buf);
    match op {
        Op::String(text) => {
            lemma_scan_string(s, text, spent);
        },
        Op::Break(token) => {
            if s.scan_stack.len() > 0 {
                lemma_check_stack(s, 0);
                lemma_trailing_width_same(s.check_stack(0).buf, s.buf);
            }
            let settled = if s.scan_stack.len() == 0 {
                s.rebase()
            } else {
                s.check_stack(0)
            };
            assert(r.buf.drop_last() =~= settled.buf);
            assert(trailing_width(r.buf) == trailing_width(settled.buf) + token.blank_space);
        },
        Op::Begin(token) => {
            let based = if s.scan_stack.len() == 0 {
                s.rebase()
            } else {
                s
            };
            assert(r.buf.drop_last() =~= based.buf);
        },
        Op::End => {
            if s.scan_stack.len() == 0 {
            } else if s.ends_in_empty_block() {
                assert(s.buf.drop_last().drop_last() =~= r.buf);
                assert(trailing_width(s.buf) == trailing_width(s.buf.drop_last())
                    + s.buf.last().token.width());
                assert(trailing_width(s.buf.drop_last()) == trailing_width(r.buf));
            } else {
                let trimmed = if s.ends_in_idle_break() {
                    s.drop_break()
                } else {
                    s
                };
                assert(r.buf.drop_last() =~= trimmed.buf);
                assert(trailing_width(r.buf) == trailing_width(trimmed.buf));
                if s.ends_in_idle_break() {
                    assert(trailing_width(s.buf) == trailing_width(trimmed.buf)
                        + s.buf.last().token.width());
                }
            }
        },
        Op::Offset(delta) => {
            if s.buf.len() > 0 && s.buf.last().token is Break {
                assert(r.buf.drop_last() =~= s.buf.drop_last());
            }
        },
    }
}

/// What is buffered is no wider than the space left on the line and the
/// margin together, wherever the line is not overlong already and no more
/// than a margin's width of breaks came in after the newest buffered text.
pub proof fn law_bounded_buffering(s: State)
    requires
        s.wf(),
        s.snug(),
        clip(s.space) + trailing_width(s.buf) <= s.space + MARGIN,
    ensures
        s.buffered_width() <= s.space + MARGIN,
{
}

} // verus!
