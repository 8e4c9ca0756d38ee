//! Each operation of the printer keeps the state well-formed.

use crate::draining::lemma_check_stream;
use crate::model::{total, total_reach, Entry, State};
use crate::settling::{lemma_check_stack, lemma_same_but_sizes, lemma_waiting_last};
use crate::sums::{
    lemma_total_bounds, lemma_total_drop_last, lemma_total_nonnegative, lemma_total_push,
    lemma_total_same, lemma_total_take_all, lemma_total_take_same,
};
use crate::token::magnitude;
use crate::token::{BeginView, BreakView, Measure, TokenView};
use crate::wellformed::saved_indent;
use vstd::prelude::*;

verus! {

impl State {
    /// The state after `token` was appended to the buffer with size `size`,
    /// as an entry that waits for its size if `size` is negative.
    pub open spec fn append(self, token: TokenView, size: int) -> State {
        State {
            right_total: self.right_total + token.width(),
            ..if size < 0 {
                self.push_pending(token, size)
            } else {
                self.push(token, size)
            }
        }
    }

    /// Whether `size` is the size that `token` gets when it is appended.
    pub open spec fn fresh_size(self, token: TokenView, size: int) -> bool {
        match token {
            TokenView::String(text) => size == text.len(),
            TokenView::End => size == -1,
            _ => size == -self.right_total,
        }
    }

    /// Whether the seam between the newest entry and `token` after it is
    /// in order.
    pub open spec fn seam_before(self, token: TokenView) -> bool {
        self.buf.len() > 0 && !(token is String) && (token is Begin || self.buf.last().token is Begin)
            ==> self.buf.last().token is String || self.buf.last().size < 0
    }
}

/// The prefixes of a buffer with one more entry are those of the buffer,
/// and the buffer itself.
pub proof fn lemma_push_take(buf: Seq<Entry>, entry: Entry, k: int)
    requires
        0 <= k <= buf.len(),
    ensures
        buf.push(entry).take(k) == buf.take(k),
        buf.push(entry).take(buf.len() as int) == buf,
        buf.push(entry).take(buf.len() as int + 1) == buf.push(entry),
{
    assert(buf.push(entry).take(k) =~= buf.take(k));
    assert(buf.push(entry).take(buf.len() as int) =~= buf);
    assert(buf.push(entry).take(buf.len() as int + 1) =~= buf.push(entry));
}

/// Appending a token keeps the state in order.
pub proof fn lemma_append(s: State, token: TokenView, size: int, spent: nat)
    requires
        s.settling(),
        s.bounded(spent),
        s.fresh_size(token, size),
        s.seam_before(token),
        s.left_total >= 1,
        token is End ==> s.depth() > 0,
        s.scan_stack.len() == 0 && token is Begin ==> s.buf.len() == 0,
        token is String ==> s.scan_stack.len() > 0,
    ensures
        s.append(token, size).steady(),
        s.append(token, size).settled(),
        s.append(token, size).bounded(spent + token.width() + token.reach() + 1),
        s.append(token, size).depth() == s.depth() + token.nesting(),
{
    let r = s.append(token, size);
    let entry = Entry { token, size };
    let n = s.buf.len() as int;
    assert(r.buf == s.buf.push(entry));
    lemma_total_push(Measure::Width, s.buf, entry);
    lemma_total_push(Measure::Reach, s.buf, entry);
    lemma_total_push(Measure::Nesting, s.buf, entry);
    lemma_total_nonnegative(Measure::Width, s.buf);
    lemma_total_take_all(Measure::Nesting, s.buf);
    assert(s.print_stack.len() + total(Measure::Nesting, s.buf.take(n)) >= 0);
    assert forall|a: int, b: int| 0 <= a < b < r.scan_stack.len() implies r.scan_stack[a]
        < r.scan_stack[b] by {
        if b == s.scan_stack.len() {
            assert(s.live(s.scan_stack[a] as int));
        }
    }
    assert forall|a: int| 0 <= a < r.scan_stack.len() implies {
        let index = #[trigger] r.scan_stack[a] as int;
        &&& r.live(index)
        &&& r.entry(index).size < 0
        &&& !(r.entry(index).token is String)
    } by {
        if a < s.scan_stack.len() {
            assert(s.live(s.scan_stack[a] as int));
        }
    }
    assert forall|i: int| 0 <= i < r.buf.len() && (#[trigger] r.buf[i]).size
        < 0 implies r.scan_stack.contains((r.first + i) as nat) by {
        if i < n {
            assert(s.buf[i].size < 0);
            let a = choose|a: int|
                0 <= a < s.scan_stack.len() && s.scan_stack[a] == (s.first + i) as nat;
            assert(r.scan_stack[a] == (r.first + i) as nat);
        } else {
            assert(r.scan_stack[r.scan_stack.len() - 1] == (r.first + i) as nat);
        }
    }
    assert forall|i: int| 0 <= i < r.buf.len() implies #[trigger] r.sized(i) by {
        lemma_push_take(s.buf, entry, i);
        if i < n {
            assert(s.sized(i));
        }
    }
    assert forall|k: int| 0 <= k <= r.buf.len() implies r.print_stack.len() + #[trigger] total(
        Measure::Nesting,
        r.buf.take(k),
    ) >= 0 by {
        if k <= n {
            lemma_push_take(s.buf, entry, k);
            assert(s.print_stack.len() + total(Measure::Nesting, s.buf.take(k)) >= 0);
        } else {
            lemma_push_take(s.buf, entry, n);
        }
    }
    assert forall|i: int| 1 <= i < r.buf.len() implies #[trigger] r.seam(i) by {
        if i < n {
            assert(s.seam(i));
        }
    }
    if s.scan_stack.len() > 0 {
        assert(s.live(s.scan_stack[0] as int));
        assert(r.scan_stack[0] == s.scan_stack[0]);
    }
    assert forall|j: int| 0 <= j < r.print_stack.len() implies saved_indent(
        #[trigger] r.print_stack[j],
    ) + total_reach(r.buf) <= spent + token.width() + token.reach() + 1 by {
        assert(saved_indent(s.print_stack[j]) + total_reach(s.buf) <= spent);
    }
}

/// With nothing waiting, starting the totals afresh changes nothing that
/// matters.
pub proof fn lemma_rebase(s: State, spent: nat)
    requires
        s.wf(),
        s.bounded(spent),
        s.scan_stack.len() == 0,
    ensures
        s.rebase().settling(),
        s.rebase().bounded(spent),
        s.rebase().depth() == s.depth(),
        s.rebase().buf.len() == 0,
        s.rebase().left_total == 1,
        s.rebase().right_total == 1,
        s.rebase().scan_stack.len() == 0,
{
    let r = s.rebase();
    assert(r.buf =~= s.buf);
    assert forall|k: int| 0 <= k <= r.buf.len() implies r.print_stack.len() + #[trigger] total(
        Measure::Nesting,
        r.buf.take(k),
    ) >= 0 by {
        assert(r.buf.take(k) =~= r.buf);
    }
}

/// What fits within `spent` fits within more.
pub proof fn lemma_bounded_grows(s: State, spent: nat, more: nat)
    requires
        s.bounded(spent),
        spent <= more,
    ensures
        s.bounded(more),
{
    assert forall|j: int| 0 <= j < s.print_stack.len() implies saved_indent(
        #[trigger] s.print_stack[j],
    ) + total_reach(s.buf) <= more by {
        assert(saved_indent(s.print_stack[j]) + total_reach(s.buf) <= spent);
    }
}

impl State {
    /// The state after the newest entry, which waits for its size, left the
    /// buffer again.
    pub open spec fn retract(self) -> State {
        State {
            buf: self.buf.drop_last(),
            scan_stack: self.scan_stack.drop_last(),
            right_total: self.right_total - self.buf.last().token.width(),
            ..self
        }
    }
}

/// Taking the newest entry out of the buffer again, while it waits for its
/// size, keeps the state in order.
pub proof fn lemma_retract(s: State, spent: nat)
    requires
        s.settling(),
        s.bounded(spent),
        s.buf.len() > 0,
        s.buf.last().size < 0,
    ensures
        s.retract().settling(),
        s.retract().bounded(spent),
        s.retract().depth() == s.depth() - s.buf.last().token.nesting(),
        s.scan_stack.len() > 0,
        s.scan_stack.last() == s.next_index() - 1,
{
    let r = s.retract();
    let n = s.buf.len() as int;
    lemma_waiting_last(s);
    lemma_total_drop_last(Measure::Width, s.buf);
    lemma_total_drop_last(Measure::Reach, s.buf);
    lemma_total_drop_last(Measure::Nesting, s.buf);
    lemma_total_bounds(Measure::Width, s.buf, n - 1);
    lemma_total_bounds(Measure::Reach, s.buf, n - 1);
    assert forall|a: int| 0 <= a < r.scan_stack.len() implies {
        let index = #[trigger] r.scan_stack[a] as int;
        &&& r.live(index)
        &&& r.entry(index).size < 0
        &&& !(r.entry(index).token is String)
    } by {
        assert(s.live(s.scan_stack[a] as int));
        assert(s.scan_stack[a] < s.scan_stack[s.scan_stack.len() - 1]);
    }
    assert forall|i: int| 0 <= i < r.buf.len() && (#[trigger] r.buf[i]).size
        < 0 implies r.scan_stack.contains((r.first + i) as nat) by {
        assert(s.buf[i].size < 0);
        let a = choose|a: int|
            0 <= a < s.scan_stack.len() && s.scan_stack[a] == (s.first + i) as nat;
        assert(r.scan_stack[a] == (r.first + i) as nat);
    }
    assert forall|i: int| 0 <= i < r.buf.len() implies #[trigger] r.sized(i) by {
        assert(s.sized(i));
        assert(r.buf.take(i) =~= s.buf.take(i));
    }
    assert forall|k: int| 0 <= k <= r.buf.len() implies r.print_stack.len() + #[trigger] total(
        Measure::Nesting,
        r.buf.take(k),
    ) >= 0 by {
        assert(r.buf.take(k) =~= s.buf.take(k));
        assert(s.print_stack.len() + total(Measure::Nesting, s.buf.take(k)) >= 0);
    }
    assert forall|i: int| 1 <= i < r.buf.len() implies #[trigger] r.seam(i) by {
        assert(s.seam(i));
    }
    if r.scan_stack.len() > 0 {
        assert(s.live(s.scan_stack[0] as int));
        assert(s.scan_stack[0] < s.scan_stack[s.scan_stack.len() - 1]);
    }
    assert forall|j: int| 0 <= j < r.print_stack.len() implies saved_indent(
        #[trigger] r.print_stack[j],
    ) + total_reach(r.buf) <= spent by {
        assert(saved_indent(s.print_stack[j]) + total_reach(s.buf) <= spent);
    }
}

/// A text keeps the state well-formed. Afterwards the buffer is empty, or
/// what it holds is no wider than the space left on the line.
pub proof fn lemma_scan_string(s: State, text: Seq<char>, spent: nat)
    requires
        s.wf(),
        s.bounded(spent),
    ensures
        s.scan_string(text).wf(),
        s.scan_string(text).bounded(spent + TokenView::String(text).cost()),
        s.scan_string(text).depth() == s.depth(),
        s.scan_string(text).buf.len() == 0 || !s.scan_string(text).overfull(),
{
    let token = TokenView::String(text);
    let more = spent + token.cost();
    if s.scan_stack.len() == 0 {
        let r = s.print_string(text);
        assert forall|j: int| 0 <= j < r.print_stack.len() implies saved_indent(
            #[trigger] r.print_stack[j],
        ) + total_reach(r.buf) <= more by {
            assert(saved_indent(s.print_stack[j]) + total_reach(s.buf) <= spent);
        }
    } else {
        assert(s.live(s.scan_stack[0] as int));
        let pushed = s.append(token, text.len() as int);
        lemma_append(s, token, text.len() as int, spent);
        assert(pushed == State {
            right_total: s.right_total + text.len(),
            ..s.push(token, text.len() as int)
        });
        lemma_check_stream(pushed, more);
    }
}

/// The opening of a block keeps the state well-formed.
pub proof fn lemma_scan_begin(s: State, token: BeginView, spent: nat)
    requires
        s.wf(),
        s.bounded(spent),
    ensures
        s.scan_begin(token).wf(),
        s.scan_begin(token).bounded(spent + TokenView::Begin(token).cost()),
        s.scan_begin(token).depth() == s.depth() + 1,
        s.scan_begin(token).ends_in_break_or_begin(),
{
    let based = if s.scan_stack.len() == 0 {
        s.rebase()
    } else {
        s
    };
    if s.scan_stack.len() == 0 {
        lemma_rebase(s, spent);
    } else {
        assert(s.live(s.scan_stack[0] as int));
    }
    lemma_append(based, TokenView::Begin(token), -based.right_total, spent);
    assert(based.append(TokenView::Begin(token), -based.right_total) =~= s.scan_begin(token));
}

/// Where the newest entry opens a block, nothing is settled.
pub proof fn lemma_check_stack_stops(s: State)
    requires
        s.steady(),
        s.buf.len() > 0,
        s.buf.last().token is Begin,
    ensures
        s.check_stack(0) == s,
{
    lemma_waiting_last(s);
}

/// A break keeps the state well-formed.
pub proof fn lemma_scan_break(s: State, token: BreakView, spent: nat)
    requires
        s.wf(),
        s.bounded(spent),
    ensures
        s.scan_break(token).wf(),
        s.scan_break(token).bounded(spent + TokenView::Break(token).cost()),
        s.scan_break(token).depth() == s.depth(),
        s.scan_break(token).ends_in_break_or_begin(),
{
    let settled = if s.scan_stack.len() == 0 {
        s.rebase()
    } else {
        s.check_stack(0)
    };
    if s.scan_stack.len() == 0 {
        lemma_rebase(s, spent);
    } else {
        assert(s.live(s.scan_stack[0] as int));
        lemma_check_stack(s, 0);
        lemma_same_but_sizes(s, settled, spent);
        if s.buf.last().token is Begin {
            lemma_check_stack_stops(s);
        }
    }
    lemma_append(settled, TokenView::Break(token), -settled.right_total, spent);
    assert(settled.append(TokenView::Break(token), -settled.right_total) =~= s.scan_break(token));
}

/// The end of a block keeps the state well-formed, where a block is open.
pub proof fn lemma_scan_end(s: State, spent: nat)
    requires
        s.wf(),
        s.bounded(spent),
        s.depth() > 0,
    ensures
        s.scan_end().wf(),
        s.scan_end().bounded(spent + TokenView::End.cost()),
        s.scan_end().depth() == s.depth() - 1,
{
    let r = s.scan_end();
    let n = s.buf.len() as int;
    if s.scan_stack.len() == 0 {
        assert(s.buf.take(0) =~= s.buf);
        assert forall|k: int| 0 <= k <= r.buf.len() implies r.print_stack.len() + #[trigger] total(
            Measure::Nesting,
            r.buf.take(k),
        ) >= 0 by {
            assert(r.buf.take(k) =~= r.buf);
        }
        assert(saved_indent(s.print_stack[s.print_stack.len() - 1]) + total_reach(s.buf) <= spent);
        assert forall|j: int| 0 <= j < r.print_stack.len() implies saved_indent(
            #[trigger] r.print_stack[j],
        ) + total_reach(r.buf) <= spent + 1 by {
            assert(saved_indent(s.print_stack[j]) + total_reach(s.buf) <= spent);
        }
    } else if s.ends_in_empty_block() {
        assert(s.seam(n - 1));
        if n >= 3 {
            assert(s.seam(n - 2));
        }
        lemma_retract(s, spent);
        let d = s.retract();
        assert(d =~= s.drop_break());
        lemma_retract(d, spent);
        assert(d.retract() =~= r);
        lemma_bounded_grows(r, spent, spent + 1);
        if r.scan_stack.len() == 0 {
            assert(s.live(s.scan_stack[0] as int));
        }
    } else {
        assert(s.live(s.scan_stack[0] as int));
        let trimmed = if s.ends_in_idle_break() {
            s.drop_break()
        } else {
            s
        };
        if s.ends_in_idle_break() {
            lemma_retract(s, spent);
            assert(s.retract() =~= trimmed);
        }
        lemma_append(trimmed, TokenView::End, -1, spent);
        assert(trimmed.append(TokenView::End, -1) =~= r);
    }
}

/// Moving the offset of the newest break keeps the state well-formed.
pub proof fn lemma_offset(s: State, delta: int, spent: nat)
    requires
        s.wf(),
        s.bounded(spent),
    ensures
        s.offset(delta).wf(),
        s.offset(delta).bounded(spent + magnitude(delta)),
        s.offset(delta).depth() == s.depth(),
        s.offset(delta).ends_in_break_or_begin() == s.ends_in_break_or_begin(),
{
    let r = s.offset(delta);
    let more = spent + magnitude(delta);
    lemma_bounded_grows(s, spent, more);
    if s.buf.len() > 0 && s.buf.last().token is Break {
        let n = s.buf.len() as int;
        assert forall|i: int| 0 <= i < n implies (#[trigger] r.buf[i]).token.measure(
            Measure::Width,
        ) == s.buf[i].token.measure(Measure::Width) && r.buf[i].token.measure(Measure::Nesting)
            == s.buf[i].token.measure(Measure::Nesting) by {}
        lemma_total_same(Measure::Width, r.buf, s.buf);
        lemma_total_same(Measure::Nesting, r.buf, s.buf);
        assert(r.buf.drop_last() =~= s.buf.drop_last());
        lemma_total_drop_last(Measure::Reach, r.buf);
        lemma_total_drop_last(Measure::Reach, s.buf);
        assert forall|a: int| 0 <= a < r.scan_stack.len() implies {
            let index = #[trigger] r.scan_stack[a] as int;
            &&& r.live(index)
            &&& r.entry(index).size < 0
            &&& !(r.entry(index).token is String)
        } by {
            assert(s.live(s.scan_stack[a] as int));
        }
        assert forall|i: int| 0 <= i < r.buf.len() && (#[trigger] r.buf[i]).size
            < 0 implies r.scan_stack.contains((r.first + i) as nat) by {
            assert(s.buf[i].size < 0);
        }
        assert forall|i: int| 0 <= i < r.buf.len() implies #[trigger] r.sized(i) by {
            assert(s.sized(i));
            lemma_total_take_same(Measure::Width, r.buf, s.buf, i);
        }
        assert forall|k: int| 0 <= k <= r.buf.len() implies r.print_stack.len() + #[trigger] total(
            Measure::Nesting,
            r.buf.take(k),
        ) >= 0 by {
            lemma_total_take_same(Measure::Nesting, r.buf, s.buf, k);
            assert(s.print_stack.len() + total(Measure::Nesting, s.buf.take(k)) >= 0);
        }
        assert forall|i: int| 1 <= i < r.buf.len() implies #[trigger] r.seam(i) by {
            assert(s.seam(i));
        }
        if s.scan_stack.len() > 0 {
            assert(s.live(s.scan_stack[0] as int));
        }
        assert forall|j: int| 0 <= j < r.print_stack.len() implies saved_indent(
            #[trigger] r.print_stack[j],
        ) + total_reach(r.buf) <= more by {
            assert(saved_indent(s.print_stack[j]) + total_reach(s.buf) <= spent);
        }
    }
}

} // verus!
