//! Writing out buffered entries keeps the state well-formed.

use crate::model::{total, total_reach, total_width, Entry, State};
use crate::sums::{
    lemma_total_bounds, lemma_total_same, lemma_total_take_same, lemma_total_drop_first, lemma_total_nonnegative, lemma_total_take_all,
    lemma_total_take_next, lemma_total_take_shift,
};
use crate::token::{Measure, TokenView};
use crate::wellformed::saved_indent;
use vstd::prelude::*;

verus! {

impl State {
    /// The state after the oldest entry left the buffer and was written.
    pub open spec fn step(self) -> State {
        self.pop_first().print(self.buf[0])
    }

    /// Whether the oldest entry can be written: there is one, and its size
    /// is known.
    pub open spec fn ready(self) -> bool {
        self.buf.len() > 0 && self.buf[0].size >= 0
    }
}

/// What one step changes in the buffer, the scan stack and the totals.
pub proof fn lemma_step_frame(s: State)
    requires
        s.ready(),
    ensures
        s.step().buf == s.buf.drop_first(),
        s.step().first == s.first + 1,
        s.step().scan_stack == s.scan_stack,
        s.step().right_total == s.right_total,
        s.step().left_total == s.left_total + s.buf[0].token.width(),
        s.step().print_stack.len() == s.print_stack.len() + (if s.print_stack.len() == 0
            && s.buf[0].token is End {
            0
        } else {
            s.buf[0].token.nesting()
        }),
{
}

/// One step keeps what holds at every step.
pub proof fn lemma_step_basic(s: State)
    requires
        s.basic(),
        s.ready(),
    ensures
        s.step().basic(),
        s.step().depth() == s.depth(),
        s.buf[0].token is End ==> s.print_stack.len() > 0,
{
    let t = s.step();
    let e = s.buf[0];
    lemma_step_frame(s);
    lemma_total_drop_first(Measure::Width, s.buf);
    lemma_total_drop_first(Measure::Nesting, s.buf);
    assert(s.buf.take(0) =~= Seq::<Entry>::empty());
    lemma_total_take_next(Measure::Nesting, s.buf, 0);
    assert(total(Measure::Nesting, s.buf.take(1)) == e.token.nesting());
    assert(s.print_stack.len() + e.token.nesting() >= 0);
    assert forall|a: int| 0 <= a < t.scan_stack.len() implies {
        let index = #[trigger] t.scan_stack[a] as int;
        &&& t.live(index)
        &&& t.entry(index).size < 0
        &&& !(t.entry(index).token is String)
    } by {
        let index = s.scan_stack[a] as int;
        assert(s.live(index));
        assert(s.entry(index).size < 0);
    }
    assert forall|i: int| 0 <= i < t.buf.len() && (#[trigger] t.buf[i]).size < 0 implies t.scan_stack.contains(
        (t.first + i) as nat,
    ) by {
        assert(s.buf[i + 1].size < 0);
    }
    assert forall|i: int| 0 <= i < t.buf.len() implies #[trigger] t.sized(i) by {
        assert(s.sized(i + 1));
        lemma_total_take_shift(Measure::Width, s.buf, i);
    }
    assert forall|k: int| 0 <= k <= t.buf.len() implies t.print_stack.len() + #[trigger] total(
        Measure::Nesting,
        t.buf.take(k),
    ) >= 0 by {
        if k < t.buf.len() {
            lemma_total_take_shift(Measure::Nesting, s.buf, k);
            assert(s.print_stack.len() + total(Measure::Nesting, s.buf.take(k + 1)) >= 0);
        } else {
            lemma_total_take_all(Measure::Nesting, t.buf);
            lemma_total_take_all(Measure::Nesting, s.buf);
            assert(s.print_stack.len() + total(
                Measure::Nesting,
                s.buf.take(s.buf.len() as int),
            ) >= 0);
        }
    }
    if t.buf.len() > 0 {
        lemma_total_bounds(Measure::Width, s.buf, 0);
    }
}

/// One step of draining leaves a steady state.
pub proof fn lemma_step_steady(s: State)
    requires
        s.draining(),
        s.ready(),
    ensures
        s.step().steady(),
{
    let t = s.step();
    lemma_step_basic(s);
    lemma_step_frame(s);
    assert forall|i: int| 1 <= i < t.buf.len() implies #[trigger] t.seam(i) by {
        assert(s.seam(i + 1));
    }
}

/// One step keeps every number within what `spent` allows.
pub proof fn lemma_step_bounded(s: State, spent: nat)
    requires
        s.basic(),
        s.ready(),
        s.bounded(spent),
    ensures
        s.step().bounded(spent),
{
    let t = s.step();
    let e = s.buf[0];
    lemma_step_frame(s);
    lemma_total_drop_first(Measure::Width, s.buf);
    lemma_total_drop_first(Measure::Reach, s.buf);
    lemma_total_nonnegative(Measure::Width, t.buf);
    lemma_total_nonnegative(Measure::Reach, t.buf);
    assert(total_width(t.buf) == total_width(s.buf) - e.token.width());
    assert(total_reach(t.buf) == total_reach(s.buf) - e.token.reach());
    assert forall|j: int| 0 <= j < t.print_stack.len() implies saved_indent(
        #[trigger] t.print_stack[j],
    ) + total_reach(t.buf) <= spent by {
        if j < s.print_stack.len() {
            assert(saved_indent(s.print_stack[j]) + total_reach(s.buf) <= spent);
        }
    }
    match e.token {
        TokenView::Break(token) => {
            assert(total_width(t.buf) <= s.right_total - s.left_total - token.blank_space);
        },
        _ => {},
    }
}

impl State {
    /// Nothing more can be written: the buffer is empty, or its oldest
    /// entry waits for its size.
    pub open spec fn drained(self) -> bool {
        self.buf.len() == 0 || self.buf[0].size < 0
    }
}

/// In a state with a waiting oldest entry, that entry is the oldest on the
/// scan stack.
pub proof fn lemma_waiting_first(s: State)
    requires
        s.basic(),
        s.buf.len() > 0,
        s.buf[0].size < 0,
    ensures
        s.scan_stack.len() > 0,
        s.scan_stack[0] == s.first,
{
    assert(s.scan_stack.contains((s.first + 0) as nat));
    let a = choose|a: int| 0 <= a < s.scan_stack.len() && s.scan_stack[a] == s.first;
    if a > 0 {
        assert(s.live(s.scan_stack[0] as int));
    }
}

/// A steady state from which nothing more can be written is well-formed.
pub proof fn lemma_drained_wf(s: State)
    requires
        s.steady(),
        s.drained(),
    ensures
        s.wf(),
{
    if s.buf.len() > 0 {
        lemma_waiting_first(s);
    }
}

/// Writing out all that can be written keeps the state in order.
pub proof fn lemma_advance_left(s: State, spent: nat)
    requires
        s.draining(),
        s.bounded(spent),
        s.ready() || s.steady(),
    ensures
        s.advance_left().wf(),
        s.advance_left().bounded(spent),
        s.advance_left().drained(),
        s.advance_left().depth() == s.depth(),
        s.advance_left().scan_stack == s.scan_stack,
        s.advance_left().right_total == s.right_total,
        s.advance_left().buf.len() <= s.buf.len(),
        s.ready() ==> s.advance_left().buf.len() < s.buf.len(),
        s.advance_left().next_index() == s.next_index(),
    decreases s.buf.len(),
{
    if s.ready() {
        lemma_step_frame(s);
        lemma_step_basic(s);
        lemma_step_steady(s);
        lemma_step_bounded(s, spent);
        lemma_advance_left(s.step(), spent);
    } else {
        lemma_drained_wf(s);
    }
}

/// Giving the oldest entry a size by force leaves a state that can be
/// drained, and in which the oldest entry can be written.
pub proof fn lemma_force_first(s: State, spent: nat)
    requires
        s.steady(),
        s.bounded(spent),
        s.buf.len() > 0,
    ensures
        s.force_first().draining(),
        s.force_first().ready(),
        s.force_first().bounded(spent),
        s.force_first().depth() == s.depth(),
        s.force_first().right_total == s.right_total,
        s.force_first().left_total == s.left_total,
        s.force_first().space == s.space,
        s.force_first().buf.len() == s.buf.len(),
        s.force_first().next_index() == s.next_index(),
{
    let f = s.force_first();
    if s.scan_stack.len() > 0 && s.scan_stack[0] == s.first {
        assert(s.live(s.scan_stack[0] as int));
        assert(!(s.buf[0].token is String));
        assert forall|i: int| 0 <= i < s.buf.len() implies (#[trigger] f.buf[i]).token
            == s.buf[i].token by {}
        lemma_total_same(Measure::Width, f.buf, s.buf);
        lemma_total_same(Measure::Reach, f.buf, s.buf);
        lemma_total_same(Measure::Nesting, f.buf, s.buf);
        assert forall|a: int| 0 <= a < f.scan_stack.len() implies {
            let index = #[trigger] f.scan_stack[a] as int;
            &&& f.live(index)
            &&& f.entry(index).size < 0
            &&& !(f.entry(index).token is String)
        } by {
            let index = s.scan_stack[a + 1] as int;
            assert(s.live(index));
            assert(s.scan_stack[0] < s.scan_stack[a + 1]);
        }
        assert forall|i: int| 0 <= i < f.buf.len() && (#[trigger] f.buf[i]).size
            < 0 implies f.scan_stack.contains((f.first + i) as nat) by {
            assert(s.buf[i].size < 0);
            let a = choose|a: int|
                0 <= a < s.scan_stack.len() && s.scan_stack[a] == (s.first + i) as nat;
            assert(f.scan_stack[a - 1] == (f.first + i) as nat);
        }
        assert forall|i: int| 0 <= i < f.buf.len() implies #[trigger] f.sized(i) by {
            assert(s.sized(i));
            lemma_total_take_same(Measure::Width, f.buf, s.buf, i);
        }
        assert forall|k: int| 0 <= k <= f.buf.len() implies f.print_stack.len() + #[trigger] total(
            Measure::Nesting,
            f.buf.take(k),
        ) >= 0 by {
            lemma_total_take_same(Measure::Nesting, f.buf, s.buf, k);
            assert(s.print_stack.len() + total(Measure::Nesting, s.buf.take(k)) >= 0);
        }
        assert forall|i: int| 2 <= i < f.buf.len() implies #[trigger] f.seam(i) by {
            assert(s.seam(i));
        }
        assert forall|j: int| 0 <= j < f.print_stack.len() implies saved_indent(
            #[trigger] f.print_stack[j],
        ) + total_reach(f.buf) <= spent by {
            assert(saved_indent(s.print_stack[j]) + total_reach(s.buf) <= spent);
        }
    } else {
        if s.buf[0].size < 0 {
            lemma_waiting_first(s);
        }
        assert forall|i: int| 2 <= i < f.buf.len() implies #[trigger] f.seam(i) by {
            assert(s.seam(i));
        }
    }
}

/// Writing out while more is buffered than the line has space for keeps the
/// state well-formed. Afterwards the buffer is empty, or what it holds is no
/// wider than the space left on the line.
pub proof fn lemma_check_stream(s: State, spent: nat)
    requires
        s.steady(),
        s.settled(),
        s.bounded(spent),
    ensures
        s.check_stream().wf(),
        s.check_stream().bounded(spent),
        s.check_stream().depth() == s.depth(),
        s.check_stream().right_total == s.right_total,
        s.check_stream().next_index() == s.next_index(),
        s.check_stream().buf.len() == 0 || !s.check_stream().overfull(),
    decreases s.buf.len(),
{
    if s.overfull() && s.buf.len() > 0 {
        lemma_force_first(s, spent);
        let f = s.force_first();
        lemma_advance_left(f, spent);
        let drained = f.advance_left();
        if 0 < drained.buf.len() < s.buf.len() {
            lemma_check_stream(drained, spent);
        }
    }
}

/// Writing out all that can be written keeps what holds at every step.
pub proof fn lemma_advance_left_basic(s: State, spent: nat)
    requires
        s.basic(),
        s.bounded(spent),
    ensures
        s.advance_left().basic(),
        s.advance_left().bounded(spent),
        s.advance_left().drained(),
        s.advance_left().depth() == s.depth(),
        s.advance_left().scan_stack == s.scan_stack,
    decreases s.buf.len(),
{
    if s.ready() {
        lemma_step_frame(s);
        lemma_step_basic(s);
        lemma_step_bounded(s, spent);
        lemma_advance_left_basic(s.step(), spent);
    }
}

} // verus!
