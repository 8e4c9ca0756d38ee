//! Settling sizes from the top of the scan stack keeps the state in order.

use crate::model::{total, total_reach, total_width, State};
use crate::sums::{
    lemma_total_same, lemma_total_take_all, lemma_total_take_grows, lemma_total_take_same,
};
use crate::token::{Measure, TokenView};
use crate::wellformed::saved_indent;
use vstd::prelude::*;

verus! {

impl State {
    /// The state after the newest waiting entry got the size `size`.
    pub open spec fn settle_top(self, size: int) -> State {
        self.pop_scan().resize(self.scan_stack.last() as int, size)
    }

    /// Whether `other` differs from this state at most in the scan stack
    /// and in the sizes of buffered entries.
    pub open spec fn same_but_sizes(self, other: State) -> bool {
        &&& other.out == self.out
        &&& other.space == self.space
        &&& other.first == self.first
        &&& other.left_total == self.left_total
        &&& other.right_total == self.right_total
        &&& other.print_stack == self.print_stack
        &&& other.indent == self.indent
        &&& other.pending_indentation == self.pending_indentation
        &&& other.buf.len() == self.buf.len()
        &&& forall|i: int| 0 <= i < self.buf.len() ==> (#[trigger] other.buf[i]).token == self.buf[i].token
    }
}

/// Two states that differ at most in sizes and in the scan stack have the
/// same sums over their buffers.
pub proof fn lemma_same_but_sizes(s: State, t: State, spent: nat)
    requires
        s.same_but_sizes(t),
    ensures
        total_width(t.buf) == total_width(s.buf),
        total_reach(t.buf) == total_reach(s.buf),
        t.depth() == s.depth(),
        s.balanced() ==> t.balanced(),
        s.bounded(spent) ==> t.bounded(spent),
        forall|k: int| 0 <= k <= s.buf.len() ==> #[trigger] t.start_total(k) == s.start_total(k),
{
    lemma_total_same(Measure::Width, t.buf, s.buf);
    lemma_total_same(Measure::Reach, t.buf, s.buf);
    lemma_total_same(Measure::Nesting, t.buf, s.buf);
    if s.balanced() {
        assert forall|k: int| 0 <= k <= t.buf.len() implies t.print_stack.len() + #[trigger] total(
            Measure::Nesting,
            t.buf.take(k),
        ) >= 0 by {
            lemma_total_take_same(Measure::Nesting, t.buf, s.buf, k);
            assert(s.print_stack.len() + total(Measure::Nesting, s.buf.take(k)) >= 0);
        }
    }
    if s.bounded(spent) {
        assert forall|j: int| 0 <= j < t.print_stack.len() implies saved_indent(
            #[trigger] t.print_stack[j],
        ) + total_reach(t.buf) <= spent by {
            assert(saved_indent(s.print_stack[j]) + total_reach(s.buf) <= spent);
        }
    }
    assert forall|k: int| 0 <= k <= s.buf.len() implies #[trigger] t.start_total(k)
        == s.start_total(k) by {
        lemma_total_take_same(Measure::Width, t.buf, s.buf, k);
    }
}

/// A waiting newest entry is the newest on the scan stack.
pub proof fn lemma_waiting_last(s: State)
    requires
        s.basic(),
        s.buf.len() > 0,
        s.buf.last().size < 0,
    ensures
        s.scan_stack.len() > 0,
        s.scan_stack.last() == s.next_index() - 1,
{
    let i = s.buf.len() - 1;
    assert(s.buf[i].size < 0);
    assert(s.scan_stack.contains((s.first + i) as nat));
    let a = choose|a: int| 0 <= a < s.scan_stack.len() && s.scan_stack[a] == (s.first + i) as nat;
    if a < s.scan_stack.len() - 1 {
        assert(s.live(s.scan_stack[s.scan_stack.len() - 1] as int));
    }
}

/// Giving the newest waiting entry a size that is not negative keeps what
/// holds while sizes are settled.
pub proof fn lemma_settle_top(s: State, size: int)
    requires
        s.settling(),
        s.scan_stack.len() > 0,
        size >= 0,
    ensures
        s.settle_top(size).settling(),
        s.same_but_sizes(s.settle_top(size)),
        s.settle_top(size).scan_stack == s.scan_stack.drop_last(),
{
    let t = s.settle_top(size);
    let top = s.scan_stack.last() as int;
    assert(s.live(top));
    assert(s.same_but_sizes(t));
    lemma_same_but_sizes(s, t, 0);
    assert forall|a: int| 0 <= a < t.scan_stack.len() implies {
        let index = #[trigger] t.scan_stack[a] as int;
        &&& t.live(index)
        &&& t.entry(index).size < 0
        &&& !(t.entry(index).token is String)
    } by {
        let index = s.scan_stack[a] as int;
        assert(s.live(index));
        assert(s.scan_stack[a] < s.scan_stack[s.scan_stack.len() - 1]);
    }
    assert forall|i: int| 0 <= i < t.buf.len() && (#[trigger] t.buf[i]).size
        < 0 implies t.scan_stack.contains((t.first + i) as nat) && s.first + i < top by {
        assert(s.buf[i].size < 0);
        let a = choose|a: int|
            0 <= a < s.scan_stack.len() && s.scan_stack[a] == (s.first + i) as nat;
        assert(t.scan_stack[a] == (t.first + i) as nat);
        assert(s.scan_stack[a] < s.scan_stack[s.scan_stack.len() - 1]);
    }
    assert forall|i: int| 0 <= i < t.buf.len() implies #[trigger] t.sized(i) by {
        assert(s.sized(i));
        assert(t.start_total(i) == s.start_total(i));
    }
    assert forall|i: int| 1 <= i < t.buf.len() implies #[trigger] t.seam(i) by {
        assert(s.seam(i));
        if t.buf[i].size < 0 {
            assert(s.first + i < top);
        }
    }
    if t.scan_stack.len() > 0 {
        assert(s.live(s.scan_stack[0] as int));
        assert(t.scan_stack[0] == s.scan_stack[0]);
    }
}

/// The size that a waiting break or opening of a block gets when it is
/// settled is not negative.
pub proof fn lemma_settled_size(s: State, i: int)
    requires
        s.basic(),
        0 <= i < s.buf.len(),
        s.buf[i].size < 0,
        !(s.buf[i].token is End),
    ensures
        s.buf[i].size + s.right_total == total_width(s.buf) - total_width(s.buf.take(i)),
        s.buf[i].size + s.right_total >= 0,
{
    assert(s.sized(i));
    assert(s.scan_stack.contains((s.first + i) as nat));
    let a = choose|a: int| 0 <= a < s.scan_stack.len() && s.scan_stack[a] == (s.first + i) as nat;
    assert(!(s.entry(s.scan_stack[a] as int).token is String));
    lemma_total_take_grows(Measure::Width, s.buf, i, s.buf.len() as int);
    lemma_total_take_all(Measure::Width, s.buf);
}

/// Settling sizes from the top of the scan stack keeps what holds while
/// sizes are settled, and changes nothing but sizes and the scan stack.
pub proof fn lemma_check_stack(s: State, depth: nat)
    requires
        s.settling(),
    ensures
        s.check_stack(depth).settling(),
        s.same_but_sizes(s.check_stack(depth)),
        s.check_stack(depth).scan_stack.len() <= s.scan_stack.len(),
    decreases s.scan_stack.len(),
{
    if s.scan_stack.len() > 0 {
        let index = s.scan_stack.last() as int;
        assert(s.live(index));
        let entry = s.entry(index);
        match entry.token {
            TokenView::Begin(_) => {
                if depth != 0 {
                    lemma_settled_size(s, index - s.first);
                    lemma_settle_top(s, entry.size + s.right_total);
                    lemma_check_stack(
                        s.settle_top(entry.size + s.right_total),
                        (depth - 1) as nat,
                    );
                }
            },
            TokenView::End => {
                lemma_settle_top(s, 1);
                lemma_check_stack(s.settle_top(1), depth + 1);
            },
            TokenView::Break(_) => {
                lemma_settled_size(s, index - s.first);
                lemma_settle_top(s, entry.size + s.right_total);
                if depth != 0 {
                    lemma_check_stack(s.settle_top(entry.size + s.right_total), depth);
                }
            },
            TokenView::String(_) => {},
        }
    }
}

} // verus!
