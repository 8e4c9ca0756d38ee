//! A block that fits is written on one line with all that is in it.

use crate::balance::{
    lemma_height_all, lemma_height_next, lemma_height_same, lemma_settle_top_gaps,
    lemma_step_shift,
};
use crate::draining::{
    lemma_advance_left, lemma_force_first, lemma_step_basic, lemma_step_bounded, lemma_step_frame,
};
use crate::scanning::{lemma_append, lemma_push_take, lemma_rebase, lemma_retract};
use crate::sums::{lemma_total_drop_last, lemma_total_push, lemma_total_take_all, lemma_total_take_same, lemma_total_nonnegative};
use crate::token::Measure;
use crate::model::{Entry, Op, State};
use crate::settling::{
    lemma_check_stack, lemma_same_but_sizes, lemma_settle_top, lemma_settled_size,
};
use crate::token::TokenView;
use vstd::prelude::*;

verus! {

impl State {
    /// The total that had entered the buffer when the size of the entry at
    /// position `k` was settled.
    pub open spec fn measure_end(self, k: int) -> int {
        self.start_total(k) + self.buf[k].size
    }

    /// Whether the entry at position `k` is one whose size says how much
    /// room it asks for: a break or the opening of a block.
    pub open spec fn sizable(self, k: int) -> bool {
        self.buf[k].token is Begin || self.buf[k].token is Break
    }

    /// No settled size reaches beyond what has entered the buffer, nor
    /// beyond the arrival of a later entry that still waits.
    pub open spec fn ends_within(self, from: int) -> bool {
        &&& forall|k: int|
            from <= k < self.buf.len() && (#[trigger] self.buf[k]).size >= 0 && self.sizable(k)
                ==> self.measure_end(k) <= self.right_total
        &&& forall|k: int, u: int|
            #![trigger self.buf[k], self.buf[u]]
            from <= k < u < self.buf.len() && self.buf[k].size >= 0 && self.sizable(k)
                && self.buf[u].size < 0 ==> self.measure_end(k) <= self.start_total(u)
    }

    /// The block that opens at position `i` is closed before position `j`,
    /// and all that is in it has its size, which reaches no further than
    /// the size of the block.
    pub open spec fn encloses(self, i: int, j: int) -> bool {
        &&& i < j <= self.buf.len()
        &&& self.height(j) <= self.height(i)
        &&& forall|k: int|
            i < k < j ==> (#[trigger] self.buf[k]).size >= 0 && (self.sizable(k)
                ==> self.measure_end(k) <= self.measure_end(i))
    }

    /// Every block whose size is settled is closed in the buffer, and
    /// nothing in it reaches further than the block.
    pub open spec fn blocks_measured(self, from: int) -> bool {
        forall|i: int|
            from <= i < self.buf.len() && (#[trigger] self.buf[i]).size >= 0
                && self.buf[i].token is Begin ==> exists|j: int| self.encloses(i, j)
    }

    /// What holds of the sizes that were settled, from position `from` of
    /// the buffer on.
    #[verifier::opaque]
    pub open spec fn measured(self, from: int) -> bool {
        &&& self.ends_within(from)
        &&& self.blocks_measured(from)
    }
}

/// After the newest entry that waits, no entry waits.
pub proof fn lemma_after_top(s: State, k: int)
    requires
        s.basic(),
        s.scan_stack.len() > 0,
        s.waiting(s.scan_stack.len() - 1) < k < s.buf.len(),
    ensures
        s.buf[k].size >= 0,
{
    if s.buf[k].size < 0 {
        assert(s.scan_stack.contains((s.first + k) as nat));
        let a = choose|a: int| 0 <= a < s.scan_stack.len() && s.scan_stack[a] == (s.first + k) as nat;
        if a < s.scan_stack.len() - 1 {
            assert(s.scan_stack[a] < s.scan_stack[s.scan_stack.len() - 1]);
        }
    }
}

/// An entry that waits is no later than the newest entry that waits.
pub proof fn lemma_under_top(s: State, u: int)
    requires
        s.basic(),
        0 <= u < s.buf.len(),
        s.buf[u].size < 0,
    ensures
        s.scan_stack.len() > 0,
        u <= s.waiting(s.scan_stack.len() - 1),
{
    assert(s.scan_stack.contains((s.first + u) as nat));
    if u > s.waiting(s.scan_stack.len() - 1) {
        lemma_after_top(s, u);
    }
}

/// Settling the size of the newest entry that waits keeps what holds of
/// settled sizes.
pub proof fn lemma_settle_top_measured(s: State, size: int, depth: int)
    requires
        s.settling(),
        s.gaps(depth),
        s.measured(0),
        s.scan_stack.len() > 0,
        match s.entry(s.scan_stack.last() as int).token {
            TokenView::Begin(_) => depth > 0 && size == s.entry(s.scan_stack.last() as int).size
                + s.right_total,
            TokenView::Break(_) => size == s.entry(s.scan_stack.last() as int).size
                + s.right_total,
            _ => size == 1,
        },
    ensures
        s.settle_top(size).measured(0),
{
    reveal(State::measured);
    let r = s.settle_top(size);
    let n = s.scan_stack.len() as int;
    assert(s.live(s.scan_stack[n - 1] as int));
    let t = s.waiting(n - 1);
    let len = s.buf.len() as int;
    assert(s.sized(t));
    if !(s.buf[t].token is End) {
        lemma_settled_size(s, t);
    }
    lemma_settle_top(s, size);
    lemma_same_but_sizes(s, r, 0);
    assert forall|k: int| 0 <= k <= len implies r.height(k) == s.height(k) by {
        lemma_height_same(s, r, k);
    }
    assert forall|k: int| 0 <= k < len && k != t implies #[trigger] r.buf[k] == s.buf[k] by {}
    assert forall|k: int| t < k < len implies (#[trigger] s.buf[k]).size >= 0 by {
        lemma_after_top(s, k);
    }
    assert forall|k: int|
        0 <= k < len && (#[trigger] r.buf[k]).size >= 0 && r.sizable(k) implies r.measure_end(k)
        <= r.right_total by {
        if k != t {
            assert(s.buf[k].size >= 0);
        }
    }
    assert forall|k: int, u: int|
        #![trigger r.buf[k], r.buf[u]]
        0 <= k < u < len && r.buf[k].size >= 0 && r.sizable(k) && r.buf[u].size
            < 0 implies r.measure_end(k) <= r.start_total(u) by {
        assert(s.buf[u].size < 0);
        lemma_under_top(s, u);
        assert(s.buf[k].size >= 0 && s.buf[u].size < 0);
    }
    assert forall|i: int|
        0 <= i < len && (#[trigger] r.buf[i]).size >= 0 && r.buf[i].token is Begin implies exists|
        j: int,
    |
        r.encloses(i, j) by {
        if i == t {
            lemma_height_next(s, t);
            lemma_height_all(s);
            assert forall|k: int| t < k < len implies (#[trigger] r.buf[k]).size >= 0 && (
            r.sizable(k) ==> r.measure_end(k) <= r.measure_end(t)) by {
                assert(s.buf[k].size >= 0);
            }
            assert(r.encloses(t, len));
        } else {
            assert(s.buf[i].size >= 0);
            let j = choose|j: int| s.encloses(i, j);
            assert forall|k: int| i < k < j implies (#[trigger] r.buf[k]).size >= 0 && (
            r.sizable(k) ==> r.measure_end(k) <= r.measure_end(i)) by {
                assert(s.buf[k].size >= 0);
            }
            assert(r.encloses(i, j));
        }
    }
}

/// Settling sizes from the top of the scan stack keeps what holds of
/// settled sizes.
pub proof fn lemma_check_stack_measured(s: State, depth: nat)
    requires
        s.settling(),
        s.gaps(depth as int),
        s.outer_break_oldest(),
        s.measured(0),
    ensures
        s.check_stack(depth).measured(0),
    decreases s.scan_stack.len(),
{
    if s.scan_stack.len() > 0 {
        let index = s.scan_stack.last() as int;
        assert(s.live(s.scan_stack[s.scan_stack.len() - 1] as int));
        let entry = s.entry(index);
        match entry.token {
            TokenView::Begin(_) => {
                if depth != 0 {
                    lemma_settled_size(s, index - s.first);
                    let size = entry.size + s.right_total;
                    lemma_settle_top(s, size);
                    lemma_settle_top_gaps(s, size, depth as int);
                    lemma_settle_top_measured(s, size, depth as int);
                    lemma_check_stack_measured(s.settle_top(size), (depth - 1) as nat);
                }
            },
            TokenView::End => {
                lemma_settle_top(s, 1);
                lemma_settle_top_gaps(s, 1, depth as int);
                lemma_settle_top_measured(s, 1, depth as int);
                lemma_check_stack_measured(s.settle_top(1), depth + 1);
            },
            TokenView::Break(_) => {
                lemma_settled_size(s, index - s.first);
                let size = entry.size + s.right_total;
                lemma_settle_top(s, size);
                lemma_settle_top_gaps(s, size, depth as int);
                lemma_settle_top_measured(s, size, depth as int);
                if depth != 0 {
                    lemma_check_stack_measured(s.settle_top(size), depth);
                }
            },
            TokenView::String(_) => {},
        }
    }
}

/// One step of writing out keeps what holds of settled sizes.
pub proof fn lemma_step_measured(s: State)
    requires
        s.basic(),
        s.ready(),
        s.measured(1),
    ensures
        s.step().measured(0),
{
    reveal(State::measured);
    let t = s.step();
    lemma_step_frame(s);
    lemma_step_shift(s);
    assert forall|k: int|
        0 <= k < t.buf.len() && (#[trigger] t.buf[k]).size >= 0 && t.sizable(k) implies t.measure_end(
        k,
    ) <= t.right_total by {
        assert(s.buf[k + 1].size >= 0);
        assert(t.start_total(k) == s.start_total(k + 1));
    }
    assert forall|k: int, u: int|
        #![trigger t.buf[k], t.buf[u]]
        0 <= k < u < t.buf.len() && t.buf[k].size >= 0 && t.sizable(k) && t.buf[u].size
            < 0 implies t.measure_end(k) <= t.start_total(u) by {
        assert(s.buf[k + 1].size >= 0 && s.buf[u + 1].size < 0);
        assert(t.start_total(k) == s.start_total(k + 1));
        assert(t.start_total(u) == s.start_total(u + 1));
    }
    assert forall|i: int|
        0 <= i < t.buf.len() && (#[trigger] t.buf[i]).size >= 0 && t.buf[i].token is Begin implies exists|
        j: int,
    |
        t.encloses(i, j) by {
        assert(s.buf[i + 1].size >= 0);
        let next = i + 1;
        let j = choose|j: int| s.encloses(next, j);
        assert(t.height(j - 1) == s.height(j));
        assert(t.height(i) == s.height(i + 1));
        assert(t.start_total(i) == s.start_total(i + 1));
        assert forall|k: int| i < k < j - 1 implies (#[trigger] t.buf[k]).size >= 0 && (t.sizable(
            k,
        ) ==> t.measure_end(k) <= t.measure_end(i)) by {
            assert(s.buf[k + 1].size >= 0);
            assert(t.start_total(k) == s.start_total(k + 1));
        }
        assert(t.encloses(i, j - 1));
    }
}

/// Giving the oldest entry a size by force keeps what holds of the sizes
/// that were settled, but for that of the oldest entry.
pub proof fn lemma_force_first_measured(s: State, spent: nat)
    requires
        s.steady(),
        s.bounded(spent),
        s.buf.len() > 0,
        s.measured(0),
    ensures
        s.force_first().measured(1),
{
    reveal(State::measured);
    let f = s.force_first();
    lemma_force_first(s, spent);
    if s.scan_stack.len() > 0 && s.scan_stack[0] == s.first {
        assert(s.same_but_sizes(f));
        lemma_same_but_sizes(s, f, spent);
        assert forall|k: int| 0 <= k <= s.buf.len() implies f.height(k) == s.height(k) by {
            lemma_height_same(s, f, k);
        }
        assert forall|k: int| 1 <= k < s.buf.len() implies #[trigger] f.buf[k] == s.buf[k] by {}
        assert forall|k: int|
            1 <= k < f.buf.len() && (#[trigger] f.buf[k]).size >= 0 && f.sizable(k) implies f.measure_end(
            k,
        ) <= f.right_total by {
            assert(s.buf[k].size >= 0);
        }
        assert forall|k: int, u: int|
            #![trigger f.buf[k], f.buf[u]]
            1 <= k < u < f.buf.len() && f.buf[k].size >= 0 && f.sizable(k) && f.buf[u].size
                < 0 implies f.measure_end(k) <= f.start_total(u) by {
            assert(s.buf[k].size >= 0 && s.buf[u].size < 0);
        }
        assert forall|i: int|
            1 <= i < f.buf.len() && (#[trigger] f.buf[i]).size >= 0 && f.buf[i].token is Begin implies exists|
            j: int,
        |
            f.encloses(i, j) by {
            assert(s.buf[i].size >= 0);
            let j = choose|j: int| s.encloses(i, j);
            assert forall|k: int| i < k < j implies (#[trigger] f.buf[k]).size >= 0 && (
            f.sizable(k) ==> f.measure_end(k) <= f.measure_end(i)) by {
                assert(s.buf[k].size >= 0);
            }
            assert(f.encloses(i, j));
        }
    }
}

/// Appending a token keeps what holds of settled sizes.
pub proof fn lemma_append_measured(s: State, token: TokenView, size: int)
    requires
        s.settling(),
        s.measured(0),
        token is String ==> size >= 0,
        !(token is String) ==> size < 0,
    ensures
        s.append(token, size).measured(0),
{
    reveal(State::measured);
    let r = s.append(token, size);
    let entry = Entry { token, size };
    let n = s.buf.len() as int;
    lemma_total_push(Measure::Nesting, s.buf, entry);
    lemma_total_push(Measure::Width, s.buf, entry);
    assert forall|k: int| 0 <= k <= n implies r.height(k) == s.height(k) && r.start_total(k)
        == s.start_total(k) by {
        lemma_push_take(s.buf, entry, k);
    }
    lemma_total_take_all(Measure::Width, s.buf);
    assert(s.start_total(n) == s.right_total);
    assert forall|k: int| 0 <= k < n implies #[trigger] r.buf[k] == s.buf[k] by {}
    assert forall|k: int|
        0 <= k < r.buf.len() && (#[trigger] r.buf[k]).size >= 0 && r.sizable(k) implies r.measure_end(
        k,
    ) <= r.right_total by {
        assert(s.buf[k].size >= 0);
    }
    assert forall|k: int, u: int|
        #![trigger r.buf[k], r.buf[u]]
        0 <= k < u < r.buf.len() && r.buf[k].size >= 0 && r.sizable(k) && r.buf[u].size
            < 0 implies r.measure_end(k) <= r.start_total(u) by {
        assert(s.buf[k].size >= 0);
        if u < n {
            assert(s.buf[u].size < 0);
        }
    }
    assert forall|i: int|
        0 <= i < r.buf.len() && (#[trigger] r.buf[i]).size >= 0 && r.buf[i].token is Begin implies exists|
        j: int,
    |
        r.encloses(i, j) by {
        assert(s.buf[i].size >= 0);
        let j = choose|j: int| s.encloses(i, j);
        assert forall|k: int| i < k < j implies (#[trigger] r.buf[k]).size >= 0 && (r.sizable(k)
            ==> r.measure_end(k) <= r.measure_end(i)) by {
            assert(s.buf[k].size >= 0);
        }
        assert(r.encloses(i, j));
    }
}

/// Taking the newest entry out of the buffer again, while it waits for its
/// size, keeps what holds of settled sizes.
pub proof fn lemma_retract_measured(s: State, spent: nat)
    requires
        s.settling(),
        s.bounded(spent),
        s.measured(0),
        s.buf.len() > 0,
        s.buf.last().size < 0,
    ensures
        s.retract().measured(0),
{
    reveal(State::measured);
    let r = s.retract();
    let n = s.buf.len() as int;
    lemma_retract(s, spent);
    lemma_total_take_all(Measure::Width, s.buf);
    lemma_total_drop_last(Measure::Width, s.buf);
    assert(s.buf.take(n - 1) =~= s.buf.drop_last());
    assert(s.start_total(n - 1) == r.right_total);
    assert forall|k: int| 0 <= k <= n - 1 implies r.height(k) == s.height(k) && r.start_total(k)
        == s.start_total(k) by {
        assert(r.buf.take(k) =~= s.buf.take(k));
    }
    assert forall|k: int| 0 <= k < n - 1 implies #[trigger] r.buf[k] == s.buf[k] by {}
    assert forall|k: int|
        0 <= k < r.buf.len() && (#[trigger] r.buf[k]).size >= 0 && r.sizable(k) implies r.measure_end(
        k,
    ) <= r.right_total by {
        assert(s.buf[k].size >= 0 && s.buf[n - 1].size < 0);
    }
    assert forall|k: int, u: int|
        #![trigger r.buf[k], r.buf[u]]
        0 <= k < u < r.buf.len() && r.buf[k].size >= 0 && r.sizable(k) && r.buf[u].size
            < 0 implies r.measure_end(k) <= r.start_total(u) by {
        assert(s.buf[k].size >= 0 && s.buf[u].size < 0);
    }
    assert forall|i: int|
        0 <= i < r.buf.len() && (#[trigger] r.buf[i]).size >= 0 && r.buf[i].token is Begin implies exists|
        j: int,
    |
        r.encloses(i, j) by {
        assert(s.buf[i].size >= 0);
        let j = choose|j: int| s.encloses(i, j);
        if j == n {
            assert(s.buf[n - 1].size >= 0);
        }
        assert forall|k: int| i < k < j implies (#[trigger] r.buf[k]).size >= 0 && (r.sizable(k)
            ==> r.measure_end(k) <= r.measure_end(i)) by {
            assert(s.buf[k].size >= 0);
        }
        assert(r.encloses(i, j));
    }
}

/// Where nothing is buffered, nothing is to be said of settled sizes.
pub proof fn lemma_nothing_measured(s: State)
    requires
        s.buf.len() == 0,
    ensures
        s.measured(0),
{
    reveal(State::measured);
}

impl State {
    /// All blocks from the frame `f` up are blocks that fit.
    pub open spec fn fits_above(self, f: int) -> bool {
        forall|g: int| f <= g < self.print_stack.len() ==> (#[trigger] self.print_stack[g]) is Fits
    }

    /// The block of the frame `f` is closed before position `j` of the
    /// buffer, and all that is buffered before that position has its size,
    /// which reaches no further than the space left on the line.
    pub open spec fn paid_until(self, f: int, j: int) -> bool {
        &&& 1 <= j <= self.buf.len()
        &&& self.height(j) <= f
        &&& forall|k: int|
            0 <= k < j ==> (#[trigger] self.buf[k]).size >= 0 && (self.sizable(k)
                ==> self.measure_end(k) <= self.left_total + self.space)
    }

    /// While a block that fits is being written, every block in it is one
    /// that fits, and all of it is buffered with sizes that the line has
    /// space for.
    #[verifier::opaque]
    pub open spec fn credited(self) -> bool {
        forall|f: int|
            0 <= f < self.print_stack.len() && (#[trigger] self.print_stack[f]) is Fits
                ==> self.fits_above(f) && exists|j: int| self.paid_until(f, j)
    }
}

/// Where no block is being written, nothing is to be said of blocks that
/// fit.
pub proof fn lemma_nothing_credited(s: State)
    requires
        forall|f: int| 0 <= f < s.print_stack.len() ==> !((#[trigger] s.print_stack[f]) is Fits),
    ensures
        s.credited(),
{
    reveal(State::credited);
}

/// Where nothing is buffered, no block that fits is being written.
pub proof fn lemma_credited_needs_buffer(s: State)
    requires
        s.credited(),
        s.buf.len() == 0,
    ensures
        forall|f: int| 0 <= f < s.print_stack.len() ==> !((#[trigger] s.print_stack[f]) is Fits),
{
    reveal(State::credited);
    assert forall|f: int| 0 <= f < s.print_stack.len() implies !((
    #[trigger] s.print_stack[f]) is Fits) by {
        if s.print_stack[f] is Fits {
            let j = choose|j: int| s.paid_until(f, j);
        }
    }
}

/// What a change of the state keeps of the blocks that fit, if it leaves
/// alone the frames, the space on the line, and the buffered entries whose
/// sizes are settled.
pub proof fn lemma_credited_kept(s: State, r: State)
    requires
        s.credited(),
        r.print_stack == s.print_stack,
        r.left_total + r.space == s.left_total + s.space,
        forall|k: int|
            0 <= k < s.buf.len() && (#[trigger] s.buf[k]).size >= 0 ==> k < r.buf.len()
                && r.buf[k].size == s.buf[k].size && r.sizable(k) == s.sizable(k)
                && r.start_total(k) == s.start_total(k),
        forall|j: int|
            0 <= j <= s.buf.len() && j <= r.buf.len() ==> #[trigger] r.height(j) == s.height(j),
        s.buf.len() <= r.buf.len() || (s.buf.len() > 0 && s.buf.last().size < 0
            && r.buf.len() == s.buf.len() - 1),
    ensures
        r.credited(),
{
    reveal(State::credited);
    assert forall|f: int|
        0 <= f < r.print_stack.len() && (#[trigger] r.print_stack[f]) is Fits implies r.fits_above(
        f,
    ) && exists|j: int| r.paid_until(f, j) by {
        assert(s.print_stack[f] is Fits);
        assert(s.fits_above(f));
        let j = choose|j: int| s.paid_until(f, j);
        if j > r.buf.len() {
            assert(s.buf[s.buf.len() - 1].size >= 0);
        }
        assert(r.height(j) == s.height(j));
        assert forall|k: int| 0 <= k < j implies (#[trigger] r.buf[k]).size >= 0 && (r.sizable(k)
            ==> r.measure_end(k) <= r.left_total + r.space) by {
            assert(s.buf[k].size >= 0);
        }
        assert(r.paid_until(f, j));
    }
}

/// One step of writing out keeps what holds of the blocks that fit.
pub proof fn lemma_step_credited(s: State)
    requires
        s.basic(),
        s.ready(),
        s.credited(),
        s.buf[0].token is Begin && s.buf[0].size <= s.space ==> exists|j: int| s.encloses(0, j),
    ensures
        s.step().credited(),
{
    reveal(State::credited);
    let t = s.step();
    let e = s.buf[0];
    let depth = s.print_stack.len() as int;
    lemma_step_frame(s);
    lemma_step_basic(s);
    lemma_step_shift(s);
    lemma_height_next(s, 0);
    assert(s.buf.take(0) =~= Seq::<Entry>::empty());
    assert(s.height(0) == depth);
    assert(s.start_total(0) == s.left_total);
    assert forall|f: int|
        0 <= f < t.print_stack.len() && (#[trigger] t.print_stack[f]) is Fits implies t.fits_above(
        f,
    ) && exists|j: int| t.paid_until(f, j) by {
        let below = f < depth && s.print_stack[f] is Fits;
        let fitting = choose|g: int| 0 <= g < depth && (#[trigger] s.print_stack[g]) is Fits;
        let some = 0 <= fitting < depth && s.print_stack[fitting] is Fits;
        if some {
            assert(s.fits_above(fitting));
            assert(s.print_stack[depth - 1] is Fits);
            let j0 = choose|j: int| s.paid_until(fitting, j);
            assert(s.buf[0].size >= 0);
        }
        if f < depth {
            assert(t.print_stack[f] == s.print_stack[f]);
            assert(s.fits_above(f));
            let j = choose|j: int| s.paid_until(f, j);
            assert(t.height(j - 1) == s.height(j));
            assert forall|k: int| 0 <= k < j - 1 implies (#[trigger] t.buf[k]).size >= 0 && (
            t.sizable(k) ==> t.measure_end(k) <= t.left_total + t.space) by {
                assert(s.buf[k + 1].size >= 0);
                assert(t.start_total(k) == s.start_total(k + 1));
            }
            assert(t.paid_until(f, j - 1));
            assert forall|g: int| f <= g < t.print_stack.len() implies (
            #[trigger] t.print_stack[g]) is Fits by {
                if g < depth {
                    assert(s.print_stack[g] is Fits);
                }
            }
        } else {
            assert(e.token is Begin && e.size <= s.space);
            if some {
                let j = choose|j: int| s.paid_until(fitting, j);
                assert(t.height(j - 1) == s.height(j));
                assert forall|k: int| 0 <= k < j - 1 implies (#[trigger] t.buf[k]).size >= 0
                    && (t.sizable(k) ==> t.measure_end(k) <= t.left_total + t.space) by {
                    assert(s.buf[k + 1].size >= 0);
                    assert(t.start_total(k) == s.start_total(k + 1));
                }
                assert(t.paid_until(f, j - 1));
            } else {
                let j = choose|j: int| s.encloses(0, j);
                assert(t.height(j - 1) == s.height(j));
                assert forall|k: int| 0 <= k < j - 1 implies (#[trigger] t.buf[k]).size >= 0
                    && (t.sizable(k) ==> t.measure_end(k) <= t.left_total + t.space) by {
                    assert(s.buf[k + 1].size >= 0);
                    assert(t.start_total(k) == s.start_total(k + 1));
                }
                assert(t.paid_until(f, j - 1));
            }
        }
    }
}

impl State {
    /// What holds of sizes and of blocks that fit between two operations
    /// of the printer.
    pub open spec fn fitted(self) -> bool {
        &&& self.measured(0)
        &&& self.credited()
    }

    /// What holds of sizes and of blocks that fit while the buffer is
    /// drained and its oldest entry may just have been given a size by
    /// force.
    pub open spec fn fitting(self) -> bool {
        &&& self.measured(1)
        &&& self.credited()
        &&& self.buf.len() > 0 && self.buf[0].token is Begin && 0 <= self.buf[0].size
            <= self.space ==> exists|j: int| self.encloses(0, j)
    }
}

/// What holds between two operations holds while the buffer is drained.
pub proof fn lemma_fitted_fitting(s: State)
    requires
        s.fitted(),
    ensures
        s.fitting(),
{
    reveal(State::measured);
}

/// Settling the size of the newest entry that waits leaves the entries
/// alone whose sizes are settled.
proof fn lemma_settle_top_keeps_settled(s: State, size: int)
    requires
        s.settling(),
        s.scan_stack.len() > 0,
        size >= 0,
    ensures
        forall|k: int|
            0 <= k < s.buf.len() && (#[trigger] s.buf[k]).size >= 0 ==> s.settle_top(size).buf[k]
                == s.buf[k],
        s.settle_top(size).buf.len() == s.buf.len(),
{
    assert(s.live(s.scan_stack[s.scan_stack.len() - 1] as int));
}

/// Settling sizes leaves the entries alone whose sizes are settled.
pub proof fn lemma_check_stack_keeps_settled(s: State, depth: nat)
    requires
        s.settling(),
    ensures
        s.check_stack(depth).buf.len() == s.buf.len(),
        forall|k: int|
            0 <= k < s.buf.len() && (#[trigger] s.buf[k]).size >= 0 ==> s.check_stack(depth).buf[k]
                == s.buf[k],
    decreases s.scan_stack.len(),
{
    if s.scan_stack.len() > 0 {
        let index = s.scan_stack.last() as int;
        assert(s.live(s.scan_stack[s.scan_stack.len() - 1] as int));
        let entry = s.entry(index);
        let walked = !(entry.token is String) && !(entry.token is Begin && depth == 0);
        if walked {
            let size = if entry.token is End {
                1
            } else {
                entry.size + s.right_total
            };
            if !(entry.token is End) {
                lemma_settled_size(s, index - s.first);
            }
            let t = s.settle_top(size);
            lemma_settle_top(s, size);
            lemma_settle_top_keeps_settled(s, size);
            let further: nat = match entry.token {
                TokenView::Begin(_) => (depth - 1) as nat,
                TokenView::End => depth + 1,
                _ => depth,
            };
            let r = if entry.token is Break && depth == 0 {
                t
            } else {
                lemma_check_stack_keeps_settled(t, further);
                t.check_stack(further)
            };
            assert(r == s.check_stack(depth));
            assert forall|k: int| 0 <= k < s.buf.len() && (#[trigger] s.buf[k]).size
                >= 0 implies r.buf[k] == s.buf[k] by {
                assert(t.buf[k] == s.buf[k]);
            }
        }
    }
}

/// Settling sizes from the top of the scan stack, as a break or the end of
/// the input does, keeps what holds of sizes and of blocks that fit.
pub proof fn lemma_settle_fitted(s: State)
    requires
        s.settling(),
        s.nested(),
        s.fitted(),
    ensures
        s.check_stack(0).fitted(),
{
    reveal(State::nested);
    let c = s.check_stack(0);
    lemma_check_stack(s, 0);
    lemma_check_stack_measured(s, 0);
    lemma_check_stack_keeps_settled(s, 0);
    lemma_same_but_sizes(s, c, 0);
    assert forall|j: int| 0 <= j <= s.buf.len() implies #[trigger] c.height(j) == s.height(j) by {
        lemma_height_same(s, c, j);
    }
    lemma_credited_kept(s, c);
}

/// One step of writing out keeps what holds of sizes and of blocks that
/// fit.
pub proof fn lemma_step_fitted(s: State)
    requires
        s.basic(),
        s.ready(),
        s.fitting(),
    ensures
        s.step().fitted(),
{
    lemma_step_measured(s);
    lemma_step_credited(s);
}

/// Writing out all that can be written keeps what holds of sizes and of
/// blocks that fit.
pub proof fn lemma_advance_left_fitted(s: State, spent: nat)
    requires
        s.basic(),
        s.bounded(spent),
        s.fitting(),
        s.ready() || s.fitted(),
    ensures
        s.advance_left().fitted(),
    decreases s.buf.len(),
{
    if s.ready() {
        lemma_step_basic(s);
        lemma_step_bounded(s, spent);
        lemma_step_fitted(s);
        lemma_fitted_fitting(s.step());
        lemma_advance_left_fitted(s.step(), spent);
    }
}

/// Giving the oldest entry a size by force keeps what holds of sizes and
/// of blocks that fit, as far as it holds while the buffer is drained.
pub proof fn lemma_force_first_fitted(s: State, spent: nat)
    requires
        s.steady(),
        s.bounded(spent),
        s.buf.len() > 0,
        s.fitted(),
    ensures
        s.force_first().fitting(),
{
    let f = s.force_first();
    lemma_force_first(s, spent);
    lemma_force_first_measured(s, spent);
    if s.scan_stack.len() > 0 && s.scan_stack[0] == s.first {
        assert(s.live(s.scan_stack[0] as int));
        assert(s.same_but_sizes(f));
        lemma_same_but_sizes(s, f, spent);
        assert forall|j: int| 0 <= j <= s.buf.len() implies #[trigger] f.height(j) == s.height(
            j,
        ) by {
            lemma_height_same(s, f, j);
        }
        assert forall|k: int| 0 <= k < s.buf.len() && (#[trigger] s.buf[k]).size >= 0 implies k
            < f.buf.len() && f.buf[k].size == s.buf[k].size && f.sizable(k) == s.sizable(k)
            && f.start_total(k) == s.start_total(k) by {}
        lemma_credited_kept(s, f);
    } else {
        lemma_fitted_fitting(s);
    }
}

/// Writing out while the buffer is overfull keeps what holds of sizes and
/// of blocks that fit.
pub proof fn lemma_check_stream_fitted(s: State, spent: nat)
    requires
        s.steady(),
        s.settled(),
        s.bounded(spent),
        s.fitted(),
    ensures
        s.check_stream().fitted(),
    decreases s.buf.len(),
{
    if s.overfull() && s.buf.len() > 0 {
        lemma_force_first(s, spent);
        lemma_force_first_fitted(s, spent);
        let f = s.force_first();
        lemma_advance_left(f, spent);
        lemma_advance_left_fitted(f, spent);
        let drained = f.advance_left();
        if 0 < drained.buf.len() < s.buf.len() {
            lemma_check_stream_fitted(drained, spent);
        }
    }
}

/// Appending a token keeps what holds of sizes and of blocks that fit.
pub proof fn lemma_append_fitted(s: State, token: TokenView, size: int)
    requires
        s.settling(),
        s.fitted(),
        token is String ==> size >= 0,
        !(token is String) ==> size < 0,
    ensures
        s.append(token, size).fitted(),
{
    let r = s.append(token, size);
    let entry = Entry { token, size };
    lemma_append_measured(s, token, size);
    assert forall|k: int| 0 <= k <= s.buf.len() implies r.height(k) == s.height(k)
        && r.start_total(k) == s.start_total(k) by {
        lemma_push_take(s.buf, entry, k);
    }
    lemma_credited_kept(s, r);
}

/// Taking the newest entry out of the buffer again, while it waits for its
/// size, keeps what holds of sizes and of blocks that fit.
pub proof fn lemma_retract_fitted(s: State, spent: nat)
    requires
        s.settling(),
        s.bounded(spent),
        s.fitted(),
        s.buf.len() > 0,
        s.buf.last().size < 0,
    ensures
        s.retract().fitted(),
{
    let r = s.retract();
    lemma_retract_measured(s, spent);
    assert forall|k: int| 0 <= k <= s.buf.len() - 1 implies r.height(k) == s.height(k)
        && r.start_total(k) == s.start_total(k) by {
        assert(r.buf.take(k) =~= s.buf.take(k));
    }
    lemma_credited_kept(s, r);
}

/// A state with nothing buffered, whatever is changed in it but the
/// frames, has nothing to be said of sizes and of blocks that fit.
pub proof fn lemma_unbuffered_fitted(s: State, r: State)
    requires
        s.credited(),
        s.buf.len() == 0,
        r.buf.len() == 0,
        r.print_stack == s.print_stack || (s.print_stack.len() > 0 && r.print_stack
            == s.print_stack.drop_last()),
    ensures
        r.fitted(),
{
    lemma_credited_needs_buffer(s);
    lemma_nothing_measured(r);
    assert forall|f: int| 0 <= f < r.print_stack.len() implies !((
    #[trigger] r.print_stack[f]) is Fits) by {
        assert(r.print_stack[f] == s.print_stack[f]);
    }
    lemma_nothing_credited(r);
}

/// Moving the offset of the newest break keeps what holds of sizes and of
/// blocks that fit.
pub proof fn lemma_offset_fitted(s: State, delta: int)
    requires
        s.wf(),
        s.fitted(),
    ensures
        s.offset(delta).fitted(),
{
    reveal(State::measured);
    let r = s.offset(delta);
    if s.buf.len() > 0 && s.buf.last().token is Break {
        let n = s.buf.len() as int;
        assert forall|k: int| 0 <= k <= n implies r.height(k) == s.height(k) && r.start_total(k)
            == s.start_total(k) by {
            lemma_total_take_same(Measure::Nesting, r.buf, s.buf, k);
            lemma_total_take_same(Measure::Width, r.buf, s.buf, k);
        }
        assert forall|k: int| 0 <= k < n implies (#[trigger] r.buf[k]).size == s.buf[k].size
            && r.sizable(k) == s.sizable(k) && (r.buf[k].token is Begin) == (
        s.buf[k].token is Begin) by {}
        assert forall|k: int|
            0 <= k < r.buf.len() && (#[trigger] r.buf[k]).size >= 0 && r.sizable(k) implies r.measure_end(
            k,
        ) <= r.right_total by {
            assert(s.buf[k].size >= 0);
        }
        assert forall|k: int, u: int|
            #![trigger r.buf[k], r.buf[u]]
            0 <= k < u < r.buf.len() && r.buf[k].size >= 0 && r.sizable(k) && r.buf[u].size
                < 0 implies r.measure_end(k) <= r.start_total(u) by {
            assert(s.buf[k].size >= 0 && s.buf[u].size < 0);
        }
        assert forall|i: int|
            0 <= i < r.buf.len() && (#[trigger] r.buf[i]).size >= 0 && r.buf[i].token is Begin implies exists|
            j: int,
        |
            r.encloses(i, j) by {
            assert(s.buf[i].size >= 0);
            let j = choose|j: int| s.encloses(i, j);
            assert forall|k: int| i < k < j implies (#[trigger] r.buf[k]).size >= 0 && (
            r.sizable(k) ==> r.measure_end(k) <= r.measure_end(i)) by {
                assert(s.buf[k].size >= 0);
            }
            assert(r.encloses(i, j));
        }
        assert forall|k: int| 0 <= k < s.buf.len() && (#[trigger] s.buf[k]).size >= 0 implies k
            < r.buf.len() && r.buf[k].size == s.buf[k].size && r.sizable(k) == s.sizable(k)
            && r.start_total(k) == s.start_total(k) by {
            assert(r.buf[k].size == s.buf[k].size);
        }
        lemma_credited_kept(s, r);
    }
}

/// A fresh printer has no sizes settled and no block open.
pub proof fn law_fitted_initial()
    ensures
        State::initial().fitted(),
{
    lemma_nothing_measured(State::initial());
    lemma_nothing_credited(State::initial());
}

/// Every operation that the driver may do keeps what holds of sizes and of
/// blocks that fit.
pub proof fn law_fitted_step(s: State, op: Op, spent: nat)
    requires
        s.wf(),
        s.nested(),
        s.bounded(spent),
        s.fitted(),
        s.admits(op),
    ensures
        s.apply(op).fitted(),
{
    let r = s.apply(op);
    if s.scan_stack.len() > 0 {
        assert(s.live(s.scan_stack[0] as int));
        lemma_total_nonnegative(Measure::Width, s.buf);
    }
    match op {
        Op::String(text) => {
            if s.scan_stack.len() == 0 {
                lemma_unbuffered_fitted(s, r);
            } else {
                let token = TokenView::String(text);
                let pushed = s.append(token, text.len() as int);
                lemma_append(s, token, text.len() as int, spent);
                lemma_append_fitted(s, token, text.len() as int);
                assert(pushed == State {
                    right_total: s.right_total + text.len(),
                    ..s.push(token, text.len() as int)
                });
                lemma_check_stream_fitted(pushed, spent + token.cost());
            }
        },
        Op::Break(token) => {
            let settled = if s.scan_stack.len() == 0 {
                s.rebase()
            } else {
                s.check_stack(0)
            };
            if s.scan_stack.len() == 0 {
                lemma_rebase(s, spent);
                lemma_unbuffered_fitted(s, settled);
            } else {
                lemma_check_stack(s, 0);
                lemma_settle_fitted(s);
                lemma_same_but_sizes(s, settled, spent);
            }
            lemma_append_fitted(settled, TokenView::Break(token), -settled.right_total);
            assert(settled.append(TokenView::Break(token), -settled.right_total) =~= r);
        },
        Op::Begin(token) => {
            let based = if s.scan_stack.len() == 0 {
                s.rebase()
            } else {
                s
            };
            if s.scan_stack.len() == 0 {
                lemma_rebase(s, spent);
                lemma_unbuffered_fitted(s, based);
            }
            lemma_append_fitted(based, TokenView::Begin(token), -based.right_total);
            assert(based.append(TokenView::Begin(token), -based.right_total) =~= r);
        },
        Op::End => {
            let n = s.buf.len() as int;
            if s.scan_stack.len() == 0 {
                lemma_height_all(s);
                lemma_unbuffered_fitted(s, r);
            } else if s.ends_in_empty_block() {
                assert(s.seam(n - 1));
                lemma_retract(s, spent);
                lemma_retract_fitted(s, spent);
                let d = s.retract();
                assert(d =~= s.drop_break());
                lemma_retract_fitted(d, spent);
                assert(d.retract() =~= r);
            } else {
                let trimmed = if s.ends_in_idle_break() {
                    s.drop_break()
                } else {
                    s
                };
                if s.ends_in_idle_break() {
                    lemma_retract(s, spent);
                    lemma_retract_fitted(s, spent);
                    assert(s.retract() =~= trimmed);
                }
                lemma_append_fitted(trimmed, TokenView::End, -1);
                assert(trimmed.append(TokenView::End, -1) =~= r);
            }
        },
        Op::Offset(delta) => {
            lemma_offset_fitted(s, delta);
        },
    }
}

/// While a block that fits is being written, the next entry that is
/// written breaks no line: a break is written as blank space, and a block
/// is opened as one that fits.
pub proof fn law_fit_spreads(s: State, f: int)
    requires
        s.basic(),
        s.credited(),
        s.ready(),
        0 <= f < s.print_stack.len(),
        s.print_stack[f] is Fits,
    ensures
        s.top() is Fits,
        s.buf[0].token is Break ==> s.pop_first().break_fits(s.buf[0].size) && s.step().out
            == s.out,
        s.buf[0].token is Begin ==> s.buf[0].size <= s.space && s.step().top() is Fits,
        s.buf[0].token is End ==> s.step().out == s.out,
{
    reveal(State::credited);
    assert(s.fits_above(f));
    assert(s.print_stack[s.print_stack.len() - 1] is Fits);
    let j = choose|j: int| s.paid_until(f, j);
    assert(s.buf[0].size >= 0);
    assert(s.buf.take(0) =~= Seq::<Entry>::empty());
    assert(s.start_total(0) == s.left_total);
}

impl State {
    /// The state after the `count` oldest entries of the buffer were
    /// written.
    pub open spec fn steps(self, count: nat) -> State
        decreases count,
    {
        if count == 0 {
            self
        } else {
            self.steps((count - 1) as nat).step()
        }
    }

    /// The entry at position `k` lies in the block that opens at the
    /// front of the buffer.
    pub open spec fn in_first_block(self, k: int) -> bool {
        &&& 1 <= k < self.buf.len()
        &&& forall|x: int| 1 <= x <= k ==> #[trigger] self.height(x) > self.height(0)
    }
}

/// Where the block at the front of the buffer fits, the state after `k`
/// entries were written, with `k` in that block, is one in which that block
/// is still being written, as one that fits.
proof fn lemma_steps_in_block(s: State, k: nat)
    requires
        s.basic(),
        s.fitted(),
        s.ready(),
        s.buf[0].token is Begin,
        s.buf[0].size <= s.space,
        s.in_first_block(k as int),
    ensures
        s.steps(k).basic(),
        s.steps(k).fitted(),
        s.steps(k).ready(),
        s.steps(k).buf.len() == s.buf.len() - k,
        s.steps(k).buf[0] == s.buf[k as int],
        forall|x: int|
            0 <= x <= s.buf.len() - k ==> #[trigger] s.steps(k).height(x) == s.height(x + k),
        forall|x: int| 0 <= x < s.buf.len() - k ==> #[trigger] s.steps(k).buf[x] == s.buf[x + k],
        s.steps(k).print_stack.len() > s.print_stack.len(),
        s.steps(k).print_stack[s.print_stack.len() as int] is Fits,
    decreases k,
{
    let depth = s.print_stack.len() as int;
    let before = s.steps((k - 1) as nat);
    if k == 1 {
        assert(before == s);
    } else {
        assert(s.in_first_block(k - 1)) by {
            assert forall|x: int| 1 <= x <= k - 1 implies #[trigger] s.height(x) > s.height(
                0,
            ) by {}
        }
        lemma_steps_in_block(s, (k - 1) as nat);
    }
    let u = before.step();
    assert(u == s.steps(k));
    lemma_fitted_fitting(before);
    lemma_step_basic(before);
    lemma_step_frame(before);
    lemma_step_shift(before);
    lemma_step_fitted(before);
    assert(s.buf.take(0) =~= Seq::<Entry>::empty());
    assert(s.height(0) == depth);
    assert forall|x: int| 0 <= x <= s.buf.len() - k implies #[trigger] u.height(x) == s.height(
        x + k,
    ) by {
        assert(u.height(x) == before.height(x + 1));
        assert(before.height(x + 1) == s.height(x + 1 + (k - 1)));
    }
    assert forall|x: int| 0 <= x < s.buf.len() - k implies #[trigger] u.buf[x] == s.buf[x + k] by {
        assert(u.buf[x] == before.buf[x + 1]);
        assert(before.buf[x + 1] == s.buf[x + 1 + (k - 1)]);
    }
    assert(u.buf.take(0) =~= Seq::<Entry>::empty());
    assert(u.height(0) == u.print_stack.len());
    assert(u.height(0) == s.height(0 + k as int));
    assert(s.height(k as int) > depth);
    if k > 1 {
        assert(before.print_stack[depth] is Fits);
        assert(u.print_stack[depth] == before.print_stack[depth]);
    }
    law_fit_spreads_ready(u, depth);
}

/// While a block that fits is being written, the oldest entry of the
/// buffer has its size.
proof fn law_fit_spreads_ready(s: State, f: int)
    requires
        s.credited(),
        0 <= f < s.print_stack.len(),
        s.print_stack[f] is Fits,
    ensures
        s.ready(),
{
    reveal(State::credited);
    let j = choose|j: int| s.paid_until(f, j);
    assert(s.buf[0].size >= 0);
}

/// A block whose size is no more than the space that is left on the line
/// when its opening is written, is written on that line with all that is
/// in it: each break in it, at whatever depth, is written as blank space,
/// and each block in it is opened as one that fits.
pub proof fn law_block_on_one_line(s: State, k: nat)
    requires
        s.basic(),
        s.fitted(),
        s.ready(),
        s.buf[0].token is Begin,
        s.buf[0].size <= s.space,
        s.in_first_block(k as int),
    ensures
        s.buf[k as int].size >= 0,
        s.buf[k as int].token is Break ==> s.steps(k + 1).out == s.steps(k).out,
        s.buf[k as int].token is Begin ==> s.steps(k + 1).top() is Fits,
        s.buf[k as int].token is End ==> s.steps(k + 1).out == s.steps(k).out,
{
    lemma_steps_in_block(s, k);
    law_fit_spreads(s.steps(k), s.print_stack.len() as int);
    assert(s.steps(k + 1) == s.steps(k).step());
}

} // verus!
