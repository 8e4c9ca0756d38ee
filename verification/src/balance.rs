//! Blocks that are all closed are all written out at the end of the input.

use crate::draining::{
    lemma_advance_left_basic, lemma_force_first, lemma_step_basic, lemma_step_bounded,
    lemma_step_frame, lemma_waiting_first,
};
use crate::model::{total, Entry, Op, State};
use crate::scanning::{lemma_append, lemma_push_take, lemma_rebase, lemma_retract};
use crate::settling::{
    lemma_check_stack, lemma_same_but_sizes, lemma_settle_top, lemma_settled_size,
};
use crate::sums::{lemma_total_push, lemma_total_take_all, lemma_total_take_same, lemma_total_take_shift};
use crate::token::{Measure, TokenView};
use vstd::prelude::*;

verus! {

impl State {
    /// The number of blocks that are open before the entry at position `k`
    /// of the buffer.
    pub open spec fn height(self, k: int) -> int {
        self.print_stack.len() + total(Measure::Nesting, self.buf.take(k))
    }

    /// The position in the buffer of the entry that the scan stack holds at
    /// `a`.
    pub open spec fn waiting(self, a: int) -> int {
        self.scan_stack[a] - self.first
    }

    /// Between two entries that wait for their size, as many blocks are
    /// closed as are opened; and after the newest of them, `depth` more are
    /// closed than opened.
    pub open spec fn gaps(self, depth: int) -> bool {
        &&& forall|a: int, b: int|
            #![trigger self.scan_stack[a], self.scan_stack[b]]
            0 <= a && b == a + 1 && b < self.scan_stack.len() ==> self.height(self.waiting(b))
                == self.height(self.waiting(a) + 1)
        &&& self.scan_stack.len() > 0 ==> self.height(self.waiting(self.scan_stack.len() - 1) + 1)
            - self.height(self.buf.len() as int) == depth
    }

    /// A break that waits for its size while no block is open is the oldest
    /// entry that waits.
    pub open spec fn outer_break_oldest(self) -> bool {
        forall|a: int|
            #![trigger self.scan_stack[a]]
            0 <= a < self.scan_stack.len() && self.buf[self.waiting(a)].token is Break
                && self.height(self.waiting(a)) == 0 ==> a == 0
    }

    /// What holds of the entries that wait for their size, as regards the
    /// blocks that they lie in.
    #[verifier::opaque]
    pub open spec fn nested(self) -> bool {
        &&& self.gaps(0)
        &&& self.outer_break_oldest()
    }
}

/// Two states with the same tokens and the same number of frames have the
/// same heights.
pub proof fn lemma_height_same(s: State, t: State, k: int)
    requires
        s.same_but_sizes(t),
        0 <= k <= s.buf.len(),
    ensures
        t.height(k) == s.height(k),
{
    lemma_total_take_same(Measure::Nesting, t.buf, s.buf, k);
}

/// The height before an entry, and the height after it.
pub proof fn lemma_height_next(s: State, k: int)
    requires
        0 <= k < s.buf.len(),
    ensures
        s.height(k + 1) == s.height(k) + s.buf[k].token.nesting(),
{
    crate::sums::lemma_total_take_next(Measure::Nesting, s.buf, k);
}

/// The height after all entries is the number of open blocks.
pub proof fn lemma_height_all(s: State)
    ensures
        s.height(s.buf.len() as int) == s.depth(),
{
    lemma_total_take_all(Measure::Nesting, s.buf);
}

/// Settling the newest waiting entry at depth `depth` leaves the gaps in
/// order for the depth that the walk goes on with.
pub proof fn lemma_settle_top_gaps(s: State, size: int, depth: int)
    requires
        s.settling(),
        s.gaps(depth),
        s.outer_break_oldest(),
        s.scan_stack.len() > 0,
        size >= 0,
    ensures
        s.settle_top(size).gaps(depth - s.entry(s.scan_stack.last() as int).token.nesting()),
        s.settle_top(size).outer_break_oldest(),
{
    let t = s.settle_top(size);
    let n = s.scan_stack.len() as int;
    lemma_settle_top(s, size);
    assert(s.live(s.scan_stack[n - 1] as int));
    lemma_height_next(s, s.waiting(n - 1));
    assert forall|k: int| 0 <= k <= s.buf.len() implies t.height(k) == s.height(k) by {
        lemma_height_same(s, t, k);
    }
    assert forall|a: int| 0 <= a < t.scan_stack.len() implies s.live(
        #[trigger] s.scan_stack[a] as int,
    ) && t.scan_stack[a] == s.scan_stack[a] by {}
    assert forall|a: int, b: int|
        #![trigger t.scan_stack[a], t.scan_stack[b]]
        0 <= a && b == a + 1 && b < t.scan_stack.len() implies t.height(t.waiting(b)) == t.height(
        t.waiting(a) + 1,
    ) by {
        assert(s.live(s.scan_stack[a] as int));
        assert(s.live(s.scan_stack[a + 1] as int));
        assert(s.height(s.waiting(a + 1)) == s.height(s.waiting(a) + 1));
    }
    if t.scan_stack.len() > 0 {
        assert(s.live(s.scan_stack[n - 2] as int));
        assert(s.height(s.waiting(n - 2 + 1)) == s.height(s.waiting(n - 2) + 1));
    }
    assert forall|a: int|
        #![trigger t.scan_stack[a]]
        0 <= a < t.scan_stack.len() && t.buf[t.waiting(a)].token is Break && t.height(
            t.waiting(a),
        ) == 0 implies a == 0 by {
        assert(s.live(s.scan_stack[a] as int));
        assert(t.buf[t.waiting(a)].token == s.buf[s.waiting(a)].token);
    }
}

/// Settling sizes from the top of the scan stack leaves the waiting entries
/// in order. If an entry still waits afterwards, a block is open.
proof fn lemma_check_stack_nested(s: State, depth: nat)
    requires
        s.settling(),
        s.gaps(depth as int),
        s.outer_break_oldest(),
    ensures
        s.check_stack(depth).nested(),
        s.check_stack(depth).scan_stack.len() > 0 ==> s.depth() >= 1,
    decreases s.scan_stack.len(),
{
    reveal(State::nested);
    if s.scan_stack.len() > 0 {
        let n = s.scan_stack.len() as int;
        let index = s.scan_stack.last() as int;
        assert(s.live(s.scan_stack[n - 1] as int));
        let j = s.waiting(n - 1);
        let entry = s.entry(index);
        lemma_height_next(s, j);
        lemma_height_all(s);
        assert(s.height(j) >= 0) by {
            assert(s.print_stack.len() + total(Measure::Nesting, s.buf.take(j)) >= 0);
        }
        match entry.token {
            TokenView::Begin(_) => {
                if depth != 0 {
                    lemma_settled_size(s, j);
                    let size = entry.size + s.right_total;
                    lemma_settle_top(s, size);
                    lemma_settle_top_gaps(s, size, depth as int);
                    lemma_same_but_sizes(s, s.settle_top(size), 0);
                    lemma_check_stack_nested(s.settle_top(size), (depth - 1) as nat);
                }
            },
            TokenView::End => {
                lemma_settle_top(s, 1);
                lemma_settle_top_gaps(s, 1, depth as int);
                lemma_same_but_sizes(s, s.settle_top(1), 0);
                lemma_check_stack_nested(s.settle_top(1), depth + 1);
            },
            TokenView::Break(_) => {
                lemma_settled_size(s, j);
                let size = entry.size + s.right_total;
                lemma_settle_top(s, size);
                lemma_settle_top_gaps(s, size, depth as int);
                lemma_same_but_sizes(s, s.settle_top(size), 0);
                if depth != 0 {
                    lemma_check_stack_nested(s.settle_top(size), depth);
                } else if n > 1 {
                    assert(s.buf[s.waiting(n - 1)].token is Break);
                }
            },
            TokenView::String(_) => {},
        }
    }
}

/// Settling sizes from the top of the scan stack, as a break or the end of
/// the input does, keeps the waiting entries in order. If an entry still
/// waits afterwards, a block is open.
pub proof fn lemma_settle_nested(s: State)
    requires
        s.settling(),
        s.nested(),
    ensures
        s.check_stack(0).nested(),
        s.check_stack(0).scan_stack.len() > 0 ==> s.depth() >= 1,
{
    reveal(State::nested);
    lemma_check_stack_nested(s, 0);
}

/// One step of writing out moves every entry one position towards the
/// front of the buffer, with the height before it and the total at its
/// arrival.
pub proof fn lemma_step_shift(s: State)
    requires
        s.basic(),
        s.ready(),
    ensures
        forall|k: int|
            0 <= k <= s.step().buf.len() ==> #[trigger] s.step().height(k) == s.height(k + 1),
        forall|k: int|
            0 <= k <= s.step().buf.len() ==> #[trigger] s.step().start_total(k) == s.start_total(
                k + 1,
            ),
        forall|k: int| 0 <= k < s.step().buf.len() ==> #[trigger] s.step().buf[k] == s.buf[k + 1],
{
    let t = s.step();
    lemma_step_frame(s);
    lemma_step_basic(s);
    assert forall|k: int| 0 <= k <= t.buf.len() implies #[trigger] t.height(k) == s.height(
        k + 1,
    ) by {
        if k < t.buf.len() {
            lemma_total_take_shift(Measure::Nesting, s.buf, k);
        } else {
            lemma_total_take_all(Measure::Nesting, t.buf);
            lemma_total_take_all(Measure::Nesting, s.buf);
            crate::sums::lemma_total_drop_first(Measure::Nesting, s.buf);
        }
    }
    assert forall|k: int| 0 <= k <= t.buf.len() implies #[trigger] t.start_total(k)
        == s.start_total(k + 1) by {
        if k < t.buf.len() {
            lemma_total_take_shift(Measure::Width, s.buf, k);
        } else {
            lemma_total_take_all(Measure::Width, t.buf);
            lemma_total_take_all(Measure::Width, s.buf);
            crate::sums::lemma_total_drop_first(Measure::Width, s.buf);
        }
    }
}

/// One step of writing out keeps the waiting entries in order.
pub proof fn lemma_step_nested(s: State)
    requires
        s.basic(),
        s.ready(),
        s.nested(),
    ensures
        s.step().nested(),
{
    reveal(State::nested);
    let t = s.step();
    lemma_step_frame(s);
    lemma_step_basic(s);
    assert forall|k: int| 0 <= k <= t.buf.len() implies t.height(k) == s.height(k + 1) by {
        if k < t.buf.len() {
            lemma_total_take_shift(Measure::Nesting, s.buf, k);
        } else {
            lemma_total_take_all(Measure::Nesting, t.buf);
            lemma_total_take_all(Measure::Nesting, s.buf);
            crate::sums::lemma_total_drop_first(Measure::Nesting, s.buf);
        }
    }
    assert forall|a: int| 0 <= a < s.scan_stack.len() implies s.live(
        #[trigger] s.scan_stack[a] as int,
    ) && s.waiting(a) >= 1 by {
        assert(s.live(s.scan_stack[a] as int));
        assert(s.entry(s.scan_stack[a] as int).size < 0);
    }
    assert forall|a: int, b: int|
        #![trigger t.scan_stack[a], t.scan_stack[b]]
        0 <= a && b == a + 1 && b < t.scan_stack.len() implies t.height(t.waiting(b)) == t.height(
        t.waiting(a) + 1,
    ) by {
        assert(s.live(s.scan_stack[a] as int));
        assert(s.live(s.scan_stack[a + 1] as int));
        assert(s.height(s.waiting(a + 1)) == s.height(s.waiting(a) + 1));
    }
    if t.scan_stack.len() > 0 {
        assert(s.live(s.scan_stack[s.scan_stack.len() - 1] as int));
    }
    assert forall|a: int|
        #![trigger t.scan_stack[a]]
        0 <= a < t.scan_stack.len() && t.buf[t.waiting(a)].token is Break && t.height(
            t.waiting(a),
        ) == 0 implies a == 0 by {
        assert(s.live(s.scan_stack[a] as int));
        assert(t.buf[t.waiting(a)] == s.buf[s.waiting(a)]);
    }
}

/// Writing out all that can be written keeps the waiting entries in order.
pub proof fn lemma_advance_left_nested(s: State, spent: nat)
    requires
        s.basic(),
        s.bounded(spent),
        s.nested(),
    ensures
        s.advance_left().nested(),
    decreases s.buf.len(),
{
    if s.ready() {
        lemma_step_basic(s);
        lemma_step_bounded(s, spent);
        lemma_step_nested(s);
        lemma_advance_left_nested(s.step(), spent);
    }
}

/// Giving the oldest entry a size by force keeps the waiting entries in
/// order.
pub proof fn lemma_force_first_nested(s: State, spent: nat)
    requires
        s.steady(),
        s.bounded(spent),
        s.buf.len() > 0,
        s.nested(),
    ensures
        s.force_first().nested(),
{
    reveal(State::nested);
    let f = s.force_first();
    lemma_force_first(s, spent);
    if s.scan_stack.len() > 0 && s.scan_stack[0] == s.first {
        assert(s.same_but_sizes(f));
        assert forall|k: int| 0 <= k <= s.buf.len() implies f.height(k) == s.height(k) by {
            lemma_height_same(s, f, k);
        }
        assert forall|a: int| 0 <= a < f.scan_stack.len() implies f.scan_stack[a]
            == #[trigger] s.scan_stack[a + 1] && s.live(s.scan_stack[a + 1] as int) by {
            assert(s.live(s.scan_stack[a + 1] as int));
        }
        assert forall|a: int, b: int|
            #![trigger f.scan_stack[a], f.scan_stack[b]]
            0 <= a && b == a + 1 && b < f.scan_stack.len() implies f.height(f.waiting(b)) == f.height(
            f.waiting(a) + 1,
        ) by {
            assert(s.live(s.scan_stack[a + 1] as int));
            assert(s.live(s.scan_stack[a + 2] as int));
            assert(s.height(s.waiting(a + 1 + 1)) == s.height(s.waiting(a + 1) + 1));
        }
        if f.scan_stack.len() > 0 {
            assert(s.live(s.scan_stack[s.scan_stack.len() - 1] as int));
        }
        assert forall|a: int|
            #![trigger f.scan_stack[a]]
            0 <= a < f.scan_stack.len() && f.buf[f.waiting(a)].token is Break && f.height(
                f.waiting(a),
            ) == 0 implies a == 0 by {
            assert(s.live(s.scan_stack[a + 1] as int));
            assert(s.scan_stack[0] < s.scan_stack[a + 1]);
            assert(f.buf[f.waiting(a)].token == s.buf[s.waiting(a + 1)].token);
        }
    }
}

/// Writing out while the buffer is overfull keeps the waiting entries in
/// order.
pub proof fn lemma_check_stream_nested(s: State, spent: nat)
    requires
        s.steady(),
        s.settled(),
        s.bounded(spent),
        s.nested(),
    ensures
        s.check_stream().nested(),
    decreases s.buf.len(),
{
    if s.overfull() && s.buf.len() > 0 {
        lemma_force_first(s, spent);
        lemma_force_first_nested(s, spent);
        let f = s.force_first();
        crate::draining::lemma_advance_left(f, spent);
        lemma_advance_left_nested(f, spent);
        let drained = f.advance_left();
        if 0 < drained.buf.len() < s.buf.len() {
            lemma_check_stream_nested(drained, spent);
        }
    }
}

/// Appending a token keeps the waiting entries in order, where a break
/// that comes in while no block is open finds nothing waiting.
pub proof fn lemma_append_nested(s: State, token: TokenView, size: int)
    requires
        s.settling(),
        s.nested(),
        token is String ==> size >= 0,
        !(token is String) ==> size < 0,
        token is Break && s.depth() == 0 ==> s.scan_stack.len() == 0,
    ensures
        s.append(token, size).nested(),
{
    reveal(State::nested);
    let r = s.append(token, size);
    let entry = Entry { token, size };
    let n = s.buf.len() as int;
    lemma_total_push(Measure::Nesting, s.buf, entry);
    lemma_total_take_all(Measure::Nesting, r.buf);
    lemma_height_all(s);
    assert forall|k: int| 0 <= k <= n implies r.height(k) == s.height(k) by {
        lemma_push_take(s.buf, entry, k);
    }
    assert forall|a: int| 0 <= a < s.scan_stack.len() implies s.live(
        #[trigger] s.scan_stack[a] as int,
    ) && r.scan_stack[a] == s.scan_stack[a] by {}
    assert forall|a: int, b: int|
        #![trigger r.scan_stack[a], r.scan_stack[b]]
        0 <= a && b == a + 1 && b < r.scan_stack.len() implies r.height(r.waiting(b)) == r.height(
        r.waiting(a) + 1,
    ) by {
        assert(s.live(s.scan_stack[a] as int));
        if a + 1 < s.scan_stack.len() {
            assert(s.live(s.scan_stack[a + 1] as int));
            assert(s.height(s.waiting(a + 1)) == s.height(s.waiting(a) + 1));
        }
    }
    if s.scan_stack.len() > 0 {
        assert(s.live(s.scan_stack[s.scan_stack.len() - 1] as int));
    }
    assert forall|a: int|
        #![trigger r.scan_stack[a]]
        0 <= a < r.scan_stack.len() && r.buf[r.waiting(a)].token is Break && r.height(
            r.waiting(a),
        ) == 0 implies a == 0 by {
        if a < s.scan_stack.len() {
            assert(s.live(s.scan_stack[a] as int));
            assert(r.buf[r.waiting(a)] == s.buf[s.waiting(a)]);
        }
    }
}

/// Taking the newest entry out of the buffer again, while it waits for its
/// size, keeps the waiting entries in order.
pub proof fn lemma_retract_nested(s: State, spent: nat)
    requires
        s.settling(),
        s.bounded(spent),
        s.nested(),
        s.buf.len() > 0,
        s.buf.last().size < 0,
    ensures
        s.retract().nested(),
{
    reveal(State::nested);
    let r = s.retract();
    let n = s.buf.len() as int;
    lemma_retract(s, spent);
    assert forall|k: int| 0 <= k <= n - 1 implies r.height(k) == s.height(k) by {
        assert(r.buf.take(k) =~= s.buf.take(k));
    }
    assert forall|a: int| 0 <= a < r.scan_stack.len() implies s.live(
        #[trigger] s.scan_stack[a] as int,
    ) && r.scan_stack[a] == s.scan_stack[a] && s.scan_stack[a] < s.scan_stack[s.scan_stack.len()
        - 1] by {}
    assert forall|a: int, b: int|
        #![trigger r.scan_stack[a], r.scan_stack[b]]
        0 <= a && b == a + 1 && b < r.scan_stack.len() implies r.height(r.waiting(b)) == r.height(
        r.waiting(a) + 1,
    ) by {
        assert(s.live(s.scan_stack[a] as int));
        assert(s.live(s.scan_stack[a + 1] as int));
        assert(s.height(s.waiting(a + 1)) == s.height(s.waiting(a) + 1));
    }
    if r.scan_stack.len() > 0 {
        let top = r.scan_stack.len() - 1;
        assert(s.live(s.scan_stack[top] as int));
        assert(s.height(s.waiting(top + 1)) == s.height(s.waiting(top) + 1));
    }
    assert forall|a: int|
        #![trigger r.scan_stack[a]]
        0 <= a < r.scan_stack.len() && r.buf[r.waiting(a)].token is Break && r.height(
            r.waiting(a),
        ) == 0 implies a == 0 by {
        assert(s.live(s.scan_stack[a] as int));
        assert(r.buf[r.waiting(a)] == s.buf[s.waiting(a)]);
    }
}

/// A fresh printer has nothing waiting.
pub proof fn law_nested_initial()
    ensures
        State::initial().nested(),
{
    lemma_nothing_waiting(State::initial());
}

/// Where nothing waits for its size, the waiting entries are in order.
pub proof fn lemma_nothing_waiting(s: State)
    requires
        s.scan_stack.len() == 0,
    ensures
        s.nested(),
{
    reveal(State::nested);
}

/// A text keeps the waiting entries in order.
pub proof fn lemma_scan_string_nested(s: State, text: Seq<char>, spent: nat)
    requires
        s.wf(),
        s.bounded(spent),
        s.nested(),
    ensures
        s.scan_string(text).nested(),
{
    if s.scan_stack.len() == 0 {
        lemma_nothing_waiting(s.scan_string(text));
    } else {
        assert(s.live(s.scan_stack[0] as int));
        let token = TokenView::String(text);
        let pushed = s.append(token, text.len() as int);
        lemma_append(s, token, text.len() as int, spent);
        lemma_append_nested(s, token, text.len() as int);
        assert(pushed == State {
            right_total: s.right_total + text.len(),
            ..s.push(token, text.len() as int)
        });
        lemma_check_stream_nested(pushed, spent + token.cost());
    }
}

/// A break keeps the waiting entries in order.
pub proof fn lemma_scan_break_nested(s: State, token: crate::token::BreakView, spent: nat)
    requires
        s.wf(),
        s.bounded(spent),
        s.nested(),
    ensures
        s.scan_break(token).nested(),
{
    let settled = if s.scan_stack.len() == 0 {
        s.rebase()
    } else {
        s.check_stack(0)
    };
    if s.scan_stack.len() == 0 {
        lemma_rebase(s, spent);
        lemma_nothing_waiting(settled);
    } else {
        assert(s.live(s.scan_stack[0] as int));
        crate::sums::lemma_total_nonnegative(Measure::Width, s.buf);
        lemma_check_stack(s, 0);
        lemma_settle_nested(s);
        lemma_same_but_sizes(s, settled, spent);
    }
    lemma_append_nested(settled, TokenView::Break(token), -settled.right_total);
    assert(settled.append(TokenView::Break(token), -settled.right_total) =~= s.scan_break(token));
}

/// The opening of a block keeps the waiting entries in order.
pub proof fn lemma_scan_begin_nested(s: State, token: crate::token::BeginView, spent: nat)
    requires
        s.wf(),
        s.bounded(spent),
        s.nested(),
    ensures
        s.scan_begin(token).nested(),
{
    let based = if s.scan_stack.len() == 0 {
        s.rebase()
    } else {
        s
    };
    if s.scan_stack.len() == 0 {
        lemma_rebase(s, spent);
        lemma_nothing_waiting(based);
    } else {
        assert(s.live(s.scan_stack[0] as int));
        crate::sums::lemma_total_nonnegative(Measure::Width, s.buf);
    }
    lemma_append_nested(based, TokenView::Begin(token), -based.right_total);
    assert(based.append(TokenView::Begin(token), -based.right_total) =~= s.scan_begin(token));
}

/// The end of a block keeps the waiting entries in order.
pub proof fn lemma_scan_end_nested(s: State, spent: nat)
    requires
        s.wf(),
        s.bounded(spent),
        s.nested(),
    ensures
        s.scan_end().nested(),
{
    let r = s.scan_end();
    let n = s.buf.len() as int;
    if s.scan_stack.len() == 0 {
        lemma_nothing_waiting(r);
    } else if s.ends_in_empty_block() {
        assert(s.seam(n - 1));
        lemma_retract(s, spent);
        lemma_retract_nested(s, spent);
        let d = s.retract();
        assert(d =~= s.drop_break());
        lemma_retract_nested(d, spent);
        assert(d.retract() =~= r);
    } else {
        let trimmed = if s.ends_in_idle_break() {
            s.drop_break()
        } else {
            s
        };
        if s.ends_in_idle_break() {
            lemma_retract(s, spent);
            lemma_retract_nested(s, spent);
            assert(s.retract() =~= trimmed);
        }
        lemma_append_nested(trimmed, TokenView::End, -1);
        assert(trimmed.append(TokenView::End, -1) =~= r);
    }
}

/// Moving the offset of the newest break keeps the waiting entries in
/// order.
pub proof fn lemma_offset_nested(s: State, delta: int)
    requires
        s.wf(),
        s.nested(),
    ensures
        s.offset(delta).nested(),
{
    reveal(State::nested);
    let r = s.offset(delta);
    if s.buf.len() > 0 && s.buf.last().token is Break {
        assert forall|k: int| 0 <= k <= s.buf.len() implies r.height(k) == s.height(k) by {
            lemma_total_take_same(Measure::Nesting, r.buf, s.buf, k);
        }
        assert forall|a: int| 0 <= a < s.scan_stack.len() implies s.live(
            #[trigger] s.scan_stack[a] as int,
        ) by {}
        assert forall|a: int, b: int|
            #![trigger r.scan_stack[a], r.scan_stack[b]]
            0 <= a && b == a + 1 && b < r.scan_stack.len() implies r.height(r.waiting(b)) == r.height(
            r.waiting(a) + 1,
        ) by {
            assert(s.live(s.scan_stack[a] as int));
            assert(s.live(s.scan_stack[a + 1] as int));
            assert(s.height(s.waiting(a + 1)) == s.height(s.waiting(a) + 1));
        }
        assert forall|a: int|
            #![trigger r.scan_stack[a]]
            0 <= a < r.scan_stack.len() && r.buf[r.waiting(a)].token is Break && r.height(
                r.waiting(a),
            ) == 0 implies a == 0 by {
            assert(s.live(s.scan_stack[a] as int));
            assert(s.buf[s.waiting(a)].token is Break);
        }
    }
}

/// Every operation that the driver may do keeps the waiting entries in
/// order.
pub proof fn law_nested_step(s: State, op: Op, spent: nat)
    requires
        s.wf(),
        s.bounded(spent),
        s.nested(),
        s.admits(op),
    ensures
        s.apply(op).nested(),
{
    match op {
        Op::String(text) => lemma_scan_string_nested(s, text, spent),
        Op::Break(token) => lemma_scan_break_nested(s, token, spent),
        Op::Begin(token) => lemma_scan_begin_nested(s, token, spent),
        Op::End => lemma_scan_end_nested(s, spent),
        Op::Offset(delta) => lemma_offset_nested(s, delta),
    }
}

/// Where every block that was opened was closed, the end of the input
/// writes out all that is buffered: nothing stays in the buffer, nothing
/// waits for its size, and no block is left on the stack of blocks being
/// written.
pub proof fn law_balance(s: State, spent: nat)
    requires
        s.wf(),
        s.bounded(spent),
        s.nested(),
        s.depth() == 0,
    ensures
        s.finish().buf.len() == 0,
        s.finish().scan_stack.len() == 0,
        s.finish().print_stack.len() == 0,
{
    reveal(State::nested);
    if s.scan_stack.len() > 0 {
        let settled = s.check_stack(0);
        lemma_check_stack(s, 0);
        lemma_settle_nested(s);
        lemma_same_but_sizes(s, settled, spent);
        lemma_advance_left_basic(settled, spent);
        let r = settled.advance_left();
        if r.buf.len() > 0 {
            lemma_waiting_first(r);
        }
    }
}

} // verus!
