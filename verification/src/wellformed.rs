//! What holds of every state that the printer can reach.

use crate::model::{total, total_reach, total_width, Frame, State, MARGIN};
use crate::token::{Measure, TokenView};
use vstd::prelude::*;

verus! {

/// The indentation that a frame remembers, zero for a block that fits.
pub open spec fn saved_indent(frame: Frame) -> nat {
    match frame {
        Frame::Broken(indent, _) => indent,
        Frame::Fits(_) => 0,
    }
}

impl State {
    /// The scan stack holds its indices in rising order.
    pub open spec fn stack_ordered(self) -> bool {
        forall|a: int, b: int|
            0 <= a < b < self.scan_stack.len() ==> self.scan_stack[a] < self.scan_stack[b]
    }

    /// Each index on the scan stack is that of a buffered entry which is no
    /// text and whose size is not known yet.
    pub open spec fn stack_pending(self) -> bool {
        forall|a: int|
            0 <= a < self.scan_stack.len() ==> {
                let index = #[trigger] self.scan_stack[a] as int;
                &&& self.live(index)
                &&& self.entry(index).size < 0
                &&& !(self.entry(index).token is String)
            }
    }

    /// Each buffered entry whose size is not known yet is on the scan stack.
    pub open spec fn pending_stacked(self) -> bool {
        forall|i: int|
            0 <= i < self.buf.len() && (#[trigger] self.buf[i]).size < 0
                ==> self.scan_stack.contains((self.first + i) as nat)
    }

    /// The total width that had entered the buffer when the entry at
    /// position `i` of the buffer did.
    pub open spec fn start_total(self, i: int) -> int {
        self.left_total + total_width(self.buf.take(i))
    }

    /// The entry at position `i` of the buffer has the size that its token
    /// calls for: a text its length; while the size is not known, an end
    /// minus one, a break or the opening of a block the total at its
    /// arrival, negated.
    pub open spec fn sized(self, i: int) -> bool {
        let entry = self.buf[i];
        match entry.token {
            TokenView::String(text) => entry.size == text.len(),
            TokenView::End => entry.size < 0 ==> entry.size == -1,
            _ => entry.size < 0 ==> entry.size == -self.start_total(i),
        }
    }

    pub open spec fn sizes_ok(self) -> bool {
        forall|i: int| 0 <= i < self.buf.len() ==> #[trigger] self.sized(i)
    }

    /// No buffered end is without a block to close.
    pub open spec fn balanced(self) -> bool {
        forall|k: int|
            0 <= k <= self.buf.len() ==> self.print_stack.len() + #[trigger] total(
                Measure::Nesting,
                self.buf.take(k),
            ) >= 0
    }

    /// Where the entry at position `i` waits for its size and either it or
    /// the entry before it opens a block, the entry before it is a text or
    /// waits too.
    pub open spec fn seam(self, i: int) -> bool {
        self.buf[i].size < 0 && (self.buf[i].token is Begin || self.buf[i - 1].token is Begin)
            ==> self.buf[i - 1].token is String || self.buf[i - 1].size < 0
    }

    pub open spec fn seams_from(self, from: int) -> bool {
        forall|i: int| from <= i < self.buf.len() ==> #[trigger] self.seam(i)
    }

    /// The newest entry is a text or waits for its size.
    pub open spec fn tail_pending(self) -> bool {
        self.buf.last().token is String || self.buf.last().size < 0
    }

    /// What holds at every step, also in the middle of an operation.
    pub open spec fn basic(self) -> bool {
        &&& self.stack_ordered()
        &&& self.stack_pending()
        &&& self.pending_stacked()
        &&& self.sizes_ok()
        &&& self.balanced()
        &&& self.right_total == self.left_total + total_width(self.buf)
        &&& 0 <= self.left_total
        &&& self.buf.len() > 0 ==> 1 <= self.left_total
    }

    /// What holds while the buffer is drained and its oldest entry may just
    /// have been given a size by force.
    pub open spec fn draining(self) -> bool {
        &&& self.basic()
        &&& self.seams_from(2)
        &&& self.buf.len() >= 2 ==> self.tail_pending()
    }

    /// What holds once the buffer was drained as far as it can be.
    pub open spec fn steady(self) -> bool {
        &&& self.basic()
        &&& self.seams_from(1)
        &&& self.buf.len() >= 1 ==> self.tail_pending()
    }

    /// Nothing is buffered unless something waits for its size.
    pub open spec fn buffer_waits(self) -> bool {
        self.scan_stack.len() == 0 ==> self.buf.len() == 0
    }

    /// Where the oldest waiting entry opens a block, nothing older is
    /// buffered.
    pub open spec fn front_anchored(self) -> bool {
        self.scan_stack.len() > 0 && self.entry(self.scan_stack[0] as int).token is Begin
            ==> self.scan_stack[0] == self.first
    }

    pub open spec fn settled(self) -> bool {
        &&& self.buffer_waits()
        &&& self.front_anchored()
    }

    /// What holds while sizes are settled from the top of the scan stack.
    pub open spec fn settling(self) -> bool {
        &&& self.basic()
        &&& self.seams_from(1)
        &&& self.front_anchored()
    }

    /// What holds of every state between two operations of the printer.
    pub open spec fn wf(self) -> bool {
        &&& self.steady()
        &&& self.settled()
    }

    /// Every number of the state is within what `spent` allows: `spent`
    /// counts the widths and offsets of all tokens taken in so far, and one
    /// for each token.
    pub open spec fn bounded(self, spent: nat) -> bool {
        &&& self.right_total <= spent + 1
        &&& self.next_index() <= spent
        &&& self.indent + total_reach(self.buf) <= spent
        &&& forall|j: int|
            0 <= j < self.print_stack.len() ==> saved_indent(#[trigger] self.print_stack[j])
                + total_reach(self.buf) <= spent
        &&& self.pending_indentation + total_width(self.buf) <= 2 * spent
        &&& self.space <= MARGIN
        &&& self.space - total_width(self.buf) >= -spent
    }
}

/// The state of a printer that has seen nothing is well-formed.
pub proof fn lemma_initial_wf()
    ensures
        State::initial().wf(),
        State::initial().bounded(0),
        State::initial().depth() == 0,
{
    let s = State::initial();
    assert forall|k: int| 0 <= k <= s.buf.len() implies s.print_stack.len() + #[trigger] total(
        Measure::Nesting,
        s.buf.take(k),
    ) >= 0 by {
        assert(s.buf.take(k) =~= s.buf);
    }
}

} // verus!
