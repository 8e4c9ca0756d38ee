//! How the breaks of one block fall.

use crate::model::{total, Entry, State};
use crate::sums::lemma_total_take_next;
use crate::token::{BeginView, Breaks, Measure};
use vstd::prelude::*;

verus! {

impl State {
    /// The state after the entries were written, one after the other.
    pub open spec fn write(self, entries: Seq<Entry>) -> State
        decreases entries.len(),
    {
        if entries.len() == 0 {
            self
        } else {
            self.write(entries.drop_last()).print(entries.last())
        }
    }
}

/// The entries close no block but those that they open.
pub open spec fn self_contained(entries: Seq<Entry>) -> bool {
    forall|k: int| 0 <= k <= entries.len() ==> #[trigger] total(Measure::Nesting, entries.take(k)) >= 0
}

/// The entry at position `k` is a break that lies in no block that the
/// entries before it open.
pub open spec fn direct_break(entries: Seq<Entry>, k: int) -> bool {
    &&& 0 <= k < entries.len()
    &&& entries[k].token is Break
    &&& total(Measure::Nesting, entries.take(k)) == 0
}

/// Whether the break at position `k` becomes a newline when the entries are
/// written from the state `s` on.
pub open spec fn fires(s: State, entries: Seq<Entry>, k: int) -> bool {
    !s.write(entries.take(k)).break_fits(entries[k].size)
}

/// Writing entries that close no block but their own leaves the frames that
/// were there as they are, and on top of them one for each block that is
/// still open.
pub proof fn lemma_frames_kept(s: State, entries: Seq<Entry>, k: int)
    requires
        self_contained(entries),
        0 <= k <= entries.len(),
    ensures
        s.write(entries.take(k)).print_stack.len() == s.print_stack.len() + total(
            Measure::Nesting,
            entries.take(k),
        ),
        s.write(entries.take(k)).print_stack.take(s.print_stack.len() as int) == s.print_stack,
    decreases k,
{
    let base = s.print_stack.len() as int;
    if k == 0 {
        assert(entries.take(0) =~= Seq::<Entry>::empty());
        assert(s.print_stack.take(base) =~= s.print_stack);
    } else {
        lemma_frames_kept(s, entries, k - 1);
        lemma_total_take_next(Measure::Nesting, entries, k - 1);
        assert(entries.take(k).drop_last() =~= entries.take(k - 1));
        let before = s.write(entries.take(k - 1));
        let after = before.print(entries[k - 1]);
        assert(s.write(entries.take(k)) == after);
        assert(total(Measure::Nesting, entries.take(k - 1)) >= 0);
        assert(total(Measure::Nesting, entries.take(k)) >= 0);
        assert(after.print_stack.take(base) =~= before.print_stack.take(base));
    }
}

/// A break that lies directly in the block on top of the frames is decided
/// by that block's frame.
pub proof fn lemma_direct_break_frame(s: State, entries: Seq<Entry>, k: int)
    requires
        self_contained(entries),
        direct_break(entries, k),
        s.print_stack.len() > 0,
    ensures
        s.write(entries.take(k)).top() == s.top(),
{
    lemma_frames_kept(s, entries, k);
    let t = s.write(entries.take(k));
    assert(t.print_stack.take(s.print_stack.len() as int).last() == t.print_stack.last());
}

/// A block is written as one that fits exactly when its size is no more
/// than the space left on the line.
pub proof fn law_fits_by_size(s: State, begin: BeginView, size: int)
    ensures
        s.print_begin(begin, size).top() is Fits <==> size <= s.space,
        s.print_begin(begin, size).top() is Broken <==> size > s.space,
        s.print_begin(begin, size).print_stack.len() == s.print_stack.len() + 1,
{
}

/// In a consistent block the breaks that lie directly in it become newlines
/// all or none: all where the block's size is more than the space that was
/// left when it was opened, none where it is not.
pub proof fn law_consistent_block(
    s: State,
    begin: BeginView,
    size: int,
    body: Seq<Entry>,
    j: int,
    k: int,
)
    requires
        begin.breaks == Breaks::Consistent,
        self_contained(body),
        direct_break(body, j),
        direct_break(body, k),
    ensures
        fires(s.print_begin(begin, size), body, j) == fires(s.print_begin(begin, size), body, k),
        fires(s.print_begin(begin, size), body, k) == (size > s.space),
{
    let opened = s.print_begin(begin, size);
    lemma_direct_break_frame(opened, body, j);
    lemma_direct_break_frame(opened, body, k);
}

/// In a block that fits, whatever its kind, no break that lies directly in
/// it becomes a newline.
pub proof fn law_fitting_block(s: State, begin: BeginView, size: int, body: Seq<Entry>, k: int)
    requires
        size <= s.space,
        self_contained(body),
        direct_break(body, k),
    ensures
        !fires(s.print_begin(begin, size), body, k),
{
    lemma_direct_break_frame(s.print_begin(begin, size), body, k);
}

/// In an inconsistent block that does not fit, a break that lies directly
/// in it becomes a newline exactly when its own size is more than the space
/// left on the line when it is written.
pub proof fn law_inconsistent_block(
    s: State,
    begin: BeginView,
    size: int,
    body: Seq<Entry>,
    k: int,
)
    requires
        begin.breaks == Breaks::Inconsistent,
        size > s.space,
        self_contained(body),
        direct_break(body, k),
    ensures
        fires(s.print_begin(begin, size), body, k) == (body[k].size > s.print_begin(
            begin,
            size,
        ).write(body.take(k)).space),
{
    lemma_direct_break_frame(s.print_begin(begin, size), body, k);
}

impl State {
    /// The number of entries that are written when all that can be written
    /// is written out.
    pub open spec fn ready_count(self) -> nat
        decreases self.buf.len(),
    {
        if self.buf.len() > 0 && self.buf[0].size >= 0 {
            1 + self.pop_first().print(self.buf[0]).ready_count()
        } else {
            0
        }
    }

    /// This state with another buffer.
    pub open spec fn with_buffer(self, first: nat, buf: Seq<Entry>) -> State {
        State { first, buf, ..self }
    }
}

/// Writing entries neither reads nor changes the buffer.
pub proof fn lemma_write_with_buffer(s: State, first: nat, buf: Seq<Entry>, entries: Seq<Entry>)
    ensures
        s.with_buffer(first, buf).write(entries) == s.write(entries).with_buffer(first, buf),
        s.write(entries).buf == s.buf,
        s.write(entries).first == s.first,
    decreases entries.len(),
{
    if entries.len() > 0 {
        lemma_write_with_buffer(s, first, buf, entries.drop_last());
    }
}

/// Writing entries is writing the first of them and then the others.
pub proof fn lemma_write_first(s: State, entries: Seq<Entry>)
    requires
        entries.len() > 0,
    ensures
        s.write(entries) == s.print(entries[0]).write(entries.drop_first()),
    decreases entries.len(),
{
    let head = s.print(entries[0]);
    let tail = entries.drop_first();
    if entries.len() == 1 {
        assert(s.write(entries.drop_last()) == s);
        assert(head.write(tail) == head);
    } else {
        lemma_write_first(s, entries.drop_last());
        assert(entries.drop_last().drop_first() =~= tail.drop_last());
        assert(tail.last() == entries.last());
        assert(head.write(tail) == head.write(tail.drop_last()).print(tail.last()));
    }
}

/// Writing out all that can be written writes the oldest entries of the
/// buffer, in their order, and takes them out of the buffer.
pub proof fn law_advance_left_writes(s: State)
    ensures
        s.ready_count() <= s.buf.len(),
        s.advance_left() == s.write(s.buf.take(s.ready_count() as int)).with_buffer(
            s.first + s.ready_count(),
            s.buf.skip(s.ready_count() as int),
        ),
    decreases s.buf.len(),
{
    let k = s.ready_count() as int;
    if s.buf.len() > 0 && s.buf[0].size >= 0 {
        let t = s.pop_first().print(s.buf[0]);
        law_advance_left_writes(t);
        let rest = t.buf.take(k - 1);
        assert(t.buf == s.buf.drop_first());
        assert(rest =~= s.buf.take(k).drop_first());
        assert(t.buf.skip(k - 1) =~= s.buf.skip(k));
        lemma_write_first(s, s.buf.take(k));
        assert(t == s.print(s.buf[0]).with_buffer(s.first + 1, s.buf.drop_first()));
        lemma_write_with_buffer(s.print(s.buf[0]), s.first + 1, s.buf.drop_first(), rest);
    } else {
        assert(s.buf.take(0) =~= Seq::<Entry>::empty());
        assert(s.buf.skip(0) =~= s.buf);
    }
}

} // verus!
