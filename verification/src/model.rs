//! The printer as a mathematical state machine.
//!
//! A [`State`] holds what the printer holds, with integers in place of machine
//! words and sequences in place of queues. Each operation of the printer is a
//! function from state to state. The executable printer is proved to follow
//! these functions step by step.

use crate::token::{BeginView, BreakView, Breaks, Measure, TokenView};
use vstd::prelude::*;

verus! {

/// Target line width.
pub const MARGIN: isize = 79;

/// Every line is allowed at least this much space, even if highly indented.
pub const MIN_SPACE: isize = 60;

/// A size larger than any space that a line can have left. An entry of this
/// size never fits.
pub const SIZE_INFINITY: isize = 0xffff;

/// A token in the buffer, with its size. A negative size marks an entry
/// whose size is not known yet.
#[verifier::ext_equal]
pub struct Entry {
    pub token: TokenView,
    pub size: int,
}

/// A block that is being written out.
pub enum Frame {
    /// The block fits on the rest of its line; its breaks are blank space.
    Fits(Breaks),
    /// The block does not fit. The number is the indentation to go back to
    /// when the block ends.
    Broken(nat, Breaks),
}

/// The state of the printer.
#[verifier::ext_equal]
pub struct State {
    /// The text written so far.
    pub out: Seq<char>,
    /// Columns left on the current line. Negative once a line is overlong.
    pub space: int,
    /// Absolute index of the oldest buffered entry.
    pub first: nat,
    /// The buffered entries, oldest first.
    pub buf: Seq<Entry>,
    /// Total width of the tokens that left the buffer.
    pub left_total: int,
    /// Total width of the tokens that entered the buffer.
    pub right_total: int,
    /// Absolute indices of the entries whose size is not known yet, oldest
    /// first.
    pub scan_stack: Seq<nat>,
    /// The blocks being written out, outermost first.
    pub print_stack: Seq<Frame>,
    /// Indentation of the lines of the innermost broken block.
    pub indent: nat,
    /// Spaces owed before the next text on the current line.
    pub pending_indentation: nat,
}

/// `count` spaces.
pub open spec fn spaces(count: nat) -> Seq<char> {
    Seq::new(count, |i: int| ' ')
}

/// `n` with negative values raised to zero.
pub open spec fn clip(n: int) -> nat {
    if n < 0 {
        0
    } else {
        n as nat
    }
}

/// The space that a fresh line has whose text starts at `column`.
pub open spec fn line_space(column: nat) -> int {
    if MARGIN - column >= MIN_SPACE {
        MARGIN - column
    } else {
        MIN_SPACE as int
    }
}

/// What is written for a break that becomes a newline, before the
/// indentation of the next line.
pub open spec fn line_end(token: BreakView) -> Seq<char> {
    if token.trailing_comma {
        seq![',', '\n']
    } else {
        seq!['\n']
    }
}

/// The sequence without its last element; an empty sequence stays empty.
pub open spec fn without_last<A>(s: Seq<A>) -> Seq<A> {
    if s.len() > 0 {
        s.drop_last()
    } else {
        s
    }
}

/// Sum of the quantity `measure` over the tokens of `buf`.
pub open spec fn total(measure: Measure, buf: Seq<Entry>) -> int
    decreases buf.len(),
{
    if buf.len() == 0 {
        0
    } else {
        total(measure, buf.drop_last()) + buf.last().token.measure(measure)
    }
}

/// Sum of the widths of the tokens of `buf`.
pub open spec fn total_width(buf: Seq<Entry>) -> int {
    total(Measure::Width, buf)
}

/// Sum of the offsets, each taken as a distance, of the tokens of `buf`.
pub open spec fn total_reach(buf: Seq<Entry>) -> int {
    total(Measure::Reach, buf)
}

/// Number of blocks that `buf` opens, less the number that it closes.
pub open spec fn net_nesting(buf: Seq<Entry>) -> int {
    total(Measure::Nesting, buf)
}

impl State {
    /// The state of a printer that has seen nothing.
    pub open spec fn initial() -> State {
        State {
            out: Seq::empty(),
            space: MARGIN as int,
            first: 0,
            buf: Seq::empty(),
            left_total: 0,
            right_total: 0,
            scan_stack: Seq::empty(),
            print_stack: Seq::empty(),
            indent: 0,
            pending_indentation: 0,
        }
    }

    /// Absolute index that the next buffered entry gets.
    pub open spec fn next_index(self) -> nat {
        self.first + self.buf.len()
    }

    /// Whether `index` is the absolute index of a buffered entry.
    pub open spec fn live(self, index: int) -> bool {
        self.first <= index < self.next_index()
    }

    /// The buffered entry with absolute index `index`.
    pub open spec fn entry(self, index: int) -> Entry
        recommends
            self.live(index),
    {
        self.buf[index - self.first]
    }

    /// Total width of what is buffered.
    pub open spec fn buffered_width(self) -> int {
        total_width(self.buf)
    }

    /// Number of blocks that were opened and not closed yet, whether their
    /// opening was written out already or is still buffered.
    pub open spec fn depth(self) -> int {
        self.print_stack.len() + net_nesting(self.buf)
    }

    /// Whether the newest buffered token is a break or the opening of a block.
    pub open spec fn ends_in_break_or_begin(self) -> bool {
        self.buf.len() > 0 && (self.buf.last().token is Break || self.buf.last().token is Begin)
    }

    /// Whether the two newest buffered tokens are the opening of a block and
    /// a break, in this order: a block with nothing in it.
    pub open spec fn ends_in_empty_block(self) -> bool {
        self.buf.len() >= 2 && self.buf.last().token is Break && self.buf[self.buf.len()
            - 2].token is Begin
    }

    /// Whether the newest buffered token is a break that is meant only for
    /// a block with something after it.
    pub open spec fn ends_in_idle_break(self) -> bool {
        self.buf.len() > 0 && match self.buf.last().token {
            TokenView::Break(token) => token.if_nonempty,
            _ => false,
        }
    }

    // Writing out

    /// The frame that decides on breaks: the innermost open block, or, with
    /// no block open, a broken inconsistent block at indentation zero.
    pub open spec fn top(self) -> Frame {
        if self.print_stack.len() == 0 {
            Frame::Broken(0, Breaks::Inconsistent)
        } else {
            self.print_stack.last()
        }
    }

    /// Writes a text: the spaces owed, then the text.
    pub open spec fn print_string(self, text: Seq<char>) -> State {
        State {
            out: self.out + spaces(self.pending_indentation) + text,
            pending_indentation: 0,
            space: self.space - text.len(),
            ..self
        }
    }

    /// Opens a block. It is broken if its size exceeds the space left; its
    /// lines are then indented by the block's offset more, but not to the
    /// left of column zero.
    pub open spec fn print_begin(self, token: BeginView, size: int) -> State {
        if size > self.space {
            State {
                print_stack: self.print_stack.push(Frame::Broken(self.indent, token.breaks)),
                indent: clip(self.indent + token.offset),
                ..self
            }
        } else {
            State { print_stack: self.print_stack.push(Frame::Fits(token.breaks)), ..self }
        }
    }

    /// Closes the innermost block and goes back to the indentation that held
    /// before it, if the block was broken.
    pub open spec fn print_end(self) -> State {
        if self.print_stack.len() == 0 {
            self
        } else {
            match self.print_stack.last() {
                Frame::Broken(indent, _) => State {
                    print_stack: self.print_stack.drop_last(),
                    indent,
                    ..self
                },
                Frame::Fits(_) => State { print_stack: self.print_stack.drop_last(), ..self },
            }
        }
    }

    /// Whether a break of size `size` stays on the line.
    pub open spec fn break_fits(self, size: int) -> bool {
        match self.top() {
            Frame::Fits(_) => true,
            Frame::Broken(_, Breaks::Consistent) => false,
            Frame::Broken(_, Breaks::Inconsistent) => size <= self.space,
        }
    }

    /// Writes a break: blank space that is owed to the next text, or the end
    /// of the line, after which the indentation of the next line is owed.
    pub open spec fn print_break(self, token: BreakView, size: int) -> State {
        if self.break_fits(size) {
            State {
                pending_indentation: self.pending_indentation + token.blank_space,
                space: self.space - token.blank_space,
                ..self
            }
        } else {
            let column = clip(self.indent + token.offset);
            State {
                out: self.out + line_end(token),
                pending_indentation: column,
                space: line_space(column),
                ..self
            }
        }
    }

    /// Writes one buffered entry that has left the buffer.
    pub open spec fn print(self, entry: Entry) -> State {
        match entry.token {
            TokenView::String(text) => State {
                left_total: self.left_total + text.len(),
                ..self
            }.print_string(text),
            TokenView::Break(token) => State {
                left_total: self.left_total + token.blank_space,
                ..self
            }.print_break(token, entry.size),
            TokenView::Begin(token) => self.print_begin(token, entry.size),
            TokenView::End => self.print_end(),
        }
    }

    /// Takes the oldest entry out of the buffer.
    pub open spec fn pop_first(self) -> State {
        State { buf: self.buf.drop_first(), first: self.first + 1, ..self }
    }

    /// Writes out the buffered entries, oldest first, up to the first whose
    /// size is not known yet.
    pub open spec fn advance_left(self) -> State
        decreases self.buf.len(),
    {
        if self.buf.len() == 0 || self.buf[0].size < 0 {
            self
        } else {
            self.pop_first().print(self.buf[0]).advance_left()
        }
    }

    // Taking in

    /// Gives the buffered entry with absolute index `index` the size `size`.
    pub open spec fn resize(self, index: int, size: int) -> State {
        State {
            buf: self.buf.update(
                index - self.first,
                Entry { token: self.entry(index).token, size },
            ),
            ..self
        }
    }

    /// Takes the newest index off the scan stack.
    pub open spec fn pop_scan(self) -> State {
        State { scan_stack: without_last(self.scan_stack), ..self }
    }

    /// Settles the sizes of the newest entries of the scan stack. An end
    /// gets size one and takes the walk one block deeper. The opening of a
    /// block and a break get as size the width that entered the buffer since
    /// they did. The walk stops before the opening of a block that is not
    /// closed, and after a break that lies in no closed block.
    pub open spec fn check_stack(self, depth: nat) -> State
        decreases self.scan_stack.len(),
    {
        if self.scan_stack.len() == 0 {
            self
        } else {
            let index = self.scan_stack.last() as int;
            let entry = self.entry(index);
            match entry.token {
                TokenView::Begin(_) => {
                    if depth == 0 {
                        self
                    } else {
                        self.pop_scan().resize(index, entry.size + self.right_total).check_stack(
                            (depth - 1) as nat,
                        )
                    }
                },
                TokenView::End => self.pop_scan().resize(index, 1).check_stack(depth + 1),
                TokenView::Break(_) => {
                    let settled = self.pop_scan().resize(index, entry.size + self.right_total);
                    if depth == 0 {
                        settled
                    } else {
                        settled.check_stack(depth)
                    }
                },
                TokenView::String(_) => self,
            }
        }
    }

    /// Whether more is buffered than the line has space for.
    pub open spec fn overfull(self) -> bool {
        self.right_total - self.left_total > self.space
    }

    /// Gives the oldest buffered entry the size that never fits, if its
    /// size is not known yet.
    pub open spec fn force_first(self) -> State {
        if self.scan_stack.len() > 0 && self.scan_stack[0] == self.first {
            State { scan_stack: self.scan_stack.drop_first(), ..self }.resize(
                self.first as int,
                SIZE_INFINITY as int,
            )
        } else {
            self
        }
    }

    /// Writes out buffered entries for as long as more is buffered than the
    /// line has space for. Where the oldest entry's size is not known by
    /// then, it does not fit.
    pub open spec fn check_stream(self) -> State
        decreases self.buf.len(),
    {
        if self.overfull() && self.buf.len() > 0 {
            let drained = self.force_first().advance_left();
            if 0 < drained.buf.len() < self.buf.len() {
                drained.check_stream()
            } else {
                drained
            }
        } else {
            self
        }
    }

    /// Starts the totals afresh and empties the buffer.
    pub open spec fn rebase(self) -> State {
        State { left_total: 1, right_total: 1, buf: Seq::empty(), ..self }
    }

    /// Appends an entry to the buffer.
    pub open spec fn push(self, token: TokenView, size: int) -> State {
        State { buf: self.buf.push(Entry { token, size }), ..self }
    }

    /// Appends an entry whose size is not known yet.
    pub open spec fn push_pending(self, token: TokenView, size: int) -> State {
        State {
            buf: self.buf.push(Entry { token, size }),
            scan_stack: self.scan_stack.push(self.next_index()),
            ..self
        }
    }

    /// Takes the newest entry, a break, out of the buffer again.
    pub open spec fn drop_break(self) -> State {
        State {
            buf: self.buf.drop_last(),
            scan_stack: without_last(self.scan_stack),
            right_total: self.right_total - self.buf.last().token.width(),
            ..self
        }
    }

    /// Takes the newest entry, the opening of a block, out of the buffer
    /// again.
    pub open spec fn drop_begin(self) -> State {
        State {
            buf: self.buf.drop_last(),
            scan_stack: without_last(self.scan_stack),
            ..self
        }
    }

    /// A text arrives. With nothing pending it is written at once.
    pub open spec fn scan_string(self, text: Seq<char>) -> State {
        if self.scan_stack.len() == 0 {
            self.print_string(text)
        } else {
            State {
                right_total: self.right_total + text.len(),
                ..self.push(TokenView::String(text), text.len() as int)
            }.check_stream()
        }
    }

    /// A block opens.
    pub open spec fn scan_begin(self, token: BeginView) -> State {
        let based = if self.scan_stack.len() == 0 {
            self.rebase()
        } else {
            self
        };
        based.push_pending(TokenView::Begin(token), -based.right_total)
    }

    /// A block closes. A block with nothing but a break in it leaves the
    /// buffer again and is never written. A break right before the end that
    /// is there only for a block with something in it leaves the buffer too.
    pub open spec fn scan_end(self) -> State {
        if self.scan_stack.len() == 0 {
            self.print_end()
        } else if self.ends_in_empty_block() {
            self.drop_break().drop_begin()
        } else {
            let trimmed = if self.ends_in_idle_break() {
                self.drop_break()
            } else {
                self
            };
            trimmed.push_pending(TokenView::End, -1)
        }
    }

    /// A break arrives.
    pub open spec fn scan_break(self, token: BreakView) -> State {
        let settled = if self.scan_stack.len() == 0 {
            self.rebase()
        } else {
            self.check_stack(0)
        };
        State {
            right_total: settled.right_total + token.blank_space,
            ..settled.push_pending(TokenView::Break(token), -settled.right_total)
        }
    }

    /// Moves the offset of the newest buffered token by `delta`, if that
    /// token is a break.
    pub open spec fn offset(self, delta: int) -> State {
        if self.buf.len() == 0 {
            self
        } else {
            match self.buf.last().token {
                TokenView::Break(token) => State {
                    buf: self.buf.update(
                        self.buf.len() - 1,
                        Entry {
                            token: TokenView::Break(
                                BreakView { offset: token.offset + delta, ..token },
                            ),
                            size: self.buf.last().size,
                        },
                    ),
                    ..self
                },
                _ => self,
            }
        }
    }

    /// The end of the input: what can still be settled is settled and
    /// written out.
    pub open spec fn finish(self) -> State {
        if self.scan_stack.len() > 0 {
            self.check_stack(0).advance_left()
        } else {
            self
        }
    }

    /// The text that the printer hands out at the end of the input.
    pub open spec fn eof(self) -> Seq<char> {
        self.finish().out
    }
}

/// What a driver can do to the printer.
pub enum Op {
    /// Hand it a text.
    String(Seq<char>),
    /// Hand it a break.
    Break(BreakView),
    /// Open a block.
    Begin(BeginView),
    /// Close the innermost open block.
    End,
    /// Move the offset of the newest break.
    Offset(int),
}

impl State {
    /// The state after `op`.
    pub open spec fn apply(self, op: Op) -> State {
        match op {
            Op::String(text) => self.scan_string(text),
            Op::Break(token) => self.scan_break(token),
            Op::Begin(token) => self.scan_begin(token),
            Op::End => self.scan_end(),
            Op::Offset(delta) => self.offset(delta),
        }
    }

    /// Whether the driver may do `op` in this state: an end needs an open
    /// block, and an offset a break or the opening of a block as the newest
    /// token.
    pub open spec fn admits(self, op: Op) -> bool {
        match op {
            Op::End => self.depth() > 0,
            Op::Offset(_) => self.ends_in_break_or_begin(),
            _ => true,
        }
    }

    /// Whether `op` starts the totals afresh.
    pub open spec fn rebases(self, op: Op) -> bool {
        self.scan_stack.len() == 0 && (op is Begin || op is Break)
    }

    /// The state after the operations `ops`, one after the other.
    pub open spec fn run(self, ops: Seq<Op>) -> State
        decreases ops.len(),
    {
        if ops.len() == 0 {
            self
        } else {
            self.run(ops.drop_last()).apply(ops.last())
        }
    }

    /// Whether the driver may do the operations `ops`, one after the other.
    pub open spec fn admits_all(self, ops: Seq<Op>) -> bool
        decreases ops.len(),
    {
        ops.len() > 0 ==> self.admits_all(ops.drop_last()) && self.run(ops.drop_last()).admits(
            ops.last(),
        )
    }
}

/// The text that comes out of a fresh printer after the operations `ops`.
pub open spec fn render(ops: Seq<Op>) -> Seq<char> {
    State::initial().run(ops).eof()
}

} // verus!
