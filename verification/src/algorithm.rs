//! The printer.

use crate::fitting::{law_fitted_initial, law_fitted_step};
use crate::draining::{
    lemma_advance_left, lemma_force_first, lemma_step_basic, lemma_step_bounded, lemma_step_frame,
};
use crate::balance::{law_balance, law_nested_initial, law_nested_step};
use crate::laws::{law_snug_initial, law_snug_step};
use crate::model::{spaces, Entry, Frame, Op, State, MARGIN, MIN_SPACE, SIZE_INFINITY};
use crate::ring::RingBuffer;
use crate::scanning::{
    lemma_append, lemma_offset, lemma_rebase, lemma_scan_begin, lemma_scan_break, lemma_scan_end,
    lemma_scan_string,
};
use crate::settling::{lemma_check_stack, lemma_same_but_sizes, lemma_settle_top, lemma_settled_size};
use crate::sums::{lemma_total_bounds, lemma_total_nonnegative};
use crate::token::{
    magnitude, magnitude_of, text_width, BeginToken, BreakToken, Breaks, Measure, Token, TokenView,
};
use crate::wellformed::lemma_initial_wf;
use std::borrow::Cow;
use std::collections::VecDeque;
use vstd::prelude::*;
use vstd::string::StringExecFns;

verus! {

#[derive(Copy, Clone)]
enum PrintFrame {
    Fits(Breaks),
    Broken(usize, Breaks),
}

impl View for PrintFrame {
    type V = Frame;

    closed spec fn view(&self) -> Frame {
        match self {
            PrintFrame::Fits(breaks) => Frame::Fits(*breaks),
            PrintFrame::Broken(indent, breaks) => Frame::Broken(*indent as nat, *breaks),
        }
    }
}

struct BufEntry {
    token: Token,
    size: isize,
}

impl View for BufEntry {
    type V = Entry;

    closed spec fn view(&self) -> Entry {
        Entry { token: self.token@, size: self.size as int }
    }
}

/// The most that a printer can take in: the sum, over all tokens handed to
/// it, of the token's width, the distance of its offset, and one.
pub open spec fn capacity() -> nat {
    (isize::MAX / 2) as nat
}

/// A pretty printer. Tokens go in through the `scan_` operations; the text
/// comes out of [`Printer::eof`].
pub struct Printer {
    out: String,
    // Number of spaces left on line
    space: isize,
    // Ring-buffer of tokens and calculated sizes
    buf: RingBuffer<BufEntry>,
    // Running size of stream "...left"
    left_total: isize,
    // Running size of stream "...right"
    right_total: isize,
    // Pseudo-stack, really a ring too. Holds the primary-ring-buffers index of
    // the Begin that started the current block, possibly with the most recent
    // Break after that Begin (if there is any) on top of it. Stuff is flushed
    // off the bottom as it becomes irrelevant due to the primary ring-buffer
    // advancing.
    scan_stack: VecDeque<usize>,
    // Stack of blocks-in-progress being flushed by print
    print_stack: Vec<PrintFrame>,
    // Level of indentation of current line
    indent: usize,
    // Buffered indentation to avoid writing trailing whitespace
    pending_indentation: usize,
    // What the tokens taken in so far have used of the capacity
    spent: usize,
    // Number of blocks that were opened and not closed yet
    open: usize,
}

impl View for Printer {
    type V = State;

    closed spec fn view(&self) -> State {
        State {
            out: self.out@,
            space: self.space as int,
            first: self.buf.first_index(),
            buf: self.buf@.map_values(|entry: BufEntry| entry@),
            left_total: self.left_total as int,
            right_total: self.right_total as int,
            scan_stack: self.scan_stack@.map_values(|index: usize| index as nat),
            print_stack: self.print_stack@.map_values(|frame: PrintFrame| frame@),
            indent: self.indent as nat,
            pending_indentation: self.pending_indentation as nat,
        }
    }
}

impl Printer {
    /// What the tokens taken in so far have used of the capacity.
    pub closed spec fn spent(&self) -> nat {
        self.spent as nat
    }

    /// The printer has counted the blocks that are open.
    pub closed spec fn counted(&self) -> bool {
        &&& self.open as int == self@.depth()
        &&& self.open <= self.spent
    }

    /// The printer is in a state that it can reach, and within its
    /// capacity.
    pub open spec fn wf(&self) -> bool {
        &&& self@.wf()
        &&& self@.nested()
        &&& self@.snug()
        &&& self@.fitted()
        &&& self@.bounded(self.spent())
        &&& self.spent() <= capacity()
        &&& self.counted()
    }

    /// What holds between two rounds of writing out: the state is
    /// well-formed and within capacity.
    spec fn orderly(&self) -> bool {
        &&& self@.wf()
        &&& self@.bounded(self.spent())
        &&& self.spent() <= capacity()
    }

    /// What the private operations need: the state is in order as far as
    /// every step keeps it, and within capacity.
    spec fn sound(&self) -> bool {
        &&& self@.basic()
        &&& self@.bounded(self.spent())
        &&& self.spent() <= capacity()
    }

    pub fn new() -> (printer: Self)
        ensures
            printer.wf(),
            printer@ == State::initial(),
            printer.spent() == 0,
    {
        let printer = Printer {
            out: String::new(),
            space: MARGIN,
            buf: RingBuffer::new(),
            left_total: 0,
            right_total: 0,
            scan_stack: VecDeque::new(),
            print_stack: Vec::new(),
            indent: 0,
            pending_indentation: 0,
            spent: 0,
            open: 0,
        };
        proof {
            lemma_initial_wf();
            law_nested_initial();
            law_snug_initial();
            law_fitted_initial();
            assert(printer@ =~= State::initial());
        }
        printer
    }

    /// What is left of the capacity.
    pub fn room(&self) -> (room: usize)
        requires
            self.wf(),
        ensures
            room == capacity() - self.spent(),
    {
        (isize::MAX / 2) as usize - self.spent
    }

    /// The number of blocks that were opened and not closed yet.
    pub fn open_blocks(&self) -> (open: usize)
        requires
            self.wf(),
        ensures
            open == self@.depth(),
    {
        self.open
    }

    /// Whether the newest buffered token is a break or the opening of a
    /// block, so that its offset can be moved.
    pub fn ends_in_break_or_begin(&self) -> (ends: bool)
        ensures
            ends == self@.ends_in_break_or_begin(),
    {
        if self.buf.len() == 0 {
            false
        } else {
            match self.buf.last().token {
                Token::Break(_) | Token::Begin(_) => true,
                Token::String(_) | Token::End => false,
            }
        }
    }

    fn get_top(&self) -> (frame: PrintFrame)
        ensures
            frame@ == self@.top(),
    {
        if self.print_stack.len() == 0 {
            PrintFrame::Broken(0, Breaks::Inconsistent)
        } else {
            self.print_stack[self.print_stack.len() - 1]
        }
    }

    fn print_begin(&mut self, token: BeginToken, size: isize)
        requires
            old(self)@.indent + magnitude(token@.offset) <= isize::MAX,
        ensures
            final(self)@ == old(self)@.print_begin(token@, size as int),
            final(self).spent() == old(self).spent(),
            final(self).open == old(self).open,
    {
        if size > self.space {
            self.print_stack.push(PrintFrame::Broken(self.indent, token.breaks));
            let indent = self.indent as isize + token.offset;
            self.indent = if indent < 0 {
                0
            } else {
                indent as usize
            };
        } else {
            self.print_stack.push(PrintFrame::Fits(token.breaks));
        }
        assert(self@ =~= old(self)@.print_begin(token@, size as int));
    }

    fn print_end(&mut self)
        requires
            old(self)@.print_stack.len() > 0,
        ensures
            final(self)@ == old(self)@.print_end(),
            final(self).spent() == old(self).spent(),
            final(self).open == old(self).open,
    {
        match self.print_stack.pop() {
            Some(PrintFrame::Broken(indent, _)) => {
                self.indent = indent;
            },
            Some(PrintFrame::Fits(_)) => {},
            None => {},
        }
        assert(self@ =~= old(self)@.print_end());
    }

    fn print_break(&mut self, token: BreakToken, size: isize)
        requires
            old(self)@.indent + magnitude(token@.offset) <= isize::MAX,
            old(self)@.pending_indentation + token@.blank_space <= isize::MAX,
            old(self)@.space - token@.blank_space >= isize::MIN,
        ensures
            final(self)@ == old(self)@.print_break(token@, size as int),
            final(self).spent() == old(self).spent(),
            final(self).open == old(self).open,
    {
        let fits = match self.get_top() {
            PrintFrame::Fits(_) => true,
            PrintFrame::Broken(_, Breaks::Consistent) => false,
            PrintFrame::Broken(_, Breaks::Inconsistent) => size <= self.space,
        };
        if fits {
            self.pending_indentation += token.blank_space;
            self.space -= token.blank_space as isize;
        } else {
            if token.trailing_comma {
                proof {
                    reveal_strlit(",");
                }
                self.out.append(",");
            }
            proof {
                reveal_strlit("\n");
            }
            self.out.append("\n");
            let indent = self.indent as isize + token.offset;
            let column: isize = if indent < 0 {
                0
            } else {
                indent
            };
            self.pending_indentation = column as usize;
            self.space = if MARGIN - column >= MIN_SPACE {
                MARGIN - column
            } else {
                MIN_SPACE
            };
        }
        assert(self@ =~= old(self)@.print_break(token@, size as int));
    }

    fn print_string(&mut self, string: Cow<'static, str>)
        requires
            old(self)@.space - string@.len() >= isize::MIN,
            string@.len() <= isize::MAX,
        ensures
            final(self)@ == old(self)@.print_string(string@),
            final(self).spent() == old(self).spent(),
            final(self).open == old(self).open,
    {
        let mut written: usize = 0;
        while written < self.pending_indentation
            invariant
                written <= self.pending_indentation,
                self.out@ == old(self).out@ + spaces(written as nat),
                self.space == old(self).space,
                self.buf == old(self).buf,
                self.left_total == old(self).left_total,
                self.right_total == old(self).right_total,
                self.scan_stack == old(self).scan_stack,
                self.print_stack == old(self).print_stack,
                self.indent == old(self).indent,
                self.pending_indentation == old(self).pending_indentation,
                self.spent == old(self).spent,
                self.open == old(self).open,
            decreases self.pending_indentation - written,
        {
            proof {
                reveal_strlit(" ");
            }
            self.out.append(" ");
            written += 1;
            assert(self.out@ =~= old(self).out@ + spaces(written as nat));
        }
        self.pending_indentation = 0;
        let width = text_width(&string);
        match &string {
            Cow::Borrowed(text) => self.out.append(text),
            Cow::Owned(text) => self.out.append(text.as_str()),
        }
        self.space -= width as isize;
        assert(self@ =~= old(self)@.print_string(string@));
    }
}

impl Printer {
    fn advance_left(&mut self)
        requires
            old(self).sound(),
            old(self)@.buf.len() > 0,
        ensures
            final(self)@ == old(self)@.advance_left(),
            final(self).spent() == old(self).spent(),
            final(self).open == old(self).open,
    {
        while self.buf.first().size >= 0
            invariant_except_break
                self.sound(),
                self@.buf.len() > 0,
                self@.buf[0].size == self.buf@[0].size,
                self@.advance_left() == old(self)@.advance_left(),
                self.spent() == old(self).spent(),
                self.open == old(self).open,
            ensures
                self@ == old(self)@.advance_left(),
                self.spent() == old(self).spent(),
                self.open == old(self).open,
            decreases self@.buf.len(),
        {
            let ghost before = self@;
            proof {
                lemma_step_frame(before);
                lemma_step_basic(before);
                lemma_step_bounded(before, self.spent());
                lemma_total_bounds(Measure::Width, before.buf, 0);
                lemma_total_bounds(Measure::Reach, before.buf, 0);
                lemma_total_nonnegative(Measure::Width, before.buf);
                lemma_total_nonnegative(Measure::Reach, before.buf);
            }
            let left = self.buf.pop_first();
            assert(self@ =~= before.pop_first());
            assert(left@ == before.buf[0]);

            match left.token {
                Token::String(string) => {
                    self.left_total += text_width(&string) as isize;
                    self.print_string(string);
                },
                Token::Break(token) => {
                    self.left_total += token.blank_space as isize;
                    self.print_break(token, left.size);
                },
                Token::Begin(token) => self.print_begin(token, left.size),
                Token::End => self.print_end(),
            }
            assert(self@ == before.step());

            if self.buf.is_empty() {
                assert(self@.advance_left() == self@);
                break;
            }
        }
    }

    fn check_stack(&mut self, depth: usize)
        requires
            old(self)@.settling(),
            old(self)@.bounded(old(self).spent()),
            old(self).spent() <= capacity(),
            depth + old(self)@.scan_stack.len() <= usize::MAX,
        ensures
            final(self)@ == old(self)@.check_stack(depth as nat),
            final(self).spent() == old(self).spent(),
            final(self).open == old(self).open,
    {
        let mut depth = depth;
        let ghost target = self@.check_stack(depth as nat);
        loop
            invariant_except_break
                self@.settling(),
                self@.bounded(self.spent()),
                self.spent() <= capacity(),
                depth + self@.scan_stack.len() <= usize::MAX,
                self@.check_stack(depth as nat) == target,
                self.spent() == old(self).spent(),
                self.open == old(self).open,
            ensures
                self@ == target,
                self.spent() == old(self).spent(),
                self.open == old(self).open,
            decreases self@.scan_stack.len(),
        {
            if self.scan_stack.len() == 0 {
                break;
            }
            let ghost before = self@;
            let index = self.scan_stack[self.scan_stack.len() - 1];
            assert(before.scan_stack.last() == index);
            assert(before.live(before.scan_stack[before.scan_stack.len() - 1] as int));
            let (settled, last): (isize, bool) = match self.buf.index(index).token {
                Token::Begin(_) => {
                    if depth == 0 {
                        break;
                    }
                    depth -= 1;
                    proof {
                        lemma_settled_size(before, index - before.first);
                        lemma_total_nonnegative(Measure::Width, before.buf);
                    }
                    (self.buf.index(index).size + self.right_total, false)
                },
                Token::End => {
                    depth += 1;
                    (1, false)
                },
                Token::Break(_) => {
                    proof {
                        lemma_settled_size(before, index - before.first);
                        lemma_total_nonnegative(Measure::Width, before.buf);
                    }
                    (self.buf.index(index).size + self.right_total, depth == 0)
                },
                Token::String(_) => {
                    break;
                },
            };
            let _ = self.scan_stack.pop_back();
            self.buf.index_mut(index).size = settled;
            proof {
                assert(self@ =~= before.settle_top(settled as int));
                lemma_settle_top(before, settled as int);
                lemma_same_but_sizes(before, self@, self.spent());
            }
            if last {
                break;
            }
        }
    }
}

impl Printer {
    fn check_stream(&mut self)
        requires
            old(self).orderly(),
            old(self)@.buf.len() > 0,
        ensures
            final(self)@ == old(self)@.check_stream(),
            final(self).spent() == old(self).spent(),
            final(self).open == old(self).open,
    {
        let ghost target = self@.check_stream();
        proof {
            lemma_total_nonnegative(Measure::Width, self@.buf);
        }
        while self.right_total - self.left_total > self.space
            invariant_except_break
                self.orderly(),
                0 <= self.left_total <= self.right_total,
                self@.buf.len() > 0,
                self@.check_stream() == target,
                self.spent() == old(self).spent(),
                self.open == old(self).open,
            ensures
                self@ == target,
                self.spent() == old(self).spent(),
                self.open == old(self).open,
            decreases self@.buf.len(),
        {
            let ghost before = self@;
            proof {
                lemma_total_nonnegative(Measure::Width, before.buf);
                lemma_force_first(before, self.spent());
                lemma_advance_left(before.force_first(), self.spent());
            }
            if self.scan_stack[0] == self.buf.index_of_first() {
                let _ = self.scan_stack.pop_front();
                self.buf.first_mut().size = SIZE_INFINITY;
            }
            assert(self@ =~= before.force_first());

            self.advance_left();

            if self.buf.is_empty() {
                break;
            }
            proof {
                lemma_total_nonnegative(Measure::Width, self@.buf);
            }
        }
    }

    /// The end of the input. What is still buffered is written out as far
    /// as its sizes can be settled, and the text is handed out.
    pub fn eof(self) -> (out: String)
        requires
            self.wf(),
        ensures
            out@ == self@.eof(),
            self@.depth() == 0 ==> {
                &&& self@.finish().buf.len() == 0
                &&& self@.finish().scan_stack.len() == 0
                &&& self@.finish().print_stack.len() == 0
            },
    {
        proof {
            if self@.depth() == 0 {
                law_balance(self@, self.spent());
            }
        }
        let mut printer = self;
        if printer.scan_stack.len() != 0 {
            proof {
                assert(printer@.live(printer@.scan_stack[0] as int));
                lemma_check_stack(printer@, 0);
                lemma_same_but_sizes(printer@, printer@.check_stack(0), printer.spent());
            }
            printer.check_stack(0);
            printer.advance_left();
        }
        printer.out
    }

    /// Opens a block.
    pub fn scan_begin(&mut self, token: BeginToken)
        requires
            old(self).wf(),
            old(self).spent() + TokenView::Begin(token@).cost() <= capacity(),
        ensures
            final(self).wf(),
            final(self)@ == old(self)@.scan_begin(token@),
            final(self).spent() == old(self).spent() + TokenView::Begin(token@).cost(),
            final(self)@.depth() == old(self)@.depth() + 1,
            final(self)@.ends_in_break_or_begin(),
            old(self)@.scan_stack.len() == 0 ==> final(self)@.left_total == 1,
            old(self)@.scan_stack.len() == 0 ==> final(self)@.right_total == 1,
    {
        proof {
            lemma_scan_begin(self@, token@, self.spent());
            law_nested_step(self@, Op::Begin(token@), self.spent());
            law_snug_step(self@, Op::Begin(token@), self.spent());
            law_fitted_step(self@, Op::Begin(token@), self.spent());
            if self@.scan_stack.len() == 0 {
                lemma_rebase(self@, self.spent());
            }
        }
        if self.scan_stack.len() == 0 {
            self.left_total = 1;
            self.right_total = 1;
            self.buf.clear();
        }
        let right = self.buf.push(BufEntry { token: Token::Begin(token), size: -self.right_total });
        self.scan_stack.push_back(right);
        self.spent = self.spent + magnitude_of(token.offset) + 1;
        self.open = self.open + 1;
        assert(self@ =~= old(self)@.scan_begin(token@));
    }

    /// Closes the innermost open block.
    pub fn scan_end(&mut self)
        requires
            old(self).wf(),
            old(self)@.depth() > 0,
            old(self).spent() + TokenView::End.cost() <= capacity(),
        ensures
            final(self).wf(),
            final(self)@ == old(self)@.scan_end(),
            final(self).spent() == old(self).spent() + TokenView::End.cost(),
            final(self)@.depth() == old(self)@.depth() - 1,
    {
        proof {
            lemma_scan_end(self@, self.spent());
            law_nested_step(self@, Op::End, self.spent());
            law_snug_step(self@, Op::End, self.spent());
            law_fitted_step(self@, Op::End, self.spent());
            lemma_total_nonnegative(Measure::Width, self@.buf);
        }
        self.spent = self.spent + 1;
        self.open = self.open - 1;
        if self.scan_stack.len() == 0 {
            self.print_end();
        } else {
            if self.buf.len() >= 1 {
                if let Token::Break(break_token) = self.buf.last().token {
                    proof {
                        lemma_total_bounds(Measure::Width, old(self)@.buf, old(self)@.buf.len() - 1);
                    }
                    if self.buf.len() >= 2 {
                        if let Token::Begin(_) = self.buf.second_last().token {
                            self.buf.pop_last();
                            self.buf.pop_last();
                            let _ = self.scan_stack.pop_back();
                            let _ = self.scan_stack.pop_back();
                            self.right_total -= break_token.blank_space as isize;
                            assert(self@ =~= old(self)@.scan_end());
                            return ;
                        }
                    }
                    if break_token.if_nonempty {
                        self.buf.pop_last();
                        let _ = self.scan_stack.pop_back();
                        self.right_total -= break_token.blank_space as isize;
                    }
                }
            }
            let right = self.buf.push(BufEntry { token: Token::End, size: -1 });
            self.scan_stack.push_back(right);
            assert(self@ =~= old(self)@.scan_end());
        }
    }

    /// Takes in a break.
    pub fn scan_break(&mut self, token: BreakToken)
        requires
            old(self).wf(),
            old(self).spent() + TokenView::Break(token@).cost() <= capacity(),
        ensures
            final(self).wf(),
            final(self)@ == old(self)@.scan_break(token@),
            final(self).spent() == old(self).spent() + TokenView::Break(token@).cost(),
            final(self)@.depth() == old(self)@.depth(),
            final(self)@.ends_in_break_or_begin(),
            old(self)@.scan_stack.len() == 0 ==> final(self)@.left_total == 1,
            old(self)@.scan_stack.len() == 0 ==> final(self)@.right_total == 1 + token.blank_space,
    {
        proof {
            lemma_scan_break(self@, token@, self.spent());
            law_nested_step(self@, Op::Break(token@), self.spent());
            law_snug_step(self@, Op::Break(token@), self.spent());
            law_fitted_step(self@, Op::Break(token@), self.spent());
            if self@.scan_stack.len() == 0 {
                lemma_rebase(self@, self.spent());
            } else {
                assert(self@.live(self@.scan_stack[0] as int));
                lemma_check_stack(self@, 0);
                lemma_same_but_sizes(self@, self@.check_stack(0), self.spent());
            }
        }
        if self.scan_stack.len() == 0 {
            self.left_total = 1;
            self.right_total = 1;
            self.buf.clear();
        } else {
            self.check_stack(0);
        }
        let right = self.buf.push(BufEntry { token: Token::Break(token), size: -self.right_total });
        self.scan_stack.push_back(right);
        self.right_total += token.blank_space as isize;
        self.spent = self.spent + token.blank_space + magnitude_of(token.offset) + 1;
        assert(self@ =~= old(self)@.scan_break(token@));
    }

    /// Takes in a text.
    pub fn scan_string(&mut self, string: Cow<'static, str>)
        requires
            old(self).wf(),
            old(self).spent() + TokenView::String(string@).cost() <= capacity(),
        ensures
            final(self).wf(),
            final(self)@ == old(self)@.scan_string(string@),
            final(self).spent() == old(self).spent() + TokenView::String(string@).cost(),
            final(self)@.depth() == old(self)@.depth(),
            final(self)@.buf.len() == 0 || !final(self)@.overfull(),
    {
        let ghost cost = TokenView::String(string@).cost();
        proof {
            lemma_scan_string(self@, string@, self.spent());
            law_nested_step(self@, Op::String(string@), self.spent());
            law_snug_step(self@, Op::String(string@), self.spent());
            law_fitted_step(self@, Op::String(string@), self.spent());
        }
        if self.scan_stack.len() == 0 {
            self.spent = self.spent + text_width(&string) + 1;
            self.print_string(string);
        } else {
            let len = text_width(&string) as isize;
            proof {
                assert(self@.live(self@.scan_stack[0] as int));
                lemma_append(self@, TokenView::String(string@), len as int, self.spent());
            }
            self.buf.push(BufEntry { token: Token::String(string), size: len });
            self.right_total += len;
            self.spent = self.spent + len as usize + 1;
            assert(self@ =~= old(self)@.append(TokenView::String(string@), len as int));
            self.check_stream();
        }
    }

    /// Moves the offset of the newest token by `offset`, if that token is a
    /// break. The newest token must be a break or the opening of a block.
    pub fn offset(&mut self, offset: isize)
        requires
            old(self).wf(),
            old(self)@.ends_in_break_or_begin(),
            old(self).spent() + magnitude(offset as int) <= capacity(),
        ensures
            final(self).wf(),
            final(self)@ == old(self)@.offset(offset as int),
            final(self).spent() == old(self).spent() + magnitude(offset as int),
            final(self)@.depth() == old(self)@.depth(),
            final(self)@.ends_in_break_or_begin(),
    {
        proof {
            lemma_offset(self@, offset as int, self.spent());
            law_nested_step(self@, Op::Offset(offset as int), self.spent());
            law_snug_step(self@, Op::Offset(offset as int), self.spent());
            law_fitted_step(self@, Op::Offset(offset as int), self.spent());
            lemma_total_bounds(Measure::Reach, self@.buf, self@.buf.len() - 1);
        }
        self.spent = self.spent + magnitude_of(offset);
        match &mut self.buf.last_mut().token {
            Token::Break(token) => {
                token.offset += offset;
            },
            Token::Begin(_) => {},
            Token::String(_) | Token::End => {},
        }
        assert(self@ =~= old(self)@.offset(offset as int));
    }
}

} // verus!
