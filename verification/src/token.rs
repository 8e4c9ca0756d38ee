//! The four kinds of token that a driver hands to the printer.

use std::borrow::Cow;
use vstd::prelude::*;
use vstd::string::StrSliceExecFns;

verus! {

/// How the breaks of one block relate to each other.
#[derive(Clone, Copy, PartialEq, Eq, Structural)]
pub enum Breaks {
    /// If one break of the block becomes a newline, all of them do.
    Consistent,
    /// Each break of the block decides for itself.
    Inconsistent,
}

/// A break-opportunity.
#[derive(Clone, Copy)]
pub struct BreakToken {
    /// Added to the block's indentation when the break becomes a newline.
    pub offset: isize,
    /// Number of spaces the break stands for when it does not.
    pub blank_space: usize,
    /// Whether a comma is written before the newline.
    pub trailing_comma: bool,
    /// Whether the break is dropped when it is the last thing before the
    /// end of its block.
    pub if_nonempty: bool,
}

/// The opening of a block.
#[derive(Clone, Copy)]
pub struct BeginToken {
    /// Extra indentation of the block's lines when the block is broken.
    pub offset: isize,
    /// The break policy of the block.
    pub breaks: Breaks,
}

/// A formatting token.
pub enum Token {
    /// Text to be written as it is.
    String(Cow<'static, str>),
    /// A break-opportunity.
    Break(BreakToken),
    /// The opening of a block.
    Begin(BeginToken),
    /// The end of the innermost open block.
    End,
}

/// A break-opportunity, as the model sees it.
pub struct BreakView {
    pub offset: int,
    pub blank_space: nat,
    pub trailing_comma: bool,
    pub if_nonempty: bool,
}

/// The opening of a block, as the model sees it.
pub struct BeginView {
    pub offset: int,
    pub breaks: Breaks,
}

/// A token, as the model sees it.
pub enum TokenView {
    String(Seq<char>),
    Break(BreakView),
    Begin(BeginView),
    End,
}

impl View for BreakToken {
    type V = BreakView;

    open spec fn view(&self) -> BreakView {
        BreakView {
            offset: self.offset as int,
            blank_space: self.blank_space as nat,
            trailing_comma: self.trailing_comma,
            if_nonempty: self.if_nonempty,
        }
    }
}

impl View for BeginToken {
    type V = BeginView;

    open spec fn view(&self) -> BeginView {
        BeginView { offset: self.offset as int, breaks: self.breaks }
    }
}

impl View for Token {
    type V = TokenView;

    open spec fn view(&self) -> TokenView {
        match self {
            Token::String(text) => TokenView::String(text@),
            Token::Break(token) => TokenView::Break(token@),
            Token::Begin(token) => TokenView::Begin(token@),
            Token::End => TokenView::End,
        }
    }
}

/// The absolute value of an integer.
pub open spec fn magnitude(n: int) -> nat {
    if n < 0 {
        (-n) as nat
    } else {
        n as nat
    }
}

/// A quantity that every token has and that is added up over a buffer.
pub enum Measure {
    /// The width that a token takes on a line when no break fires: the
    /// number of characters of a text, the blank space of a break, nothing
    /// for the delimiters of a block.
    Width,
    /// The offset of a break or of the opening of a block, taken as a
    /// distance.
    Reach,
    /// What a token adds to the number of open blocks.
    Nesting,
}

impl TokenView {
    /// The width that the token takes on a line when no break fires.
    pub open spec fn width(self) -> nat {
        match self {
            TokenView::String(text) => text.len(),
            TokenView::Break(token) => token.blank_space,
            TokenView::Begin(_) => 0,
            TokenView::End => 0,
        }
    }

    /// The size of the offset that the token carries, if it carries one.
    pub open spec fn reach(self) -> nat {
        match self {
            TokenView::String(_) => 0,
            TokenView::Break(token) => magnitude(token.offset),
            TokenView::Begin(token) => magnitude(token.offset),
            TokenView::End => 0,
        }
    }

    /// What the token adds to the number of open blocks.
    pub open spec fn nesting(self) -> int {
        match self {
            TokenView::Begin(_) => 1,
            TokenView::End => -1,
            _ => 0,
        }
    }

    /// What the token takes of the printer's capacity: its width, its
    /// reach, and one for the token itself.
    pub open spec fn cost(self) -> nat {
        self.width() + self.reach() + 1
    }

    /// The token's share of the quantity `measure`.
    pub open spec fn measure(self, measure: Measure) -> int {
        match measure {
            Measure::Width => self.width() as int,
            Measure::Reach => self.reach() as int,
            Measure::Nesting => self.nesting(),
        }
    }
}

/// The absolute value of a machine integer.
pub fn magnitude_of(n: isize) -> (m: usize)
    ensures
        m == magnitude(n as int),
{
    if n >= 0 {
        n as usize
    } else {
        (-(n + 1)) as usize + 1
    }
}

/// The number of characters of a text.
pub fn text_width(text: &Cow<'static, str>) -> (width: usize)
    ensures
        width == text@.len(),
{
    match text {
        Cow::Borrowed(borrowed) => borrowed.unicode_len(),
        Cow::Owned(owned) => owned.as_str().unicode_len(),
    }
}

} // verus!
