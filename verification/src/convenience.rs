//! Shorthands for the tokens that drivers use most.

use crate::algorithm::{capacity, Printer};
use crate::model::State;
use crate::token::{magnitude, BeginToken, BeginView, BreakToken, BreakView, Breaks};
use std::borrow::Cow;
use vstd::prelude::*;

verus! {

/// A break of `blank_space` spaces with no offset, no comma and no
/// condition.
pub open spec fn plain_break(blank_space: nat) -> BreakView {
    BreakView { offset: 0, blank_space, trailing_comma: false, if_nonempty: false }
}

/// The break that ends a list: nothing where the list stays on its line, a
/// comma and a newline where it does not.
pub open spec fn comma_break() -> BreakView {
    BreakView { offset: 0, blank_space: 0, trailing_comma: true, if_nonempty: false }
}

impl State {
    pub open spec fn ibox(self, indent: int) -> State {
        self.scan_begin(BeginView { offset: indent, breaks: Breaks::Inconsistent })
    }

    pub open spec fn cbox(self, indent: int) -> State {
        self.scan_begin(BeginView { offset: indent, breaks: Breaks::Consistent })
    }

    pub open spec fn end(self) -> State {
        self.scan_end()
    }

    pub open spec fn word(self, text: Seq<char>) -> State {
        self.scan_string(text)
    }

    pub open spec fn zerobreak(self) -> State {
        self.scan_break(plain_break(0))
    }

    pub open spec fn space(self) -> State {
        self.scan_break(plain_break(1))
    }

    pub open spec fn trailing_comma(self, is_last: bool) -> State {
        if is_last {
            self.scan_break(comma_break())
        } else {
            self.word(seq![',']).space()
        }
    }
}

impl Printer {
    /// Opens a block whose breaks decide each for itself.
    pub fn ibox(&mut self, indent: isize)
        requires
            old(self).wf(),
            old(self).spent() + magnitude(indent as int) + 1 <= capacity(),
        ensures
            final(self).wf(),
            final(self)@ == old(self)@.ibox(indent as int),
            final(self).spent() == old(self).spent() + magnitude(indent as int) + 1,
            final(self)@.depth() == old(self)@.depth() + 1,
            final(self)@.ends_in_break_or_begin(),
    {
        self.scan_begin(BeginToken { offset: indent, breaks: Breaks::Inconsistent });
    }

    /// Opens a block whose breaks all become newlines if one does.
    pub fn cbox(&mut self, indent: isize)
        requires
            old(self).wf(),
            old(self).spent() + magnitude(indent as int) + 1 <= capacity(),
        ensures
            final(self).wf(),
            final(self)@ == old(self)@.cbox(indent as int),
            final(self).spent() == old(self).spent() + magnitude(indent as int) + 1,
            final(self)@.depth() == old(self)@.depth() + 1,
            final(self)@.ends_in_break_or_begin(),
    {
        self.scan_begin(BeginToken { offset: indent, breaks: Breaks::Consistent });
    }

    /// Closes the innermost open block.
    pub fn end(&mut self)
        requires
            old(self).wf(),
            old(self)@.depth() > 0,
            old(self).spent() + 1 <= capacity(),
        ensures
            final(self).wf(),
            final(self)@ == old(self)@.end(),
            final(self).spent() == old(self).spent() + 1,
            final(self)@.depth() == old(self)@.depth() - 1,
    {
        self.scan_end();
    }

    /// Takes in a text.
    pub fn word(&mut self, wrd: Cow<'static, str>)
        requires
            old(self).wf(),
            old(self).spent() + wrd@.len() + 1 <= capacity(),
        ensures
            final(self).wf(),
            final(self)@ == old(self)@.word(wrd@),
            final(self).spent() == old(self).spent() + wrd@.len() + 1,
            final(self)@.depth() == old(self)@.depth(),
    {
        self.scan_string(wrd);
    }

    fn spaces(&mut self, n: usize)
        requires
            old(self).wf(),
            old(self).spent() + n + 1 <= capacity(),
        ensures
            final(self).wf(),
            final(self)@ == old(self)@.scan_break(plain_break(n as nat)),
            final(self).spent() == old(self).spent() + n + 1,
            final(self)@.depth() == old(self)@.depth(),
            final(self)@.ends_in_break_or_begin(),
    {
        self.scan_break(
            BreakToken { offset: 0, blank_space: n, trailing_comma: false, if_nonempty: false },
        );
    }

    /// Takes in a break that stands for nothing where it does not become a
    /// newline.
    pub fn zerobreak(&mut self)
        requires
            old(self).wf(),
            old(self).spent() + 1 <= capacity(),
        ensures
            final(self).wf(),
            final(self)@ == old(self)@.zerobreak(),
            final(self).spent() == old(self).spent() + 1,
            final(self)@.depth() == old(self)@.depth(),
            final(self)@.ends_in_break_or_begin(),
    {
        self.spaces(0);
    }

    /// Takes in a break that stands for one space where it does not become
    /// a newline.
    pub fn space(&mut self)
        requires
            old(self).wf(),
            old(self).spent() + 2 <= capacity(),
        ensures
            final(self).wf(),
            final(self)@ == old(self)@.space(),
            final(self).spent() == old(self).spent() + 2,
            final(self)@.depth() == old(self)@.depth(),
            final(self)@.ends_in_break_or_begin(),
    {
        self.spaces(1);
    }

    /// Ends an element of a list. After the last element this is a break
    /// that writes a comma only where it becomes a newline; after any other
    /// it is a comma and a space.
    pub fn trailing_comma(&mut self, is_last: bool)
        requires
            old(self).wf(),
            old(self).spent() + 4 <= capacity(),
        ensures
            final(self).wf(),
            final(self)@ == old(self)@.trailing_comma(is_last),
            final(self).spent() == old(self).spent() + (if is_last {
                1nat
            } else {
                4nat
            }),
            final(self)@.depth() == old(self)@.depth(),
            final(self)@.ends_in_break_or_begin(),
    {
        if is_last {
            self.scan_break(
                BreakToken { offset: 0, blank_space: 0, trailing_comma: true, if_nonempty: false },
            );
        } else {
            proof {
                reveal_strlit(",");
                assert(","@ =~= seq![',']);
            }
            self.word(Cow::Borrowed(","));
            self.space();
        }
    }
}

} // verus!
