//! The message of a comparison that did not hold.

use crate::error::Error;
use vstd::prelude::*;
use vstd::string::{StringExecFns, StringSliceAdditionalSpecFns};

verus! {

/// The most bytes that one side of a comparison may take in a message.
pub const ROOM: usize = 40;

/// Whether the text holds a space or a newline.
pub open spec fn ragged(bytes: Seq<u8>) -> bool {
    exists|i: int| 0 <= i < bytes.len() && (#[trigger] bytes[i] == 32u8 || bytes[i] == 10u8)
}

/// What did not go into a buffer.
pub struct Refused;

/// A short text without spaces and newlines.
pub struct Buf {
    text: String,
    written: usize,
}

impl View for Buf {
    type V = Seq<char>;

    closed spec fn view(&self) -> Seq<char> {
        self.text@
    }
}

impl Buf {
    /// The number of bytes that the buffer holds.
    pub closed spec fn written(&self) -> nat {
        self.written as nat
    }

    pub fn new() -> (buf: Self)
        ensures
            buf@ == Seq::<char>::empty(),
            buf.written() == 0,
    {
        Buf { text: String::new(), written: 0 }
    }

    pub fn as_str(&self) -> (text: &str)
        ensures
            text@ == self@,
    {
        self.text.as_str()
    }

    /// Appends `s`, unless it holds a space or a newline or is more than
    /// the buffer has room for.
    pub fn write_str(&mut self, s: &str) -> (done: Result<(), Refused>)
        requires
            old(self).written() <= ROOM,
        ensures
            final(self).written() <= ROOM,
            done is Ok <==> !ragged(s.spec_bytes()) && old(self).written() + s.spec_bytes().len()
                <= ROOM,
            done is Ok ==> final(self)@ == old(self)@ + s@ && final(self).written() == old(
                self,
            ).written() + s.spec_bytes().len(),
            done is Err ==> final(self)@ == old(self)@ && final(self).written() == old(
                self,
            ).written(),
    {
        let bytes = s.as_bytes();
        let mut i: usize = 0;
        while i < bytes.len()
            invariant
                i <= bytes.len(),
                bytes@ == s.spec_bytes(),
                self.written == old(self).written,
                self.text == old(self).text,
                self.written <= ROOM,
                forall|j: int| 0 <= j < i ==> bytes@[j] != 32u8 && bytes@[j] != 10u8,
            decreases bytes.len() - i,
        {
            if bytes[i] == 32u8 || bytes[i] == 10u8 {
                return Err(Refused);
            }
            i += 1;
        }
        let remaining = ROOM - self.written;
        if bytes.len() > remaining {
            return Err(Refused);
        }
        self.text.append(s);
        self.written += bytes.len();
        Ok(())
    }
}

/// The message for a comparison that did not hold: what was expected, and
/// in brackets the two sides, if both are short and without spaces.
pub open spec fn rendered(msg: Seq<char>, lhs: &str, rhs: &str) -> Seq<char> {
    if !ragged(lhs.spec_bytes()) && lhs.spec_bytes().len() <= ROOM && !ragged(rhs.spec_bytes())
        && rhs.spec_bytes().len() <= ROOM {
        msg + " ("@ + lhs@ + " vs "@ + rhs@ + ")"@
    } else {
        msg
    }
}

/// Makes the error for a comparison that did not hold. `lhs` and `rhs` are
/// the two sides as text.
pub fn render(msg: &'static str, lhs: &str, rhs: &str) -> (error: Error)
    ensures
        error@.len() == 1,
        error@[0].source is None,
        error@[0].message@ == rendered(msg@, lhs, rhs),
{
    let mut lhs_buf = Buf::new();
    if lhs_buf.write_str(lhs).is_ok() {
        let mut rhs_buf = Buf::new();
        if rhs_buf.write_str(rhs).is_ok() {
            let lhs_str = lhs_buf.as_str();
            let rhs_str = rhs_buf.as_str();
            let mut string = String::new();
            string.append(msg);
            string.append(" (");
            string.append(lhs_str);
            string.append(" vs ");
            string.append(rhs_str);
            string.append(")");
            assert(string@ =~= rendered(msg@, lhs, rhs));
            return Error::msg(string);
        }
    }
    Error::msg(String::from_str(msg))
}

/// A pair of which both sides can be shown.
pub trait BothDebug {
    fn __dispatch_ensure(self, msg: &'static str) -> Error;
}

impl BothDebug for (&str, &str) {
    fn __dispatch_ensure(self, msg: &'static str) -> (error: Error)
        ensures
            error@.len() == 1,
            error@[0].source is None,
            error@[0].message@ == rendered(msg@, self.0, self.1),
    {
        render(msg, self.0, self.1)
    }
}

/// A pair of which not both sides can be shown.
pub trait NotBothDebug {
    fn __dispatch_ensure(self, msg: &'static str) -> Error;
}

impl<A, B> NotBothDebug for &(A, B) {
    fn __dispatch_ensure(self, msg: &'static str) -> (error: Error)
        ensures
            error@.len() == 1,
            error@[0].source is None,
            error@[0].message@ == msg@,
    {
        Error::msg(String::from_str(msg))
    }
}

} // verus!
