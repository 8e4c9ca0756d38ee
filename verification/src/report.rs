//! An error and its causes as text.

use crate::error::{lemma_error_nonempty, Cause, Error};
use crate::model::{clip, spaces};
use vstd::prelude::*;
use vstd::string::{StrSliceExecFns, StringExecFns};

verus! {

/// The character for a digit.
pub open spec fn digit(d: nat) -> char {
    seq!['0', '1', '2', '3', '4', '5', '6', '7', '8', '9'][d as int]
}

/// A number in decimal notation.
pub open spec fn decimal(n: nat) -> Seq<char>
    decreases n,
{
    if n < 10 {
        seq![digit(n)]
    } else {
        decimal(n / 10).push(digit(n % 10))
    }
}

/// What stands before the first line of a cause: its number, set to the
/// right in five columns, a colon and a space; or four spaces where the
/// causes are not numbered.
pub open spec fn lead(number: Option<usize>) -> Seq<char> {
    match number {
        Some(n) => spaces(clip(5 - decimal(n as nat).len())) + decimal(n as nat) + seq![':', ' '],
        None => spaces(4),
    }
}

/// What stands before each further line of a cause.
pub open spec fn hang(number: Option<usize>) -> Seq<char> {
    match number {
        Some(_) => spaces(7),
        None => spaces(4),
    }
}

/// The text with `pad` after each of its newlines.
pub open spec fn spread(text: Seq<char>, pad: Seq<char>) -> Seq<char>
    decreases text.len(),
{
    if text.len() == 0 {
        Seq::empty()
    } else if text.last() == '\n' {
        spread(text.drop_last(), pad) + seq!['\n'] + pad
    } else {
        spread(text.drop_last(), pad).push(text.last())
    }
}

/// The messages of a chain, one after the other, with a colon and a space
/// between them.
pub open spec fn joined(chain: Seq<Cause>) -> Seq<char>
    decreases chain.len(),
{
    if chain.len() == 0 {
        Seq::empty()
    } else if chain.len() == 1 {
        chain[0].message@
    } else {
        joined(chain.drop_last()) + seq![':', ' '] + chain.last().message@
    }
}

/// The number that the cause at position `n` is listed under.
pub open spec fn numbered(multiple: bool, n: int) -> Option<usize> {
    if multiple {
        Some(n as usize)
    } else {
        None
    }
}

/// The first `k` causes as a list, each on a line of its own.
pub open spec fn listed(causes: Seq<Cause>, multiple: bool, k: int) -> Seq<char>
    decreases k,
{
    if k <= 0 {
        Seq::empty()
    } else {
        listed(causes, multiple, k - 1) + seq!['\n'] + lead(numbered(multiple, k - 1)) + spread(
            causes[k - 1].message@,
            hang(numbered(multiple, k - 1)),
        )
    }
}

/// An error with its causes, as it is shown to whoever has to find out what
/// went wrong: the message, and under `Caused by:` the causes, numbered if
/// there is more than one.
pub open spec fn detailed(chain: Seq<Cause>) -> Seq<char> {
    if chain.len() <= 1 {
        chain[0].message@
    } else {
        chain[0].message@ + "\n\nCaused by:"@ + listed(
            chain.drop_first(),
            chain.len() > 2,
            chain.len() - 1,
        )
    }
}

fn digit_text(d: usize) -> (text: &'static str)
    requires
        d < 10,
    ensures
        text@ == seq![digit(d as nat)],
{
    proof {
        reveal_strlit("0");
        reveal_strlit("1");
        reveal_strlit("2");
        reveal_strlit("3");
        reveal_strlit("4");
        reveal_strlit("5");
        reveal_strlit("6");
        reveal_strlit("7");
        reveal_strlit("8");
        reveal_strlit("9");
    }
    let text = if d == 0 {
        "0"
    } else if d == 1 {
        "1"
    } else if d == 2 {
        "2"
    } else if d == 3 {
        "3"
    } else if d == 4 {
        "4"
    } else if d == 5 {
        "5"
    } else if d == 6 {
        "6"
    } else if d == 7 {
        "7"
    } else if d == 8 {
        "8"
    } else {
        "9"
    };
    assert(text@ =~= seq![digit(d as nat)]);
    text
}

/// A number in decimal notation.
pub fn decimal_text(n: usize) -> (text: String)
    ensures
        text@ == decimal(n as nat),
    decreases n,
{
    if n < 10 {
        String::from_str(digit_text(n))
    } else {
        let text = decimal_text(n / 10).concat(digit_text(n % 10));
        assert(text@ =~= decimal(n as nat));
        text
    }
}

fn append_spaces(out: &mut String, count: usize)
    ensures
        final(out)@ == old(out)@ + spaces(count as nat),
{
    let mut written: usize = 0;
    assert(out@ =~= old(out)@ + spaces(0));
    while written < count
        invariant
            written <= count,
            out@ == old(out)@ + spaces(written as nat),
        decreases count - written,
    {
        proof {
            reveal_strlit(" ");
        }
        out.append(" ");
        written += 1;
        assert(out@ =~= old(out)@ + spaces(written as nat));
    }
}

/// The text up to a position in it, spread, is the text up to an earlier
/// position, spread, and what lies between, if no newline lies between.
proof fn lemma_spread_line(text: Seq<char>, pad: Seq<char>, start: int, end: int)
    requires
        0 <= start <= end <= text.len(),
        forall|j: int| start <= j < end ==> text[j] != '\n',
    ensures
        spread(text.take(end), pad) == spread(text.take(start), pad) + text.subrange(start, end),
    decreases end - start,
{
    if start == end {
        assert(text.subrange(start, end) =~= Seq::<char>::empty());
        assert(spread(text.take(start), pad) + Seq::<char>::empty() =~= spread(
            text.take(start),
            pad,
        ));
    } else {
        lemma_spread_line(text, pad, start, end - 1);
        assert(text.take(end).drop_last() =~= text.take(end - 1));
        assert(text.subrange(start, end) =~= text.subrange(start, end - 1).push(text[end - 1]));
        assert((spread(text.take(start), pad) + text.subrange(start, end - 1)).push(text[end - 1])
            =~= spread(text.take(start), pad) + text.subrange(start, end));
    }
}

/// Writes text under a heading: the first line after a lead, each further
/// line after a hanging indentation.
pub struct Indented {
    pub number: Option<usize>,
    pub started: bool,
}

impl Indented {
    /// What `write_str` appends for `text`.
    pub open spec fn appended(self, text: Seq<char>) -> Seq<char> {
        (if self.started {
            Seq::empty()
        } else {
            lead(self.number)
        }) + spread(text, hang(self.number))
    }

    fn write_lead(&self, inner: &mut String)
        ensures
            final(inner)@ == old(inner)@ + lead(self.number),
    {
        match self.number {
            Some(number) => {
                let text = decimal_text(number);
                let width = text.as_str().unicode_len();
                if width < 5 {
                    append_spaces(inner, 5 - width);
                } else {
                    assert(inner@ =~= old(inner)@ + spaces(0));
                }
                inner.append(text.as_str());
                proof {
                    reveal_strlit(": ");
                }
                inner.append(": ");
                assert(": "@ =~= seq![':', ' ']);
                assert(inner@ =~= old(inner)@ + lead(self.number));
            },
            None => {
                append_spaces(inner, 4);
            },
        }
    }

    /// Appends `s` to `inner`, after the lead if nothing was written yet,
    /// with the hanging indentation after each newline of `s`.
    pub fn write_str(&mut self, inner: &mut String, s: &str)
        ensures
            final(inner)@ == old(inner)@ + old(self).appended(s@),
            final(self).started,
            final(self).number == old(self).number,
    {
        if !self.started {
            self.started = true;
            self.write_lead(inner);
        } else {
            assert(inner@ =~= old(inner)@ + Seq::<char>::empty());
        }
        let ghost base = inner@;
        let ghost pad = hang(self.number);
        let len = s.unicode_len();
        let mut start: usize = 0;
        let mut i: usize = 0;
        assert(s@.take(0) =~= Seq::<char>::empty());
        assert(inner@ =~= base + spread(s@.take(0), pad));
        while i < len
            invariant
                start <= i <= len,
                len == s@.len(),
                pad == hang(self.number),
                inner@ == base + spread(s@.take(start as int), pad),
                forall|j: int| start <= j < i ==> s@[j] != '\n',
            decreases len - i,
        {
            if s.get_char(i) == '\n' {
                proof {
                    lemma_spread_line(s@, pad, start as int, i as int);
                    assert(s@.take(i + 1).drop_last() =~= s@.take(i as int));
                    reveal_strlit("\n");
                }
                inner.append(s.substring_char(start, i));
                inner.append("\n");
                if self.number.is_some() {
                    append_spaces(inner, 7);
                } else {
                    append_spaces(inner, 4);
                }
                assert(inner@ =~= base + spread(s@.take(i + 1), pad));
                start = i + 1;
            }
            i += 1;
        }
        proof {
            lemma_spread_line(s@, pad, start as int, len as int);
            assert(s@.take(len as int) =~= s@);
        }
        inner.append(s.substring_char(start, len));
        assert(inner@ =~= old(inner)@ + old(self).appended(s@));
    }
}

impl Error {
    /// The error as one line of text: its message, and, where `alternate`
    /// is set, the messages of its causes after it.
    pub fn display(&self, alternate: bool) -> (text: String)
        ensures
            text@ == if alternate {
                joined(self@)
            } else {
                self@[0].message@
            },
    {
        let mut chain = self.chain();
        let ghost all = self@;
        let mut out = String::new();
        proof {
            lemma_error_nonempty(self);
        }
        match chain.next() {
            Some(head) => {
                out.append(head.message.as_str());
                assert(out@ =~= head.message@);
            },
            None => {},
        }
        if alternate {
            let ghost mut k: int = 1;
            proof {
                assert(all.take(1).drop_last() =~= Seq::<Cause>::empty());
                assert(joined(all.take(1)) == all[0].message@);
            }
            loop
                invariant_except_break
                    1 <= k <= all.len(),
                    chain@ == all.skip(k),
                    out@ == joined(all.take(k)),
                ensures
                    out@ == joined(all),
                decreases all.len() - k,
            {
                match chain.next() {
                    Some(cause) => {
                        proof {
                            reveal_strlit(": ");
                            assert(all.skip(k)[0] == all[k]);
                            assert(all.take(k + 1).drop_last() =~= all.take(k));
                            assert(all.skip(k).drop_first() =~= all.skip(k + 1));
                        }
                        out.append(": ");
                        out.append(cause.message.as_str());
                        proof {
                            k = k + 1;
                            assert(out@ =~= joined(all.take(k)));
                        }
                    },
                    None => {
                        assert(all.take(k) =~= all);
                        break;
                    },
                }
            }
        }
        out
    }

    /// The error with its causes, for whoever has to find out what went
    /// wrong.
    pub fn debug(&self) -> (text: String)
        requires
            self@.len() <= usize::MAX,
        ensures
            text@ == detailed(self@),
    {
        let ghost all = self@;
        let mut chain = self.chain();
        let mut out = String::new();
        proof {
            lemma_error_nonempty(self);
        }
        match chain.next() {
            Some(head) => {
                out.append(head.message.as_str());
                assert(out@ =~= head.message@);
            },
            None => {},
        }
        let ghost causes = all.drop_first();
        let count = chain.len();
        if count > 0 {
            out.append("\n\nCaused by:");
            let multiple = count > 1;
            let mut n: usize = 0;
            let ghost start = out@;
            assert(out@ =~= start + listed(causes, multiple, 0));
            loop
                invariant_except_break
                    0 <= n <= causes.len(),
                    causes.len() == count,
                    chain@ == causes.skip(n as int),
                    out@ == start + listed(causes, multiple, n as int),
                ensures
                    out@ == start + listed(causes, multiple, count as int),
                decreases causes.len() - n,
            {
                match chain.next() {
                    Some(error) => {
                        proof {
                            reveal_strlit("\n");
                            assert(causes.skip(n as int)[0] == causes[n as int]);
                            assert(causes.skip(n as int).drop_first() =~= causes.skip(n + 1));
                        }
                        out.append("\n");
                        let mut indented = Indented {
                            number: if multiple {
                                Some(n)
                            } else {
                                None
                            },
                            started: false,
                        };
                        indented.write_str(&mut out, error.message.as_str());
                        n += 1;
                        assert(out@ =~= start + listed(causes, multiple, n as int));
                    },
                    None => {
                        break;
                    },
                }
            }
        }
        out
    }
}

} // verus!
