//! Walking the chain of an error's causes.

use crate::error::{lemma_lineage, Cause};
use std::collections::VecDeque;
use vstd::prelude::*;

verus! {

enum ChainState<'a> {
    Linked { next: Option<&'a Cause> },
    Buffered { rest: VecDeque<&'a Cause> },
}

/// The errors of a chain that were not handed out yet. They can be taken
/// from either end.
pub struct Chain<'a> {
    state: ChainState<'a>,
}

impl<'a> View for Chain<'a> {
    type V = Seq<Cause>;

    /// The errors that are left, in the order of the chain.
    closed spec fn view(&self) -> Seq<Cause> {
        match self.state {
            ChainState::Linked { next: Some(cause) } => cause.lineage(),
            ChainState::Linked { next: None } => Seq::empty(),
            ChainState::Buffered { rest } => rest@.map_values(|cause: &Cause| *cause),
        }
    }
}

impl<'a> Chain<'a> {
    /// The chain that starts at `head`.
    pub fn new(head: &'a Cause) -> (chain: Self)
        ensures
            chain@ == head.lineage(),
    {
        Chain { state: ChainState::Linked { next: Some(head) } }
    }

    /// A chain with nothing in it.
    pub fn empty() -> (chain: Self)
        ensures
            chain@ == Seq::<Cause>::empty(),
    {
        let chain = Chain { state: ChainState::Buffered { rest: VecDeque::new() } };
        assert(chain@ =~= Seq::<Cause>::empty());
        chain
    }

    /// Takes the first of the errors that are left.
    pub fn next(&mut self) -> (item: Option<&'a Cause>)
        ensures
            match item {
                Some(cause) => old(self)@.len() > 0 && *cause == old(self)@[0] && final(self)@
                    == old(self)@.drop_first(),
                None => old(self)@.len() == 0 && final(self)@ == old(self)@,
            },
    {
        match &mut self.state {
            ChainState::Linked { next } => {
                match *next {
                    Some(error) => {
                        proof {
                            lemma_lineage(*error);
                        }
                        *next = error.source();
                        Some(error)
                    },
                    None => None,
                }
            },
            ChainState::Buffered { rest } => {
                let item = rest.pop_front();
                proof {
                    if item is Some {
                        assert(final(self)@ =~= old(self)@.drop_first());
                    }
                }
                item
            },
        }
    }

    /// The number of errors that are left.
    pub fn len(&self) -> (len: usize)
        requires
            self@.len() <= usize::MAX,
        ensures
            len == self@.len(),
    {
        match &self.state {
            ChainState::Linked { next } => {
                let mut next = *next;
                let mut len: usize = 0;
                proof {
                    if next is Some {
                        lemma_lineage(*next->0);
                    }
                }
                loop
                    invariant_except_break
                        len + (match next {
                            Some(cause) => cause.lineage().len(),
                            None => 0,
                        }) == self@.len(),
                        self@.len() <= usize::MAX,
                    ensures
                        len == self@.len(),
                    decreases
                            match next {
                                Some(cause) => cause.lineage().len(),
                                None => 0,
                            },
                {
                    match next {
                        Some(cause) => {
                            proof {
                                lemma_lineage(*cause);
                            }
                            next = cause.source();
                            len += 1;
                        },
                        None => {
                            break;
                        },
                    }
                }
                len
            },
            ChainState::Buffered { rest } => rest.len(),
        }
    }

    /// The number of errors that are left, as the least and the most that
    /// it can be.
    pub fn size_hint(&self) -> (hint: (usize, Option<usize>))
        requires
            self@.len() <= usize::MAX,
        ensures
            hint.0 == self@.len(),
            hint.1 == Some(hint.0),
    {
        let len = self.len();
        (len, Some(len))
    }

    /// Takes the last of the errors that are left.
    pub fn next_back(&mut self) -> (item: Option<&'a Cause>)
        ensures
            match item {
                Some(cause) => old(self)@.len() > 0 && *cause == old(self)@.last() && final(self)@
                    == old(self)@.drop_last(),
                None => old(self)@.len() == 0 && final(self)@ == old(self)@,
            },
    {
        match &mut self.state {
            ChainState::Linked { next } => {
                let mut next = *next;
                let mut rest: VecDeque<&'a Cause> = VecDeque::new();
                proof {
                    if next is Some {
                        lemma_lineage(*next->0);
                    }
                    assert(rest@.map_values(|cause: &Cause| *cause) + old(self)@ =~= old(self)@);
                }
                loop
                    invariant_except_break
                        rest@.map_values(|cause: &Cause| *cause) + (match next {
                            Some(cause) => cause.lineage(),
                            None => Seq::empty(),
                        }) == old(self)@,
                    ensures
                        rest@.map_values(|cause: &Cause| *cause) == old(self)@,
                    decreases
                            match next {
                                Some(cause) => cause.lineage().len(),
                                None => 0,
                            },
                {
                    match next {
                        Some(cause) => {
                            proof {
                                lemma_lineage(*cause);
                                if cause.source is Some {
                                    lemma_lineage(*cause.source->0);
                                }
                            }
                            let ghost before = rest@.map_values(|cause: &Cause| *cause);
                            next = cause.source();
                            rest.push_back(cause);
                            proof {
                                let after = rest@.map_values(|cause: &Cause| *cause);
                                assert(after =~= before.push(*cause));
                                let tail = match next {
                                    Some(cause) => cause.lineage(),
                                    None => Seq::empty(),
                                };
                                assert(cause.lineage() =~= seq![*cause] + tail);
                                assert(after + tail =~= before + cause.lineage());
                            }
                        },
                        None => {
                            assert(rest@.map_values(|cause: &Cause| *cause) + Seq::<Cause>::empty()
                                =~= rest@.map_values(|cause: &Cause| *cause));
                            break;
                        },
                    }
                }
                let last = rest.pop_back();
                self.state = ChainState::Buffered { rest };
                proof {
                    if last is Some {
                        assert(final(self)@ =~= old(self)@.drop_last());
                    } else {
                        assert(final(self)@ =~= old(self)@);
                    }
                }
                last
            },
            ChainState::Buffered { rest } => {
                let item = rest.pop_back();
                proof {
                    if item is Some {
                        assert(final(self)@ =~= old(self)@.drop_last());
                    }
                }
                item
            },
        }
    }
}

} // verus!
