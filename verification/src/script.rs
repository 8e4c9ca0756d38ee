//! Token streams that are written down first and handed to the printer
//! later.

use crate::algorithm::{capacity, Printer};
use crate::balance::law_nested_step;
use crate::fitting::law_fitted_step;
use crate::laws::{cost, law_snug_step, law_step};
use crate::model::{Op, State};
use crate::token::{magnitude_of, BeginToken, BreakToken};
use vstd::string::StrSliceExecFns;
use std::borrow::Cow;
use vstd::prelude::*;

verus! {

/// One thing that a driver does to the printer.
pub enum Step {
    /// Hand it a text.
    Word(String),
    /// Hand it a break.
    Break(BreakToken),
    /// Open a block.
    Begin(BeginToken),
    /// Close the innermost open block.
    End,
    /// Move the offset of the newest break.
    Offset(isize),
}

impl View for Step {
    type V = Op;

    open spec fn view(&self) -> Op {
        match self {
            Step::Word(text) => Op::String(text@),
            Step::Break(token) => Op::Break(token@),
            Step::Begin(token) => Op::Begin(token@),
            Step::End => Op::End,
            Step::Offset(delta) => Op::Offset(*delta as int),
        }
    }
}

impl Step {
    /// A copy of the step.
    pub fn duplicate(&self) -> (copy: Step)
        ensures
            copy@ == self@,
    {
        match self {
            Step::Word(text) => Step::Word(text.clone()),
            Step::Break(token) => Step::Break(*token),
            Step::Begin(token) => Step::Begin(*token),
            Step::End => Step::End,
            Step::Offset(delta) => Step::Offset(*delta),
        }
    }
}

/// The operations that the steps stand for.
pub open spec fn ops_of(steps: Seq<Step>) -> Seq<Op> {
    steps.map_values(|step: Step| step@)
}

/// What a driver does to the printer, one step after the other.
pub struct Script {
    pub steps: Vec<Step>,
}

impl View for Script {
    type V = Seq<Op>;

    open spec fn view(&self) -> Seq<Op> {
        ops_of(self.steps@)
    }
}

/// What the operations take of the printer's capacity.
pub open spec fn cost_all(ops: Seq<Op>) -> nat
    decreases ops.len(),
{
    if ops.len() == 0 {
        0
    } else {
        cost_all(ops.drop_last()) + cost(ops.last())
    }
}

/// Doing one operation after others.
pub proof fn lemma_run_push(s: State, ops: Seq<Op>, op: Op)
    ensures
        s.run(ops.push(op)) == s.run(ops).apply(op),
        s.admits_all(ops.push(op)) == (s.admits_all(ops) && s.run(ops).admits(op)),
        cost_all(ops.push(op)) == cost_all(ops) + cost(op),
{
    assert(ops.push(op).drop_last() =~= ops);
}

/// Doing operations after others.
pub proof fn lemma_run_concat(s: State, a: Seq<Op>, b: Seq<Op>)
    ensures
        s.run(a + b) == s.run(a).run(b),
        s.admits_all(a + b) == (s.admits_all(a) && s.run(a).admits_all(b)),
        cost_all(a + b) == cost_all(a) + cost_all(b),
    decreases b.len(),
{
    if b.len() == 0 {
        assert(a + b =~= a);
    } else {
        lemma_run_concat(s, a, b.drop_last());
        assert((a + b).drop_last() =~= a + b.drop_last());
        assert((a + b).last() == b.last());
    }
}

/// Where the driver may do all operations, it may do the first of them,
/// however many, and the one after those.
pub proof fn lemma_run_take(s: State, ops: Seq<Op>, k: int)
    requires
        0 <= k < ops.len(),
        s.admits_all(ops),
    ensures
        s.admits_all(ops.take(k)),
        s.run(ops.take(k)).admits(ops[k]),
        s.run(ops.take(k + 1)) == s.run(ops.take(k)).apply(ops[k]),
        cost_all(ops.take(k + 1)) == cost_all(ops.take(k)) + cost(ops[k]),
        cost_all(ops.take(k + 1)) <= cost_all(ops),
{
    assert(ops.take(k + 1) =~= ops.take(k).push(ops[k]));
    assert(ops =~= ops.take(k + 1) + ops.skip(k + 1));
    lemma_run_concat(s, ops.take(k + 1), ops.skip(k + 1));
    lemma_run_push(s, ops.take(k), ops[k]);
}

/// A run of operations that the driver may do keeps the state well-formed
/// with all that this says.
pub proof fn law_run(s: State, ops: Seq<Op>, spent: nat)
    requires
        s.wf(),
        s.nested(),
        s.snug(),
        s.fitted(),
        s.bounded(spent),
        s.admits_all(ops),
    ensures
        s.run(ops).wf(),
        s.run(ops).nested(),
        s.run(ops).snug(),
        s.run(ops).fitted(),
        s.run(ops).bounded(spent + cost_all(ops)),
    decreases ops.len(),
{
    if ops.len() > 0 {
        let before = s.run(ops.drop_last());
        let used = spent + cost_all(ops.drop_last());
        law_run(s, ops.drop_last(), spent);
        law_step(before, ops.last(), used);
        law_nested_step(before, ops.last(), used);
        law_snug_step(before, ops.last(), used);
        law_fitted_step(before, ops.last(), used);
    }
}

/// Whatever the driver does to a fresh printer, as long as it may do it,
/// leaves a state that is well-formed with all that this says.
pub proof fn law_reachable(ops: Seq<Op>)
    requires
        State::initial().admits_all(ops),
    ensures
        State::initial().run(ops).wf(),
        State::initial().run(ops).nested(),
        State::initial().run(ops).snug(),
        State::initial().run(ops).fitted(),
        State::initial().run(ops).bounded(cost_all(ops)),
{
    crate::wellformed::lemma_initial_wf();
    crate::balance::law_nested_initial();
    crate::laws::law_snug_initial();
    crate::fitting::law_fitted_initial();
    law_run(State::initial(), ops, 0);
}

impl Printer {
    /// Whether the printer can take the operations: the driver may do them
    /// in the state that the printer is in, and they are within its
    /// capacity.
    pub open spec fn ready_for(&self, ops: Seq<Op>) -> bool {
        &&& self@.admits_all(ops)
        &&& self.spent() + cost_all(ops) <= capacity()
    }

    /// Does one step.
    pub fn step(&mut self, step: &Step)
        requires
            old(self).wf(),
            old(self)@.admits(step@),
            old(self).spent() + cost(step@) <= capacity(),
        ensures
            final(self).wf(),
            final(self)@ == old(self)@.apply(step@),
            final(self).spent() == old(self).spent() + cost(step@),
    {
        match step {
            Step::Word(text) => self.scan_string(Cow::Owned(text.clone())),
            Step::Break(token) => self.scan_break(*token),
            Step::Begin(token) => self.scan_begin(*token),
            Step::End => self.scan_end(),
            Step::Offset(delta) => self.offset(*delta),
        }
    }

    /// Does the steps of a script, one after the other.
    pub fn play(&mut self, script: &Script)
        requires
            old(self).wf(),
            old(self).ready_for(script@),
        ensures
            final(self).wf(),
            final(self)@ == old(self)@.run(script@),
            final(self).spent() == old(self).spent() + cost_all(script@),
    {
        let ghost ops = script@;
        let mut i: usize = 0;
        assert(ops.take(0) =~= Seq::<Op>::empty());
        while i < script.steps.len()
            invariant
                i <= script.steps.len(),
                ops == script@,
                self.wf(),
                old(self).ready_for(ops),
                self@ == old(self)@.run(ops.take(i as int)),
                self.spent() == old(self).spent() + cost_all(ops.take(i as int)),
            decreases script.steps.len() - i,
        {
            proof {
                lemma_run_take(old(self)@, ops, i as int);
            }
            self.step(&script.steps[i]);
            i += 1;
        }
        assert(ops.take(i as int) =~= ops);
    }

    /// Does one step, if the driver may do it in the state that the printer
    /// is in and the printer has the capacity for it. Says whether it did.
    pub fn try_step(&mut self, step: &Step) -> (done: bool)
        requires
            old(self).wf(),
        ensures
            final(self).wf(),
            done == (old(self)@.admits(step@) && old(self).spent() + cost(step@) <= capacity()),
            done ==> final(self)@ == old(self)@.apply(step@),
            done ==> final(self).spent() == old(self).spent() + cost(step@),
            !done ==> final(self)@ == old(self)@,
            !done ==> final(self).spent() == old(self).spent(),
    {
        let room = self.room();
        let admitted = match step {
            Step::Word(text) => text.as_str().unicode_len() < room,
            Step::Break(token) => token.blank_space < room && magnitude_of(token.offset) <= room
                - 1 - token.blank_space,
            Step::Begin(token) => room >= 1 && magnitude_of(token.offset) <= room - 1,
            Step::End => self.open_blocks() > 0 && room >= 1,
            Step::Offset(delta) => self.ends_in_break_or_begin() && magnitude_of(*delta) <= room,
        };
        if admitted {
            self.step(step);
        }
        admitted
    }

    /// Does the steps of a script, one after the other, up to the first
    /// that the driver may not do or that the printer has no capacity for.
    /// Says how many steps it did.
    pub fn try_play(&mut self, script: &Script) -> (taken: usize)
        requires
            old(self).wf(),
        ensures
            final(self).wf(),
            taken <= script@.len(),
            final(self)@ == old(self)@.run(script@.take(taken as int)),
            final(self).spent() == old(self).spent() + cost_all(script@.take(taken as int)),
            taken == script@.len() <==> old(self).ready_for(script@),
            taken < script@.len() ==> !final(self).ready_for(seq![script@[taken as int]]),
    {
        let ghost ops = script@;
        let mut i: usize = 0;
        assert(ops.take(0) =~= Seq::<Op>::empty());
        while i < script.steps.len()
            invariant_except_break
                i <= script.steps.len(),
            invariant
                ops == script@,
                self.wf(),
                i <= script.steps.len(),
                old(self)@.admits_all(ops.take(i as int)),
                self@ == old(self)@.run(ops.take(i as int)),
                self.spent() == old(self).spent() + cost_all(ops.take(i as int)),
            ensures
                i == script.steps.len() || !self.ready_for(seq![ops[i as int]]),
            decreases script.steps.len() - i,
        {
            proof {
                lemma_run_push(self@, Seq::<Op>::empty(), ops[i as int]);
                assert(seq![ops[i as int]] =~= Seq::<Op>::empty().push(ops[i as int]));
            }
            if !self.try_step(&script.steps[i]) {
                break;
            }
            proof {
                assert(ops.take(i + 1) =~= ops.take(i as int).push(ops[i as int]));
                lemma_run_push(old(self)@, ops.take(i as int), ops[i as int]);
            }
            i += 1;
        }
        proof {
            if i == script.steps.len() {
                assert(ops.take(i as int) =~= ops);
                assert(old(self).ready_for(ops));
            } else if old(self).ready_for(ops) {
                let op = ops[i as int];
                lemma_run_take(old(self)@, ops, i as int);
                lemma_run_push(self@, Seq::<Op>::empty(), op);
                assert(seq![op] =~= Seq::<Op>::empty().push(op));
                assert(self@.admits_all(seq![op]));
                assert(cost_all(seq![op]) == cost(op));
                assert(self.ready_for(seq![op]));
            }
        }
        i
    }
}

} // verus!
