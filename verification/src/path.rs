//! Paths, as they are handed to the printer.
//!
//! The parts of a path that are types, expressions, lifetimes or bounds
//! come as scripts: whoever lays a path out has laid those out before.

use crate::algorithm::Printer;
use crate::convenience::{comma_break, plain_break};
use crate::model::Op;
use crate::script::{ops_of, Script, Step};
use crate::token::{BeginToken, BeginView, BreakToken, Breaks};
use crate::INDENT;
use vstd::prelude::*;
use vstd::string::StringExecFns;

verus! {

/// A name bound to a type: `Item = u8`.
pub struct Binding {
    pub ident: String,
    pub ty: Script,
}

/// A name with bounds: `Item: Display + Debug`.
pub struct Constraint {
    pub ident: String,
    pub bounds: Vec<Script>,
}

/// An expression that stands where a constant is asked for.
pub enum ConstArgument {
    /// A literal.
    Lit(Script),
    /// A block.
    Block(Script),
    /// Anything else. It is written in braces.
    Other(Script),
}

/// One argument between angle brackets.
pub enum GenericArgument {
    Lifetime(Script),
    Type(Script),
    Binding(Binding),
    Constraint(Constraint),
    Const(ConstArgument),
}

/// The arguments between angle brackets: `<'a, T, Item = u8>`.
pub struct AngleBracketedGenericArguments {
    /// Whether `::` stands before the opening bracket.
    pub colon2_token: bool,
    pub args: Vec<GenericArgument>,
}

/// The arguments of a function-like path: `(A, B) -> C`.
pub struct ParenthesizedGenericArguments {
    pub inputs: Vec<Script>,
    /// The arrow and the type after it, or nothing.
    pub output: Script,
}

/// What follows the name of a path segment.
pub enum PathArguments {
    /// Nothing follows the name.
    Empty,
    AngleBracketed(AngleBracketedGenericArguments),
    Parenthesized(ParenthesizedGenericArguments),
}

/// One segment of a path: a name and its arguments.
pub struct PathSegment {
    pub ident: String,
    pub arguments: PathArguments,
}

/// A path: `::std::vec::Vec<T>`.
pub struct Path {
    /// Whether the path starts with `::`.
    pub leading_colon: bool,
    pub segments: Vec<PathSegment>,
}

/// The type that a path is qualified by: the `T` of `<T as Trait>::Item`.
pub struct QSelf {
    pub ty: Script,
    /// The number of segments of the path that name the trait.
    pub position: usize,
}

/// Handing over a text.
pub open spec fn word(text: Seq<char>) -> Op {
    Op::String(text)
}

/// Opening a block whose breaks all become newlines if one does.
pub open spec fn cbox(indent: int) -> Op {
    Op::Begin(BeginView { offset: indent, breaks: Breaks::Consistent })
}

/// Opening a block whose breaks decide each for itself.
pub open spec fn ibox(indent: int) -> Op {
    Op::Begin(BeginView { offset: indent, breaks: Breaks::Inconsistent })
}

/// What ends an element of a list: after the last a break that writes a
/// comma only where it becomes a newline, after any other a comma and a
/// space.
pub open spec fn trailing_comma(is_last: bool) -> Seq<Op> {
    if is_last {
        seq![Op::Break(comma_break())]
    } else {
        seq![word(","@), Op::Break(plain_break(1))]
    }
}

impl ConstArgument {
    pub open spec fn ops(self) -> Seq<Op> {
        match self {
            ConstArgument::Lit(expr) => expr@,
            ConstArgument::Block(expr) => expr@,
            ConstArgument::Other(expr) => seq![word("{"@)] + expr@ + seq![word("}"@)],
        }
    }
}

impl Binding {
    pub open spec fn ops(self) -> Seq<Op> {
        seq![word(self.ident@), word(" = "@)] + self.ty@
    }
}

/// The first `k` bounds, the first after a colon, each further one after a
/// plus on a line that may break before it.
pub open spec fn bounds_ops(bounds: Seq<Script>, k: int) -> Seq<Op>
    decreases k,
{
    if k <= 0 {
        Seq::empty()
    } else {
        bounds_ops(bounds, k - 1) + (if k == 1 {
            seq![word(": "@)]
        } else {
            seq![Op::Break(plain_break(1)), word("+ "@)]
        }) + bounds[k - 1]@
    }
}

impl Constraint {
    pub open spec fn ops(self) -> Seq<Op> {
        seq![word(self.ident@), ibox(INDENT as int)] + bounds_ops(
            self.bounds@,
            self.bounds@.len() as int,
        ) + seq![Op::End]
    }
}

impl GenericArgument {
    pub open spec fn ops(self) -> Seq<Op> {
        match self {
            GenericArgument::Lifetime(lifetime) => lifetime@,
            GenericArgument::Type(ty) => ty@,
            GenericArgument::Binding(binding) => binding.ops(),
            GenericArgument::Constraint(constraint) => constraint.ops(),
            GenericArgument::Const(expr) => expr.ops(),
        }
    }

    /// The place of the argument in the order that arguments are written
    /// in: lifetimes first, then types and constants, then bindings and
    /// constraints.
    pub open spec fn rank(self) -> nat {
        match self {
            GenericArgument::Lifetime(_) => 0,
            GenericArgument::Type(_) | GenericArgument::Const(_) => 1,
            GenericArgument::Binding(_) | GenericArgument::Constraint(_) => 2,
        }
    }
}

/// Among the first `k` arguments, the index of the one that is written
/// last: the last of those of the highest rank.
pub open spec fn written_last(args: Seq<GenericArgument>, k: int) -> int
    decreases k,
{
    if k <= 1 {
        0
    } else {
        let before = written_last(args, k - 1);
        if args[k - 1].rank() >= args[before].rank() {
            k - 1
        } else {
            before
        }
    }
}

/// The argument that counts as written last is of the highest rank, and
/// no argument of that rank stands after it: written by rank, it is the
/// last.
pub proof fn law_written_last(args: Seq<GenericArgument>, k: int)
    requires
        1 <= k <= args.len(),
    ensures
        0 <= written_last(args, k) < k,
        forall|i: int| 0 <= i < k ==> (#[trigger] args[i]).rank() <= args[written_last(args, k)].rank(),
        forall|i: int|
            written_last(args, k) < i < k ==> (#[trigger] args[i]).rank() < args[written_last(
                args,
                k,
            )].rank(),
    decreases k,
{
    if k > 1 {
        law_written_last(args, k - 1);
    }
}

/// Those of the first `k` arguments that have the rank `rank`, each with
/// what ends it.
pub open spec fn ranked_ops(args: Seq<GenericArgument>, last: int, rank: nat, k: int) -> Seq<Op>
    decreases k,
{
    if k <= 0 {
        Seq::empty()
    } else {
        ranked_ops(args, last, rank, k - 1) + (if args[k - 1].rank() == rank {
            args[k - 1].ops() + trailing_comma(k - 1 == last)
        } else {
            Seq::empty()
        })
    }
}

impl AngleBracketedGenericArguments {
    pub open spec fn ops(self) -> Seq<Op> {
        let args = self.args@;
        let n = args.len() as int;
        let last = written_last(args, n);
        if n == 0 {
            Seq::empty()
        } else {
            (if self.colon2_token {
                seq![word("::"@)]
            } else {
                Seq::empty()
            }) + seq![word("<"@), cbox(INDENT as int), Op::Break(plain_break(0))] + ranked_ops(
                args,
                last,
                0,
                n,
            ) + ranked_ops(args, last, 1, n) + ranked_ops(args, last, 2, n) + seq![
                Op::Offset(-INDENT as int),
                Op::End,
                word(">"@),
            ]
        }
    }
}

/// The first `k` inputs, each with what ends it.
pub open spec fn inputs_ops(inputs: Seq<Script>, k: int) -> Seq<Op>
    decreases k,
{
    if k <= 0 {
        Seq::empty()
    } else {
        inputs_ops(inputs, k - 1) + inputs[k - 1]@ + trailing_comma(k == inputs.len())
    }
}

impl ParenthesizedGenericArguments {
    pub open spec fn ops(self) -> Seq<Op> {
        seq![cbox(INDENT as int), word("("@), Op::Break(plain_break(0))] + inputs_ops(
            self.inputs@,
            self.inputs@.len() as int,
        ) + seq![Op::Offset(-INDENT as int), word(")"@)] + self.output@ + seq![Op::End]
    }
}

impl PathArguments {
    pub open spec fn ops(self) -> Seq<Op> {
        match self {
            PathArguments::Empty => Seq::empty(),
            PathArguments::AngleBracketed(arguments) => arguments.ops(),
            PathArguments::Parenthesized(arguments) => arguments.ops(),
        }
    }
}

impl PathSegment {
    pub open spec fn ops(self) -> Seq<Op> {
        seq![word(self.ident@)] + self.arguments.ops()
    }
}

/// The segments from `from` up to `to`, each after `::` except the very
/// first of a path that does not start with it. After the segment before
/// `close` stands `>`.
pub open spec fn segments_ops(
    segments: Seq<PathSegment>,
    leading_colon: bool,
    from: int,
    to: int,
    close: int,
) -> Seq<Op>
    decreases to - from,
{
    if to <= from {
        Seq::empty()
    } else {
        segments_ops(segments, leading_colon, from, to - 1, close) + (if to - 1 > 0
            || leading_colon {
            seq![word("::"@)]
        } else {
            Seq::empty()
        }) + segments[to - 1].ops() + (if to == close {
            seq![word(">"@)]
        } else {
            Seq::empty()
        })
    }
}

impl Path {
    pub open spec fn ops(self) -> Seq<Op> {
        segments_ops(self.segments@, self.leading_colon, 0, self.segments@.len() as int, -1)
    }

    /// The path after the type that qualifies it: `<T as Trait>::Item`.
    pub open spec fn qualified_ops(self, qself: QSelf) -> Seq<Op> {
        seq![word("<"@)] + qself.ty@ + (if qself.position > 0 {
            seq![word(" as "@)] + segments_ops(
                self.segments@,
                self.leading_colon,
                0,
                qself.position as int,
                qself.position as int,
            )
        } else {
            seq![word(">"@)]
        }) + segments_ops(
            self.segments@,
            true,
            qself.position as int,
            self.segments@.len() as int,
            -1,
        )
    }
}

/// A path after the type that qualifies it, if one does.
pub open spec fn qpath_ops(qself: Option<QSelf>, path: Path) -> Seq<Op> {
    match qself {
        Some(qself) => path.qualified_ops(qself),
        None => path.ops(),
    }
}

/// Putting sequences one after the other comes to the same, however the
/// steps are grouped.
proof fn lemma_concat(a: Seq<Op>, b: Seq<Op>, c: Seq<Op>)
    ensures
        (a + b) + c == a + (b + c),
{
    assert((a + b) + c =~= a + (b + c));
}

fn push_step(steps: &mut Vec<Step>, step: Step)
    ensures
        ops_of(final(steps)@) == ops_of(old(steps)@).push(step@),
{
    steps.push(step);
    assert(ops_of(steps@) =~= ops_of(old(steps)@).push(step@));
}

fn push_word(steps: &mut Vec<Step>, text: &str)
    ensures
        ops_of(final(steps)@) == ops_of(old(steps)@).push(word(text@)),
{
    push_step(steps, Step::Word(String::from_str(text)));
}

fn push_break(steps: &mut Vec<Step>, blank_space: usize, trailing_comma: bool)
    ensures
        ops_of(final(steps)@) == ops_of(old(steps)@).push(
            Op::Break(
                crate::token::BreakView {
                    offset: 0,
                    blank_space: blank_space as nat,
                    trailing_comma,
                    if_nonempty: false,
                },
            ),
        ),
{
    push_step(
        steps,
        Step::Break(BreakToken { offset: 0, blank_space, trailing_comma, if_nonempty: false }),
    );
}

fn push_script(steps: &mut Vec<Step>, script: &Script)
    ensures
        ops_of(final(steps)@) == ops_of(old(steps)@) + script@,
{
    let mut i: usize = 0;
    assert(ops_of(steps@) =~= ops_of(old(steps)@) + script@.take(0));
    while i < script.steps.len()
        invariant
            i <= script.steps.len(),
            ops_of(steps@) == ops_of(old(steps)@) + script@.take(i as int),
        decreases script.steps.len() - i,
    {
        let ghost before = ops_of(steps@);
        push_step(steps, script.steps[i].duplicate());
        i += 1;
        assert(before.push(script@[i - 1]) =~= ops_of(old(steps)@) + script@.take(i as int));
    }
    assert(script@.take(i as int) =~= script@);
}

fn push_trailing_comma(steps: &mut Vec<Step>, is_last: bool)
    ensures
        ops_of(final(steps)@) == ops_of(old(steps)@) + trailing_comma(is_last),
{
    if is_last {
        push_break(steps, 0, true);
    } else {
        push_word(steps, ",");
        push_break(steps, 1, false);
    }
    assert(ops_of(steps@) =~= ops_of(old(steps)@) + trailing_comma(is_last));
}

fn lay_binding(steps: &mut Vec<Step>, binding: &Binding)
    ensures
        ops_of(final(steps)@) == ops_of(old(steps)@) + binding.ops(),
{
    push_word(steps, binding.ident.as_str());
    push_word(steps, " = ");
    push_script(steps, &binding.ty);
    assert(ops_of(steps@) =~= ops_of(old(steps)@) + binding.ops());
}

fn lay_constraint(steps: &mut Vec<Step>, constraint: &Constraint)
    ensures
        ops_of(final(steps)@) == ops_of(old(steps)@) + constraint.ops(),
{
    push_word(steps, constraint.ident.as_str());
    push_step(steps, Step::Begin(BeginToken { offset: INDENT, breaks: Breaks::Inconsistent }));
    let ghost head = ops_of(steps@);
    let mut i: usize = 0;
    assert(head + bounds_ops(constraint.bounds@, 0) =~= head);
    while i < constraint.bounds.len()
        invariant
            i <= constraint.bounds.len(),
            ops_of(steps@) == head + bounds_ops(constraint.bounds@, i as int),
        decreases constraint.bounds.len() - i,
    {
        let ghost before = ops_of(steps@);
        if i == 0 {
            push_word(steps, ": ");
        } else {
            push_break(steps, 1, false);
            push_word(steps, "+ ");
        }
        push_script(steps, &constraint.bounds[i]);
        i += 1;
        assert(ops_of(steps@) =~= head + bounds_ops(constraint.bounds@, i as int));
    }
    push_step(steps, Step::End);
    assert(ops_of(steps@) =~= ops_of(old(steps)@) + constraint.ops());
}

fn lay_generic_argument(steps: &mut Vec<Step>, arg: &GenericArgument)
    ensures
        ops_of(final(steps)@) == ops_of(old(steps)@) + arg.ops(),
{
    match arg {
        GenericArgument::Lifetime(lifetime) => push_script(steps, lifetime),
        GenericArgument::Type(ty) => push_script(steps, ty),
        GenericArgument::Binding(binding) => lay_binding(steps, binding),
        GenericArgument::Constraint(constraint) => lay_constraint(steps, constraint),
        GenericArgument::Const(expr) => {
            match expr {
                ConstArgument::Lit(expr) => push_script(steps, expr),
                ConstArgument::Block(expr) => push_script(steps, expr),
                ConstArgument::Other(expr) => {
                    push_word(steps, "{");
                    push_script(steps, expr);
                    push_word(steps, "}");
                    assert(ops_of(steps@) =~= ops_of(old(steps)@) + arg.ops());
                },
            }
        },
    }
}

fn group(arg: &GenericArgument) -> (rank: u8)
    ensures
        rank == arg.rank(),
{
    match arg {
        GenericArgument::Lifetime(_) => 0,
        GenericArgument::Type(_) | GenericArgument::Const(_) => 1,
        GenericArgument::Binding(_) | GenericArgument::Constraint(_) => 2,
    }
}

fn last_written(args: &Vec<GenericArgument>) -> (last: usize)
    requires
        args@.len() > 0,
    ensures
        last < args@.len(),
        last == written_last(args@, args@.len() as int),
{
    let mut last: usize = 0;
    let mut i: usize = 1;
    while i < args.len()
        invariant
            1 <= i <= args.len(),
            last < i,
            last == written_last(args@, i as int),
        decreases args.len() - i,
    {
        if group(&args[i]) >= group(&args[last]) {
            last = i;
        }
        i += 1;
    }
    last
}

fn lay_ranked(steps: &mut Vec<Step>, args: &Vec<GenericArgument>, last: usize, rank: u8)
    ensures
        ops_of(final(steps)@) == ops_of(old(steps)@) + ranked_ops(
            args@,
            last as int,
            rank as nat,
            args@.len() as int,
        ),
{
    let ghost head = ops_of(steps@);
    let mut i: usize = 0;
    assert(head =~= head + ranked_ops(args@, last as int, rank as nat, 0));
    while i < args.len()
        invariant
            i <= args.len(),
            ops_of(steps@) == head + ranked_ops(args@, last as int, rank as nat, i as int),
        decreases args.len() - i,
    {
        let arg = &args[i];
        if group(arg) == rank {
            lay_generic_argument(steps, arg);
            push_trailing_comma(steps, i == last);
        }
        i += 1;
        assert(ops_of(steps@) =~= head + ranked_ops(args@, last as int, rank as nat, i as int));
    }
}

fn lay_angle_bracketed_generic_arguments(
    steps: &mut Vec<Step>,
    generic: &AngleBracketedGenericArguments,
)
    ensures
        ops_of(final(steps)@) == ops_of(old(steps)@) + generic.ops(),
{
    let ghost base = ops_of(steps@);
    if generic.args.len() == 0 {
        assert(base =~= base + generic.ops());
        return ;
    }
    if generic.colon2_token {
        push_word(steps, "::");
    }
    let ghost colons = if generic.colon2_token {
        seq![word("::"@)]
    } else {
        Seq::empty()
    };
    assert(ops_of(steps@) =~= base + colons);
    push_word(steps, "<");
    push_step(steps, Step::Begin(BeginToken { offset: INDENT, breaks: Breaks::Consistent }));
    push_break(steps, 0, false);
    let ghost opened = colons + seq![word("<"@), cbox(INDENT as int), Op::Break(plain_break(0))];
    assert(ops_of(steps@) =~= base + opened);

    // Lifetimes go before types and consts, all before bindings, regardless
    // of their order among the arguments.
    let last = last_written(&generic.args);
    let ghost n = generic.args@.len() as int;
    lay_ranked(steps, &generic.args, last, 0);
    let ghost first = opened + ranked_ops(generic.args@, last as int, 0, n);
    proof {
        lemma_concat(base, opened, ranked_ops(generic.args@, last as int, 0, n));
    }
    lay_ranked(steps, &generic.args, last, 1);
    let ghost second = first + ranked_ops(generic.args@, last as int, 1, n);
    proof {
        lemma_concat(base, first, ranked_ops(generic.args@, last as int, 1, n));
    }
    lay_ranked(steps, &generic.args, last, 2);
    let ghost third = second + ranked_ops(generic.args@, last as int, 2, n);
    proof {
        lemma_concat(base, second, ranked_ops(generic.args@, last as int, 2, n));
    }
    assert(ops_of(steps@) == base + third);

    push_step(steps, Step::Offset(-INDENT));
    push_step(steps, Step::End);
    push_word(steps, ">");
    proof {
        let closing = seq![Op::Offset(-INDENT as int), Op::End, word(">"@)];
        assert(ops_of(steps@) =~= (base + third) + closing);
        lemma_concat(base, third, closing);
        assert(third + closing == generic.ops());
    }
}

fn lay_parenthesized_generic_arguments(
    steps: &mut Vec<Step>,
    arguments: &ParenthesizedGenericArguments,
)
    ensures
        ops_of(final(steps)@) == ops_of(old(steps)@) + arguments.ops(),
{
    push_step(steps, Step::Begin(BeginToken { offset: INDENT, breaks: Breaks::Consistent }));
    push_word(steps, "(");
    push_break(steps, 0, false);
    let ghost head = ops_of(steps@);
    let mut i: usize = 0;
    assert(head =~= head + inputs_ops(arguments.inputs@, 0));
    while i < arguments.inputs.len()
        invariant
            i <= arguments.inputs.len(),
            ops_of(steps@) == head + inputs_ops(arguments.inputs@, i as int),
        decreases arguments.inputs.len() - i,
    {
        push_script(steps, &arguments.inputs[i]);
        push_trailing_comma(steps, i + 1 == arguments.inputs.len());
        i += 1;
        assert(ops_of(steps@) =~= head + inputs_ops(arguments.inputs@, i as int));
    }
    push_step(steps, Step::Offset(-INDENT));
    push_word(steps, ")");
    push_script(steps, &arguments.output);
    push_step(steps, Step::End);
    assert(ops_of(steps@) =~= ops_of(old(steps)@) + arguments.ops());
}

fn lay_path_arguments(steps: &mut Vec<Step>, arguments: &PathArguments)
    ensures
        ops_of(final(steps)@) == ops_of(old(steps)@) + arguments.ops(),
{
    match arguments {
        PathArguments::Empty => {
            assert(ops_of(steps@) =~= ops_of(old(steps)@) + arguments.ops());
        },
        PathArguments::AngleBracketed(arguments) => {
            lay_angle_bracketed_generic_arguments(steps, arguments);
        },
        PathArguments::Parenthesized(arguments) => {
            lay_parenthesized_generic_arguments(steps, arguments);
        },
    }
}

fn lay_path_segment(steps: &mut Vec<Step>, segment: &PathSegment)
    ensures
        ops_of(final(steps)@) == ops_of(old(steps)@) + segment.ops(),
{
    push_word(steps, segment.ident.as_str());
    lay_path_arguments(steps, &segment.arguments);
    assert(ops_of(steps@) =~= ops_of(old(steps)@) + segment.ops());
}

/// The position as a number that no segment has, where there is none.
pub open spec fn position_of(close: Option<usize>) -> int {
    match close {
        Some(position) => position as int,
        None => -1,
    }
}

fn lay_segments(
    steps: &mut Vec<Step>,
    path: &Path,
    leading_colon: bool,
    from: usize,
    to: usize,
    close: Option<usize>,
)
    requires
        from <= to <= path.segments@.len(),
    ensures
        ops_of(final(steps)@) == ops_of(old(steps)@) + segments_ops(
            path.segments@,
            leading_colon,
            from as int,
            to as int,
            position_of(close),
        ),
{
    let ghost head = ops_of(steps@);
    let ghost segments = path.segments@;
    let mut i: usize = from;
    assert(head =~= head + segments_ops(
        segments,
        leading_colon,
        from as int,
        from as int,
        position_of(close),
    ));
    while i < to
        invariant
            from <= i <= to <= path.segments@.len(),
            segments == path.segments@,
            ops_of(steps@) == head + segments_ops(
                segments,
                leading_colon,
                from as int,
                i as int,
                position_of(close),
            ),
        decreases to - i,
    {
        if i > 0 || leading_colon {
            push_word(steps, "::");
        }
        lay_path_segment(steps, &path.segments[i]);
        i += 1;
        let closes = match close {
            Some(position) => position == i,
            None => false,
        };
        if closes {
            push_word(steps, ">");
        }
        assert(ops_of(steps@) =~= head + segments_ops(
            segments,
            leading_colon,
            from as int,
            i as int,
            position_of(close),
        ));
    }
}

impl Path {
    /// The path as a script.
    pub fn script(&self) -> (script: Script)
        ensures
            script@ == self.ops(),
    {
        let mut steps: Vec<Step> = Vec::new();
        lay_segments(&mut steps, self, self.leading_colon, 0, self.segments.len(), None);
        assert(ops_of(steps@) =~= self.ops());
        Script { steps }
    }

    /// The path after the type that qualifies it, as a script.
    pub fn qualified_script(&self, qself: &QSelf) -> (script: Script)
        requires
            qself.position < self.segments@.len(),
        ensures
            script@ == self.qualified_ops(*qself),
    {
        let mut steps: Vec<Step> = Vec::new();
        push_word(&mut steps, "<");
        push_script(&mut steps, &qself.ty);
        if qself.position > 0 {
            push_word(&mut steps, " as ");
            lay_segments(
                &mut steps,
                self,
                self.leading_colon,
                0,
                qself.position,
                Some(qself.position),
            );
        } else {
            push_word(&mut steps, ">");
        }
        lay_segments(&mut steps, self, true, qself.position, self.segments.len(), None);
        assert(ops_of(steps@) =~= self.qualified_ops(*qself));
        Script { steps }
    }
}

impl PathSegment {
    /// The segment as a script.
    pub fn script(&self) -> (script: Script)
        ensures
            script@ == self.ops(),
    {
        let mut steps: Vec<Step> = Vec::new();
        lay_path_segment(&mut steps, self);
        assert(ops_of(steps@) =~= self.ops());
        Script { steps }
    }
}

impl Printer {
    /// Hands the printer a path. The path has at least one segment.
    pub fn path(&mut self, path: &Path)
        requires
            old(self).wf(),
            path.segments@.len() > 0,
            old(self).ready_for(path.ops()),
        ensures
            final(self).wf(),
            final(self)@ == old(self)@.run(path.ops()),
            final(self).spent() == old(self).spent() + crate::script::cost_all(path.ops()),
    {
        let script = path.script();
        self.play(&script);
    }

    /// Hands the printer one segment of a path.
    pub fn path_segment(&mut self, segment: &PathSegment)
        requires
            old(self).wf(),
            old(self).ready_for(segment.ops()),
        ensures
            final(self).wf(),
            final(self)@ == old(self)@.run(segment.ops()),
            final(self).spent() == old(self).spent() + crate::script::cost_all(segment.ops()),
    {
        let script = segment.script();
        self.play(&script);
    }

    /// Hands the printer a path after the type that qualifies it, if one
    /// does. The path has at least one segment, and more segments than name
    /// the trait.
    pub fn qpath(&mut self, qself: &Option<QSelf>, path: &Path)
        requires
            old(self).wf(),
            path.segments@.len() > 0,
            qself matches Some(q) ==> q.position < path.segments@.len(),
            old(self).ready_for(qpath_ops(*qself, *path)),
        ensures
            final(self).wf(),
            final(self)@ == old(self)@.run(qpath_ops(*qself, *path)),
            final(self).spent() == old(self).spent() + crate::script::cost_all(
                qpath_ops(*qself, *path),
            ),
    {
        let qself = match qself {
            Some(qself) => qself,
            None => {
                self.path(path);
                return ;
            },
        };
        let script = path.qualified_script(qself);
        self.play(&script);
    }
}

} // verus!
