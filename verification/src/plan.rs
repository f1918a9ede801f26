//! Reified plans: every control-flow choice of the rewriter is captured as
//! plan data, so the driver can advance the computation one step at a time
//! and inspect it between steps.

use vstd::prelude::*;
use crate::atom::{Atom, AtomView};
use crate::bindings::{Bindings, BindingsView};
use crate::space::GroundingSpace;
use crate::subexpr::{StreamView, SubexprStream};

verus! {

/// The outcome of interpretation: a collection of result atoms with the
/// bindings of their branches, or a textual error.
pub type InterpreterResult = Result<Vec<(Atom, Bindings)>, String>;

/// The model of an `InterpreterResult`.
pub type ResultView = Result<Seq<(AtomView, BindingsView)>, Seq<char>>;

/// The models of a sequence of result pairs, element by element.
pub open spec fn pairs_view(s: Seq<(Atom, Bindings)>) -> Seq<(AtomView, BindingsView)>
    decreases s,
    via pairs_view_decreases
{
    if s.len() == 0 {
        Seq::empty()
    } else {
        pairs_view(s.subrange(0, s.len() - 1)).push((s[s.len() - 1].0@, s[s.len() - 1].1@))
    }
}

#[via_fn]
proof fn pairs_view_decreases(s: Seq<(Atom, Bindings)>) {
    if s.len() != 0 {
        vstd::seq::axiom_seq_subrange_decreases(s, 0, s.len() - 1);
    }
}

/// `pairs_view` takes each pair to its model, position by position.
pub broadcast proof fn lemma_pairs_view(s: Seq<(Atom, Bindings)>)
    ensures
        (#[trigger] pairs_view(s)).len() == s.len(),
        forall|i: int|
            0 <= i < s.len() ==> pairs_view(s)[i] == ((#[trigger] s[i]).0@, s[i].1@),
    decreases s.len(),
{
    if s.len() != 0 {
        lemma_pairs_view(s.subrange(0, s.len() - 1));
        assert(forall|i: int|
            0 <= i < s.len() - 1 ==> s.subrange(0, s.len() - 1)[i] == #[trigger] s[i]);
    }
}

/// The model of an interpreter result.
pub open spec fn result_view(r: InterpreterResult) -> ResultView {
    match r {
        Ok(v) => Ok(pairs_view(v@)),
        Err(m) => Err(m@),
    }
}

/// A suspended second stage of a sequence, waiting for the value of the
/// first stage.
#[derive(Debug)]
pub enum PartialOp {
    /// Interpret every produced pair further.
    ResultsFurther(GroundingSpace),
    /// Slot each reduced argument into the cursor and go on to the next one.
    ReductNextArg(GroundingSpace, SubexprStream),
    /// Slot each reduction result into the cursor and interpret the whole.
    AfterArgReduction(GroundingSpace, SubexprStream),
}

/// The model of a suspended second stage.
#[verifier::ext_equal]
pub ghost enum PartialOpView {
    ResultsFurther(Seq<AtomView>),
    ReductNextArg(Seq<AtomView>, StreamView),
    AfterArgReduction(Seq<AtomView>, StreamView),
}

impl View for PartialOp {
    type V = PartialOpView;

    open spec fn view(&self) -> PartialOpView {
        match self {
            PartialOp::ResultsFurther(sp) => PartialOpView::ResultsFurther(sp@),
            PartialOp::ReductNextArg(sp, s) => PartialOpView::ReductNextArg(sp@, s@),
            PartialOp::AfterArgReduction(sp, s) => PartialOpView::AfterArgReduction(sp@, s@),
        }
    }
}

/// A suspended computation.  Stepping a plan applies one rule of the
/// rewriter or advances one sub-plan.
#[derive(Debug)]
pub enum Plan {
    /// Try to interpret; on an error fall back to the atom itself.
    InterpretOrDefault(GroundingSpace, Atom, Bindings),
    /// Case-split on the shape of the atom.
    Interpret(GroundingSpace, Atom, Bindings),
    /// Execute or rewrite an expression whose children are already reduced.
    InterpretReducted(GroundingSpace, Atom, Bindings),
    /// Reduce the child expressions of a grounded-headed expression.
    ReductArgs(GroundingSpace, Atom, Bindings),
    /// Rewrite against the knowledge base.
    MatchQuery(GroundingSpace, Atom, Bindings),
    /// Run the grounded operation at the head of an expression.
    ExecuteGrounded(Atom, Bindings),
    /// Reduce one sub-expression at a time, walking the cursor.
    ReductArgByArg(GroundingSpace, SubexprStream, Bindings),
    /// A second stage together with the value of its first stage.
    Feed(PartialOp, InterpreterResult),
    /// Run the sub-plan to a value, then feed the value to the second stage.
    Sequence(Box<Plan>, PartialOp),
    /// Run the sub-plan; on an error replace it by the fallback.
    Or(Box<Plan>, Box<StepResult>),
    /// Advance the queued sub-plans one at a time in order, concatenating
    /// their produced pairs onto the accumulator.
    Parallel(Vec<Plan>, Vec<(Atom, Bindings)>),
}

/// What one step of the driver produced: a plan to continue with, a final
/// value, or a final error.
#[derive(Debug)]
pub enum StepResult {
    Execute(Plan),
    Return(InterpreterResult),
    Error(String),
}

/// The model of a plan.
#[verifier::ext_equal]
pub ghost enum PlanView {
    InterpretOrDefault(Seq<AtomView>, AtomView, BindingsView),
    Interpret(Seq<AtomView>, AtomView, BindingsView),
    InterpretReducted(Seq<AtomView>, AtomView, BindingsView),
    ReductArgs(Seq<AtomView>, AtomView, BindingsView),
    MatchQuery(Seq<AtomView>, AtomView, BindingsView),
    ExecuteGrounded(AtomView, BindingsView),
    ReductArgByArg(Seq<AtomView>, StreamView, BindingsView),
    Feed(PartialOpView, ResultView),
    Sequence(Box<PlanView>, PartialOpView),
    Or(Box<PlanView>, Box<StepView>),
    Parallel(Seq<PlanView>, Seq<(AtomView, BindingsView)>),
}

/// The model of a step result.
#[verifier::ext_equal]
pub ghost enum StepView {
    Execute(PlanView),
    Return(ResultView),
    Error(Seq<char>),
}

/// The model of a plan, defined by structural recursion.
pub open spec fn plan_view(p: Plan) -> PlanView
    decreases p,
    via plan_view_decreases
{
    match p {
        Plan::InterpretOrDefault(sp, a, b) => PlanView::InterpretOrDefault(sp@, a@, b@),
        Plan::Interpret(sp, a, b) => PlanView::Interpret(sp@, a@, b@),
        Plan::InterpretReducted(sp, a, b) => PlanView::InterpretReducted(sp@, a@, b@),
        Plan::ReductArgs(sp, a, b) => PlanView::ReductArgs(sp@, a@, b@),
        Plan::MatchQuery(sp, a, b) => PlanView::MatchQuery(sp@, a@, b@),
        Plan::ExecuteGrounded(a, b) => PlanView::ExecuteGrounded(a@, b@),
        Plan::ReductArgByArg(sp, s, b) => PlanView::ReductArgByArg(sp@, s@, b@),
        Plan::Feed(q, r) => PlanView::Feed(q@, result_view(r)),
        Plan::Sequence(p1, q) => PlanView::Sequence(Box::new(plan_view(*p1)), q@),
        Plan::Or(p1, fb) => PlanView::Or(Box::new(plan_view(*p1)), Box::new(step_view(*fb))),
        Plan::Parallel(queue, acc) => PlanView::Parallel(plans_view(queue@), pairs_view(acc@)),
    }
}

/// The models of a sequence of plans, element by element.
pub open spec fn plans_view(s: Seq<Plan>) -> Seq<PlanView>
    decreases s,
    via plans_view_decreases
{
    if s.len() == 0 {
        Seq::empty()
    } else {
        plans_view(s.subrange(0, s.len() - 1)).push(plan_view(s[s.len() - 1]))
    }
}

/// The model of a step result, defined by structural recursion.
pub open spec fn step_view(s: StepResult) -> StepView
    decreases s,
{
    match s {
        StepResult::Execute(p) => StepView::Execute(plan_view(p)),
        StepResult::Return(r) => StepView::Return(result_view(r)),
        StepResult::Error(m) => StepView::Error(m@),
    }
}

#[via_fn]
proof fn plan_view_decreases(p: Plan) {
    if p is Parallel {
        assert(decreases_to!(p => p->Parallel_0));
        assert(decreases_to!(p->Parallel_0 => p->Parallel_0@));
    }
}

#[via_fn]
proof fn plans_view_decreases(s: Seq<Plan>) {
    if s.len() != 0 {
        vstd::seq::axiom_seq_subrange_decreases(s, 0, s.len() - 1);
        vstd::seq::axiom_seq_index_decreases(s, s.len() - 1);
    }
}

/// `plans_view` takes each plan to its model, position by position.
pub broadcast proof fn lemma_plans_view(s: Seq<Plan>)
    ensures
        (#[trigger] plans_view(s)).len() == s.len(),
        forall|i: int| 0 <= i < s.len() ==> plans_view(s)[i] == plan_view(#[trigger] s[i]),
    decreases s.len(),
{
    if s.len() != 0 {
        lemma_plans_view(s.subrange(0, s.len() - 1));
        assert(forall|i: int|
            0 <= i < s.len() - 1 ==> s.subrange(0, s.len() - 1)[i] == #[trigger] s[i]);
    }
}

impl View for Plan {
    type V = PlanView;

    open spec fn view(&self) -> PlanView {
        plan_view(*self)
    }
}

impl View for StepResult {
    type V = StepView;

    open spec fn view(&self) -> StepView {
        step_view(*self)
    }
}

/// A height fact used for termination: the first queued sub-plan of a
/// parallel plan is smaller than the plan itself.
pub proof fn lemma_queue_decreases(p: Plan, i: int)
    requires
        p is Parallel,
        0 <= i < p->Parallel_0@.len(),
    ensures
        decreases_to!(p => p->Parallel_0@[i]),
{
    assert(decreases_to!(p => p->Parallel_0));
    vstd::std_specs::vec::axiom_vec_index_decreases(p->Parallel_0, i);
}

impl StepResult {
    /// Whether the plan has another step to take.
    pub fn has_next(&self) -> (r: bool)
        ensures
            r == (self@ is Execute),
    {
        matches!(self, StepResult::Execute(..))
    }

    /// The final value of a finished plan.
    pub fn get_result(self) -> (r: Result<InterpreterResult, String>)
        requires
            !(self@ is Execute),
        ensures
            match r {
                Ok(v) => self@ == StepView::Return(result_view(v)),
                Err(m) => self@ == StepView::Error(m@),
            },
    {
        match self {
            StepResult::Return(v) => Ok(v),
            StepResult::Error(m) => Err(m),
            StepResult::Execute(..) => Err("plan is not finished".to_string()),
        }
    }
}

} // verus!
