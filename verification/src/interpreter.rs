//! The rewriter: mutually recursive plan-producing rules realising the
//! interpretation of an atom against a knowledge base, and the driver that
//! advances the resulting plans step by step.
//!
//! Every rule has a specification mirror over the models; stepping a plan is
//! proved to produce exactly the step that the mirror describes, and the
//! driver's result is tied to iterating the mirror.

use vstd::prelude::*;
use crate::atom::{
    Atom, AtomView, ExpressionAtom, GroundedAtom, atoms_view, clone_atom, collect_var_names,
    lemma_atoms_view, lemma_mentions_le, lemma_var_names_all_le, mentions_var, spec_execute_grounded,
    spec_var_names, spec_var_names_all,
};
use crate::atom::VariableAtom;
use crate::bindings::{
    Bindings, BindingsView, apply_bindings_to_atom, apply_bindings_to_bindings,
    lemma_apply_no_mention, spec_apply, spec_compose, spec_lookup, spec_remove,
};
use crate::matcher::{spec_match, spec_match_children};
use crate::plan::{
    InterpreterResult, PartialOp, PartialOpView, Plan, PlanView, ResultView, StepResult, StepView,
    lemma_pairs_view, lemma_plans_view, pairs_view, plan_view, plans_view, result_view, step_view,
};
use crate::space::{GroundingSpace, bindings_list_view, lemma_bindings_list_view, spec_query};
use crate::subexpr::{
    StreamView, SubexprStream, spec_at, spec_replace, spec_sibling_paths, spec_sub_paths,
    sibling_paths, sub_expr_paths,
};

verus! {

// ---------------------------------------------------------------------------
// Specification mirrors of the rewrite rules
// ---------------------------------------------------------------------------

/// The pattern queried for an atom: `(= atom x)`, with `x` the probe
/// variable.
pub open spec fn spec_probe(a: AtomView, x: Seq<char>) -> AtomView {
    AtomView::Expr {
        children: seq![
            AtomView::Sym { name: "="@ },
            a,
            AtomView::Var { name: x },
        ],
    }
}

/// The probe variable used when rewriting `a` against the store: one letter
/// longer than every variable name occurring in the store or in `a`, so it
/// is fresh with respect to both.
pub open spec fn spec_fresh_name(sp: Seq<AtomView>, a: AtomView) -> Seq<char> {
    spec_var_names_all(sp) + spec_var_names(a) + seq!['X']
}

/// The probe variable collides with nothing: no stored atom and not the
/// queried atom mentions a variable of that name.
pub proof fn lemma_fresh_name(sp: Seq<AtomView>, a: AtomView)
    ensures
        !mentions_var(a, spec_fresh_name(sp, a)),
        forall|j: int| 0 <= j < sp.len() ==> !mentions_var(#[trigger] sp[j], spec_fresh_name(
            sp,
            a,
        )),
{
    let f = spec_fresh_name(sp, a);
    assert(f.len() == spec_var_names_all(sp).len() + spec_var_names(a).len() + 1);
    if mentions_var(a, f) {
        lemma_mentions_le(a, f);
    }
    assert forall|j: int| 0 <= j < sp.len() implies !mentions_var(#[trigger] sp[j], f) by {
        if mentions_var(sp[j], f) {
            lemma_mentions_le(sp[j], f);
            lemma_var_names_all_le(sp, j);
        }
    }
}

/// Whether the first child is a grounded atom.
pub open spec fn spec_is_grounded(a: AtomView) -> bool {
    a is Expr && a->Expr_children.len() > 0 && a->Expr_children[0] is Gnd
}

/// Whether the head is the grounded value whose textual form is `match`.
pub open spec fn spec_is_match_head(a: AtomView) -> bool {
    a is Expr && a->Expr_children.len() > 0 && a->Expr_children[0] == (AtomView::Gnd {
        value: GroundedAtom::MatchOp,
    })
}

/// Advancing a cursor: the cursor after the step and the atom handed out.
pub open spec fn spec_stream_next(s: StreamView) -> (StreamView, Option<AtomView>) {
    if s.next < s.paths.len() {
        (
            StreamView { root: s.root, paths: s.paths, next: s.next + 1 },
            spec_at(s.root, s.paths[s.next]),
        )
    } else {
        (s, None)
    }
}

/// Replacing the focus of a cursor.
pub open spec fn spec_set_focus(s: StreamView, v: AtomView) -> StreamView {
    if 1 <= s.next <= s.paths.len() {
        StreamView {
            root: spec_replace(s.root, s.paths[s.next - 1], v),
            paths: s.paths,
            next: s.next,
        }
    } else {
        s
    }
}

/// Canonicalise the atom by the bindings, then try to interpret it; on any
/// error fall back to the canonicalised atom itself.
pub open spec fn spec_interpret_or_default_op(
    sp: Seq<AtomView>,
    a: AtomView,
    b: BindingsView,
) -> StepView {
    let a2 = spec_apply(a, b);
    StepView::Execute(
        PlanView::Or(
            Box::new(PlanView::Interpret(sp, a2, b)),
            Box::new(StepView::Return(Ok(seq![(a2, b)]))),
        ),
    )
}

/// Case-split on the atom: a non-expression returns itself; a plain
/// expression is interpreted as already reduced; a grounded-headed
/// expression has its arguments reduced first; any other expression is
/// matched against the knowledge base, with argument-by-argument reduction
/// as the fallback, and every branch is interpreted further.
pub open spec fn spec_interpret_op(sp: Seq<AtomView>, a: AtomView, b: BindingsView) -> StepView {
    if a is Expr {
        if a.is_plain_expr() {
            StepView::Execute(PlanView::InterpretReducted(sp, a, b))
        } else if spec_is_grounded(a) {
            StepView::Execute(PlanView::ReductArgs(sp, a, b))
        } else {
            StepView::Execute(
                PlanView::Sequence(
                    Box::new(
                        PlanView::Or(
                            Box::new(PlanView::MatchQuery(sp, a, b)),
                            Box::new(spec_reduct_arg_by_arg_plan(sp, a, b)),
                        ),
                    ),
                    PartialOpView::ResultsFurther(sp),
                ),
            )
        }
    } else {
        StepView::Return(Ok(seq![(a, b)]))
    }
}

/// Starts the argument-by-argument walk over the sub-expressions.
pub open spec fn spec_reduct_arg_by_arg_plan(
    sp: Seq<AtomView>,
    a: AtomView,
    b: BindingsView,
) -> StepView {
    if a is Expr {
        spec_reduct_arg_by_arg_op(
            sp,
            StreamView { root: a, paths: spec_sub_paths(a), next: 0 },
            b,
        )
    } else {
        StepView::Error("Atom::Expression is expected as an argument"@)
    }
}

/// Try to reduce the focused sub-expression; on failure go on to the next
/// position; when the walk is exhausted, fail.
pub open spec fn spec_reduct_arg_by_arg_op(
    sp: Seq<AtomView>,
    s: StreamView,
    b: BindingsView,
) -> StepView {
    let s2 = spec_stream_next(s).0;
    match spec_stream_next(s).1 {
        Some(arg) => StepView::Execute(
            PlanView::Or(
                Box::new(
                    PlanView::Sequence(
                        Box::new(PlanView::InterpretReducted(sp, arg, b)),
                        PartialOpView::AfterArgReduction(sp, s2),
                    ),
                ),
                Box::new(StepView::Execute(PlanView::ReductArgByArg(sp, s2, b))),
            ),
        ),
        None => StepView::Error("No results for reducted found"@),
    }
}

/// The branches that interpret the whole expression after one sub-expression
/// was reduced: one per reduction result, in order.
pub open spec fn spec_after_branches(
    sp: Seq<AtomView>,
    s: StreamView,
    v: Seq<(AtomView, BindingsView)>,
) -> Seq<PlanView>
    decreases v,
    via spec_after_branches_decreases
{
    if v.len() == 0 {
        Seq::empty()
    } else {
        spec_after_branches(sp, s, v.subrange(0, v.len() - 1)).push(
            PlanView::InterpretOrDefault(
                sp,
                spec_set_focus(s, v[v.len() - 1].0).root,
                v[v.len() - 1].1,
            ),
        )
    }
}

#[via_fn]
proof fn spec_after_branches_decreases(
    sp: Seq<AtomView>,
    s: StreamView,
    v: Seq<(AtomView, BindingsView)>,
) {
    if v.len() != 0 {
        vstd::seq::axiom_seq_subrange_decreases(v, 0, v.len() - 1);
    }
}

/// A successful but empty reduction is the no-result special case: the walk
/// must go on at the next position rather than let the expression vanish.
pub open spec fn spec_after_arg_reduction_op(
    sp: Seq<AtomView>,
    s: StreamView,
    res: ResultView,
) -> StepView {
    match res {
        Err(m) => StepView::Error(m),
        Ok(v) => if v.len() == 0 {
            StepView::Error("NOP special case"@)
        } else {
            StepView::Execute(PlanView::Parallel(spec_after_branches(sp, s, v), Seq::empty()))
        },
    }
}

/// Starts reducing the child expressions of a grounded-headed expression,
/// left to right; a head whose textual form is `match` keeps its last
/// argument unreduced.
pub open spec fn spec_reduct_args_op(sp: Seq<AtomView>, a: AtomView, b: BindingsView) -> StepView {
    if a is Expr {
        let s = StreamView {
            root: a,
            paths: spec_sibling_paths(a, spec_is_match_head(a)),
            next: 0,
        };
        let s2 = spec_stream_next(s).0;
        match spec_stream_next(s).1 {
            Some(sub) => StepView::Execute(
                PlanView::Sequence(
                    Box::new(PlanView::InterpretOrDefault(sp, sub, b)),
                    PartialOpView::ReductNextArg(sp, s2),
                ),
            ),
            None => StepView::Error("Non plain expression expected"@),
        }
    } else {
        StepView::Error("Atom::Expression is expected as an argument"@)
    }
}

/// The branches that continue argument reduction: for each reduced value,
/// slot it into the cursor; if another child expression follows, reduce it,
/// otherwise interpret the fully reduced expression.
pub open spec fn spec_next_branches(
    sp: Seq<AtomView>,
    s: StreamView,
    v: Seq<(AtomView, BindingsView)>,
) -> Seq<PlanView>
    decreases v,
    via spec_next_branches_decreases
{
    if v.len() == 0 {
        Seq::empty()
    } else {
        let p = v[v.len() - 1];
        let s2 = spec_set_focus(s, p.0);
        let s3 = spec_stream_next(s2).0;
        spec_next_branches(sp, s, v.subrange(0, v.len() - 1)).push(
            match spec_stream_next(s2).1 {
                Some(sub) => PlanView::Sequence(
                    Box::new(PlanView::InterpretOrDefault(sp, sub, p.1)),
                    PartialOpView::ReductNextArg(sp, s3),
                ),
                None => PlanView::InterpretReducted(sp, s3.root, p.1),
            },
        )
    }
}

#[via_fn]
proof fn spec_next_branches_decreases(
    sp: Seq<AtomView>,
    s: StreamView,
    v: Seq<(AtomView, BindingsView)>,
) {
    if v.len() != 0 {
        vstd::seq::axiom_seq_subrange_decreases(v, 0, v.len() - 1);
    }
}

/// Fans out over the results of the previous argument's reduction.
pub open spec fn spec_reduct_next_arg_op(
    sp: Seq<AtomView>,
    s: StreamView,
    res: ResultView,
) -> StepView {
    match res {
        Err(m) => StepView::Error(m),
        Ok(v) => StepView::Execute(
            PlanView::Parallel(spec_next_branches(sp, s, v), Seq::empty()),
        ),
    }
}

/// Pairs every produced atom with the bindings of the branch.
pub open spec fn spec_pairs_with(atoms: Seq<AtomView>, b: BindingsView) -> Seq<
    (AtomView, BindingsView),
>
    decreases atoms,
    via spec_pairs_with_decreases
{
    if atoms.len() == 0 {
        Seq::empty()
    } else {
        spec_pairs_with(atoms.subrange(0, atoms.len() - 1), b).push((atoms[atoms.len() - 1], b))
    }
}

#[via_fn]
proof fn spec_pairs_with_decreases(atoms: Seq<AtomView>, b: BindingsView) {
    if atoms.len() != 0 {
        vstd::seq::axiom_seq_subrange_decreases(atoms, 0, atoms.len() - 1);
    }
}

/// Runs the grounded head on the argument tuple; each produced atom becomes
/// a branch carrying the current bindings.
pub open spec fn spec_execute_op(a: AtomView, b: BindingsView) -> StepView {
    if a is Expr && a->Expr_children.len() >= 1 && a->Expr_children[0] is Gnd {
        let g = a->Expr_children[0]->Gnd_value;
        let args = a->Expr_children.subrange(1, a->Expr_children.len() as int);
        match spec_execute_grounded(g, args) {
            Ok(atoms) => StepView::Return(Ok(spec_pairs_with(atoms, b))),
            Err(m) => StepView::Error(m),
        }
    } else if a is Expr {
        StepView::Error("Trying to execute non grounded atom"@)
    } else {
        StepView::Error("Unexpected non expression argument"@)
    }
}

/// For each binding set returned by the query: the rewritten atom is the
/// value of the probe variable with the remaining bindings substituted in;
/// the branch bindings are the remaining bindings composed with the previous
/// ones; candidates whose composition conflicts are discarded.
pub open spec fn spec_match_results(bs: Seq<BindingsView>, prev: BindingsView, x: Seq<char>) -> Seq<
    (AtomView, BindingsView),
>
    decreases bs,
    via spec_match_results_decreases
{
    if bs.len() == 0 {
        Seq::empty()
    } else {
        let bv = bs[bs.len() - 1];
        let res0 = match spec_lookup(bv, x) {
            Some(v) => v,
            None => AtomView::Var { name: x },
        };
        let rest = spec_remove(bv, x);
        let res = spec_apply(res0, rest);
        spec_match_results(bs.subrange(0, bs.len() - 1), prev, x) + (match spec_compose(
            rest,
            prev,
        ) {
            Some(m) => seq![(res, m)],
            None => Seq::empty(),
        })
    }
}

#[via_fn]
proof fn spec_match_results_decreases(bs: Seq<BindingsView>, prev: BindingsView, x: Seq<char>) {
    if bs.len() != 0 {
        vstd::seq::axiom_seq_subrange_decreases(bs, 0, bs.len() - 1);
    }
}

/// Queries the knowledge base with the probe `(= atom X)`; no surviving
/// candidate is the match-not-found error.
pub open spec fn spec_match_op(sp: Seq<AtomView>, a: AtomView, prev: BindingsView) -> StepView {
    let x = spec_fresh_name(sp, a);
    let results = spec_match_results(spec_query(sp, spec_probe(a, x)), prev, x);
    if results.len() == 0 {
        StepView::Error("Match is not found"@)
    } else {
        StepView::Return(Ok(results))
    }
}

/// The branches that interpret every produced pair further, in order.
pub open spec fn spec_further_branches(sp: Seq<AtomView>, v: Seq<(AtomView, BindingsView)>) -> Seq<
    PlanView,
>
    decreases v,
    via spec_further_branches_decreases
{
    if v.len() == 0 {
        Seq::empty()
    } else {
        spec_further_branches(sp, v.subrange(0, v.len() - 1)).push(
            PlanView::InterpretOrDefault(sp, v[v.len() - 1].0, v[v.len() - 1].1),
        )
    }
}

#[via_fn]
proof fn spec_further_branches_decreases(sp: Seq<AtomView>, v: Seq<(AtomView, BindingsView)>) {
    if v.len() != 0 {
        vstd::seq::axiom_seq_subrange_decreases(v, 0, v.len() - 1);
    }
}

/// Interprets every produced pair further; the empty collection is not an
/// error here, it simply produces nothing.
pub open spec fn spec_results_further_op(sp: Seq<AtomView>, res: ResultView) -> StepView {
    match res {
        Err(m) => StepView::Error(m),
        Ok(v) => StepView::Execute(
            PlanView::Parallel(spec_further_branches(sp, v), Seq::empty()),
        ),
    }
}

/// Canonicalise, then execute a grounded-headed expression or rewrite any
/// other expression against the knowledge base; every branch is interpreted
/// further.
pub open spec fn spec_interpret_reducted_op(
    sp: Seq<AtomView>,
    a: AtomView,
    b: BindingsView,
) -> StepView {
    let a2 = spec_apply(a, b);
    if a2 is Expr {
        if spec_is_grounded(a2) {
            StepView::Execute(
                PlanView::Sequence(
                    Box::new(PlanView::ExecuteGrounded(a2, b)),
                    PartialOpView::ResultsFurther(sp),
                ),
            )
        } else {
            StepView::Execute(
                PlanView::Sequence(
                    Box::new(PlanView::MatchQuery(sp, a2, b)),
                    PartialOpView::ResultsFurther(sp),
                ),
            )
        }
    } else {
        StepView::Error("Expression is expected"@)
    }
}

/// One step of a plan: apply the rule at a leaf, or advance the active
/// sub-plan of a combinator.  A sequence hands the first stage's value to
/// its second stage; an alternative replaces an error by its fallback; a
/// parallel plan advances its first queued sub-plan and concatenates
/// produced pairs in queue order, and an error emerging from a sub-plan is
/// an invariant violation that ends the whole plan.
pub open spec fn spec_step(p: PlanView) -> StepView
    decreases p,
    via spec_step_decreases
{
    match p {
        PlanView::InterpretOrDefault(sp, a, b) => spec_interpret_or_default_op(sp, a, b),
        PlanView::Interpret(sp, a, b) => spec_interpret_op(sp, a, b),
        PlanView::InterpretReducted(sp, a, b) => spec_interpret_reducted_op(sp, a, b),
        PlanView::ReductArgs(sp, a, b) => spec_reduct_args_op(sp, a, b),
        PlanView::MatchQuery(sp, a, b) => spec_match_op(sp, a, b),
        PlanView::ExecuteGrounded(a, b) => spec_execute_op(a, b),
        PlanView::ReductArgByArg(sp, s, b) => spec_reduct_arg_by_arg_op(sp, s, b),
        PlanView::Feed(q, res) => match q {
            PartialOpView::ResultsFurther(sp) => spec_results_further_op(sp, res),
            PartialOpView::ReductNextArg(sp, s) => spec_reduct_next_arg_op(sp, s, res),
            PartialOpView::AfterArgReduction(sp, s) => spec_after_arg_reduction_op(sp, s, res),
        },
        PlanView::Sequence(p1, q) => match spec_step(*p1) {
            StepView::Execute(p2) => StepView::Execute(PlanView::Sequence(Box::new(p2), q)),
            StepView::Return(v) => StepView::Execute(PlanView::Feed(q, v)),
            StepView::Error(m) => StepView::Error(m),
        },
        PlanView::Or(p1, fb) => match spec_step(*p1) {
            StepView::Execute(p2) => StepView::Execute(PlanView::Or(Box::new(p2), fb)),
            StepView::Return(v) => StepView::Return(v),
            StepView::Error(_) => *fb,
        },
        PlanView::Parallel(queue, acc) => if queue.len() == 0 {
            StepView::Return(Ok(acc))
        } else {
            match spec_step(queue[0]) {
                StepView::Execute(p2) => StepView::Execute(
                    PlanView::Parallel(queue.update(0, p2), acc),
                ),
                StepView::Return(Ok(v)) => StepView::Execute(
                    PlanView::Parallel(queue.subrange(1, queue.len() as int), acc + v),
                ),
                StepView::Return(Err(m)) => StepView::Error(m),
                StepView::Error(m) => StepView::Error(m),
            }
        },
    }
}

#[via_fn]
proof fn spec_step_decreases(p: PlanView) {
    if p is Parallel && p->Parallel_0.len() != 0 {
        vstd::seq::axiom_seq_index_decreases(p->Parallel_0, 0);
    }
}

/// One step of a step result: a terminal result stays as it is.
pub open spec fn spec_step_sr(s: StepView) -> StepView {
    match s {
        StepView::Execute(p) => spec_step(p),
        _ => s,
    }
}

/// `n` steps of the driver.
pub open spec fn spec_run(s: StepView, n: nat) -> StepView
    decreases n,
{
    if n == 0 {
        s
    } else {
        spec_run(spec_step_sr(s), (n - 1) as nat)
    }
}

/// The initial step of interpreting `a` against the knowledge base.
pub open spec fn spec_init(sp: Seq<AtomView>, a: AtomView) -> StepView {
    StepView::Execute(PlanView::InterpretOrDefault(sp, a, Seq::empty()))
}

/// Whether the driver, started at `s0`, reaches `fin` after some number of
/// steps.
pub open spec fn spec_reaches(s0: StepView, fin: StepView) -> bool {
    exists|n: nat| spec_run(s0, n) == fin
}

/// The atoms of a collection of pairs, the bindings dropped.
pub open spec fn spec_firsts(v: Seq<(AtomView, BindingsView)>) -> Seq<AtomView>
    decreases v,
    via spec_firsts_decreases
{
    if v.len() == 0 {
        Seq::empty()
    } else {
        spec_firsts(v.subrange(0, v.len() - 1)).push(v[v.len() - 1].0)
    }
}

#[via_fn]
proof fn spec_firsts_decreases(v: Seq<(AtomView, BindingsView)>) {
    if v.len() != 0 {
        vstd::seq::axiom_seq_subrange_decreases(v, 0, v.len() - 1);
    }
}

/// Running one more step after `n` steps is stepping the state after `n`
/// steps.
pub proof fn lemma_run_snoc(s: StepView, n: nat)
    ensures
        spec_run(s, n + 1) == spec_step_sr(spec_run(s, n)),
    decreases n,
{
    if n == 0 {
        assert(spec_run(s, 1) == spec_run(spec_step_sr(s), 0));
    } else {
        lemma_run_snoc(spec_step_sr(s), (n - 1) as nat);
        assert(spec_run(s, n + 1) == spec_run(spec_step_sr(s), n));
        assert(spec_run(spec_step_sr(s), ((n - 1) + 1) as nat) == spec_step_sr(
            spec_run(spec_step_sr(s), (n - 1) as nat),
        ));
        assert(spec_run(s, n) == spec_run(spec_step_sr(s), (n - 1) as nat));
    }
}

/// Running `a + b` steps is running `b` steps from the state after `a`
/// steps.
pub proof fn lemma_run_add(s: StepView, a: nat, b: nat)
    ensures
        spec_run(s, a + b) == spec_run(spec_run(s, a), b),
    decreases a,
{
    if a != 0 {
        lemma_run_add(spec_step_sr(s), (a - 1) as nat, b);
        assert(spec_run(s, a + b) == spec_run(spec_step_sr(s), (a - 1) as nat + b));
        assert(spec_run(s, a) == spec_run(spec_step_sr(s), (a - 1) as nat));
    }
}

/// A terminal state never changes again, so the terminal state a run
/// reaches is unique.
pub proof fn lemma_terminal_stays(s: StepView, n: nat, m: nat)
    requires
        !(spec_run(s, n) is Execute),
        n <= m,
    ensures
        spec_run(s, m) == spec_run(s, n),
    decreases m - n,
{
    if n < m {
        lemma_run_snoc(s, n);
        assert(spec_run(s, n + 1) == spec_run(s, n));
        lemma_terminal_stays(s, n + 1, m);
    }
}

// ---------------------------------------------------------------------------
// The executable rules
// ---------------------------------------------------------------------------

/// Whether the first child of the expression is a grounded atom.
fn is_grounded(expr: &ExpressionAtom) -> (r: bool)
    ensures
        r == spec_is_grounded(AtomView::Expr { children: atoms_view(expr.children@) }),
{
    proof {
        lemma_atoms_view(expr.children@);
    }
    if expr.children.len() == 0 {
        false
    } else {
        let r = matches!(&expr.children[0], Atom::Grounded(..));
        proof {
            assert(r == (expr.children@[0]@ is Gnd));
        }
        r
    }
}

/// Whether the head is the grounded value whose textual form is `match`.
fn is_match_head(expr: &ExpressionAtom) -> (r: bool)
    ensures
        r == spec_is_match_head(AtomView::Expr { children: atoms_view(expr.children@) }),
{
    proof {
        lemma_atoms_view(expr.children@);
    }
    if expr.children.len() == 0 {
        false
    } else {
        let r = matches!(&expr.children[0], Atom::Grounded(GroundedAtom::MatchOp));
        proof {
            assert(r == (expr.children@[0]@ == AtomView::Gnd { value: GroundedAtom::MatchOp }));
        }
        r
    }
}

/// Concatenates the results of two branches, in order.
pub fn merge_ok_results(plan_res: Vec<(Atom, Bindings)>, step_res: Vec<(Atom, Bindings)>) -> (r:
    Vec<(Atom, Bindings)>)
    ensures
        pairs_view(r@) == pairs_view(plan_res@) + pairs_view(step_res@),
{
    let ghost a = plan_res@;
    let ghost b = step_res@;
    let mut r = plan_res;
    let mut s = step_res;
    r.append(&mut s);
    proof {
        lemma_pairs_view(r@);
        lemma_pairs_view(a);
        lemma_pairs_view(b);
        assert forall|j: int| 0 <= j < r@.len() implies pairs_view(r@)[j] == (pairs_view(a)
            + pairs_view(b))[j] by {
            if j < a.len() {
                assert(r@[j] == a[j]);
            } else {
                assert(r@[j] == b[j - a.len()]);
            }
        }
        assert(pairs_view(r@) =~= pairs_view(a) + pairs_view(b));
    }
    r
}

/// Canonicalise the atom, then try to interpret it with the atom itself as
/// the fallback.
pub fn interpret_or_default_op(space: GroundingSpace, atom: Atom, bindings: Bindings) -> (r:
    StepResult)
    ensures
        r@ == spec_interpret_or_default_op(space@, atom@, bindings@),
{
    let a2 = apply_bindings_to_atom(&atom, &bindings);
    let default = (clone_atom(&a2), bindings.clone());
    let mut dv: Vec<(Atom, Bindings)> = Vec::new();
    dv.push(default);
    proof {
        lemma_pairs_view(dv@);
        assert(dv@.subrange(0, 0) =~= Seq::<(Atom, Bindings)>::empty());
        assert(pairs_view(dv@) =~= seq![(spec_apply(atom@, bindings@), bindings@)]);
    }
    let r = StepResult::Execute(
        Plan::Or(
            Box::new(Plan::Interpret(space, a2, bindings)),
            Box::new(StepResult::Return(Ok(dv))),
        ),
    );
    proof {
        assert(a2@ == spec_apply(atom@, bindings@));
        assert(pairs_view(dv@) == seq![(spec_apply(atom@, bindings@), bindings@)]);
        if let StepResult::Execute(Plan::Or(bi, bf)) = &r {
            assert(plan_view(**bi) =~~= PlanView::Interpret(
                space@,
                spec_apply(atom@, bindings@),
                bindings@,
            ));
            assert(step_view(**bf) =~~= StepView::Return(
                Ok(seq![(spec_apply(atom@, bindings@), bindings@)]),
            ));
        }
        assert(r@ =~~= spec_interpret_or_default_op(space@, atom@, bindings@));
    }
    r
}

/// Case-split on the shape of the atom.
pub fn interpret_op(space: GroundingSpace, atom: Atom, bindings: Bindings) -> (r: StepResult)
    ensures
        r@ == spec_interpret_op(space@, atom@, bindings@),
{
    let ghost av = atom@;
    let ghost bv = bindings@;
    let mut plain: bool = false;
    let mut grounded: bool = false;
    let is_expr = match &atom {
        Atom::Expression(e) => {
            proof {
                assert(atom@ == (AtomView::Expr { children: atoms_view(e.children@) }));
            }
            plain = e.is_plain();
            grounded = is_grounded(e);
            true
        },
        _ => false,
    };
    if !is_expr {
        let mut dv: Vec<(Atom, Bindings)> = Vec::new();
        dv.push((atom, bindings));
        proof {
            lemma_pairs_view(dv@);
            assert(dv@.subrange(0, 0) =~= Seq::<(Atom, Bindings)>::empty());
            assert(pairs_view(dv@) =~= seq![(av, bv)]);
        }
        let r = StepResult::Return(Ok(dv));
        proof {
            assert(r@ =~~= spec_interpret_op(space@, av, bv));
        }
        r
    } else if plain {
        StepResult::Execute(Plan::InterpretReducted(space, atom, bindings))
    } else if grounded {
        StepResult::Execute(Plan::ReductArgs(space, atom, bindings))
    } else {
        let fallback = reduct_arg_by_arg_plan(space.clone(), clone_atom(&atom), bindings.clone());
        let ghost fbv = step_view(fallback);
        let r = StepResult::Execute(
            Plan::Sequence(
                Box::new(
                    Plan::Or(
                        Box::new(
                            Plan::MatchQuery(space.clone(), clone_atom(&atom), bindings.clone()),
                        ),
                        Box::new(fallback),
                    ),
                ),
                PartialOp::ResultsFurther(space),
            ),
        );
        proof {
            assert(fbv == spec_reduct_arg_by_arg_plan(space@, av, bv));
            if let StepResult::Execute(Plan::Sequence(b1, q)) = &r {
                if let Plan::Or(bm, bf) = &(**b1) {
                    assert(plan_view(**bm) =~~= PlanView::MatchQuery(space@, av, bv));
                    assert(step_view(**bf) =~~= spec_reduct_arg_by_arg_plan(space@, av, bv));
                }
                assert(q@ =~~= PartialOpView::ResultsFurther(space@));
                assert(plan_view(**b1) =~~= PlanView::Or(
                    Box::new(PlanView::MatchQuery(space@, av, bv)),
                    Box::new(spec_reduct_arg_by_arg_plan(space@, av, bv)),
                ));
            }
            assert(r@ =~~= spec_interpret_op(space@, atom@, bindings@));
        }
        r
    }
}

/// Starts the argument-by-argument walk over the sub-expressions.
pub fn reduct_arg_by_arg_plan(space: GroundingSpace, expr: Atom, bindings: Bindings) -> (r:
    StepResult)
    ensures
        r@ == spec_reduct_arg_by_arg_plan(space@, expr@, bindings@),
{
    let is_expr = matches!(&expr, Atom::Expression(..));
    if is_expr {
        let paths = sub_expr_paths(&expr);
        let iter = SubexprStream::from_parts(expr, paths);
        reduct_arg_by_arg_op(space, iter, bindings)
    } else {
        StepResult::Error("Atom::Expression is expected as an argument".to_string())
    }
}

/// Try to reduce the focused sub-expression, or go on to the next position.
pub fn reduct_arg_by_arg_op(space: GroundingSpace, iter: SubexprStream, bindings: Bindings) -> (r:
    StepResult)
    ensures
        r@ == spec_reduct_arg_by_arg_op(space@, iter@, bindings@),
{
    let mut iter = iter;
    let ghost s0 = iter@;
    match iter.next() {
        Some(arg) => {
            proof {
                assert(iter@ == spec_stream_next(s0).0);
                assert(spec_stream_next(s0).1 == Some(arg@));
            }
            let r = StepResult::Execute(
                Plan::Or(
                    Box::new(
                        Plan::Sequence(
                            Box::new(
                                Plan::InterpretReducted(space.clone(), arg, bindings.clone()),
                            ),
                            PartialOp::AfterArgReduction(space.clone(), iter.clone()),
                        ),
                    ),
                    Box::new(StepResult::Execute(Plan::ReductArgByArg(space, iter, bindings))),
                ),
            );
            proof {
                if let StepResult::Execute(Plan::Or(b1, bf)) = &r {
                    if let Plan::Sequence(bi, q) = &(**b1) {
                        assert(plan_view(**bi) =~~= PlanView::InterpretReducted(
                            space@,
                            spec_stream_next(s0).1->Some_0,
                            bindings@,
                        ));
                        assert(q@ =~~= PartialOpView::AfterArgReduction(
                            space@,
                            spec_stream_next(s0).0,
                        ));
                    }
                    assert(step_view(**bf) =~~= StepView::Execute(
                        PlanView::ReductArgByArg(space@, spec_stream_next(s0).0, bindings@),
                    ));
                    if let Plan::Sequence(bi, q) = &(**b1) {
                        assert(plan_view(**b1) =~~= PlanView::Sequence(
                            Box::new(
                                PlanView::InterpretReducted(
                                    space@,
                                    spec_stream_next(s0).1->Some_0,
                                    bindings@,
                                ),
                            ),
                            PartialOpView::AfterArgReduction(space@, spec_stream_next(s0).0),
                        ));
                    }
                }
                assert(r@ =~~= spec_reduct_arg_by_arg_op(space@, s0, bindings@));
            }
            r
        },
        None => StepResult::Error("No results for reducted found".to_string()),
    }
}

/// Canonicalise, then execute a grounded-headed expression or rewrite any
/// other expression against the knowledge base.
pub fn interpret_reducted_op(space: GroundingSpace, atom: Atom, bindings: Bindings) -> (r:
    StepResult)
    ensures
        r@ == spec_interpret_reducted_op(space@, atom@, bindings@),
{
    let a2 = apply_bindings_to_atom(&atom, &bindings);
    let mut grounded: bool = false;
    let is_expr = match &a2 {
        Atom::Expression(e) => {
            proof {
                assert(a2@ == (AtomView::Expr { children: atoms_view(e.children@) }));
            }
            grounded = is_grounded(e);
            true
        },
        _ => false,
    };
    if !is_expr {
        StepResult::Error("Expression is expected".to_string())
    } else if grounded {
        let ghost a2v = a2@;
        let r = StepResult::Execute(
            Plan::Sequence(
                Box::new(Plan::ExecuteGrounded(a2, bindings)),
                PartialOp::ResultsFurther(space),
            ),
        );
        proof {
            if let StepResult::Execute(Plan::Sequence(b1, q)) = &r {
                assert(plan_view(**b1) =~~= PlanView::ExecuteGrounded(a2v, bindings@));
                assert(q@ =~~= PartialOpView::ResultsFurther(space@));
            }
            assert(r@ =~~= spec_interpret_reducted_op(space@, atom@, bindings@));
        }
        r
    } else {
        let ghost a2v = a2@;
        let r = StepResult::Execute(
            Plan::Sequence(
                Box::new(Plan::MatchQuery(space.clone(), a2, bindings)),
                PartialOp::ResultsFurther(space),
            ),
        );
        proof {
            if let StepResult::Execute(Plan::Sequence(b1, q)) = &r {
                assert(plan_view(**b1) =~~= PlanView::MatchQuery(space@, a2v, bindings@));
                assert(q@ =~~= PartialOpView::ResultsFurther(space@));
            }
            assert(r@ =~~= spec_interpret_reducted_op(space@, atom@, bindings@));
        }
        r
    }
}

/// Starts reducing the child expressions of a grounded-headed expression.
pub fn reduct_args_op(space: GroundingSpace, expr: Atom, bindings: Bindings) -> (r: StepResult)
    ensures
        r@ == spec_reduct_args_op(space@, expr@, bindings@),
{
    let ghost ev = expr@;
    let ghost bv = bindings@;
    let mut skip: bool = false;
    let is_expr = match &expr {
        Atom::Expression(e) => {
            proof {
                assert(expr@ == (AtomView::Expr { children: atoms_view(e.children@) }));
            }
            skip = is_match_head(e);
            true
        },
        _ => false,
    };
    if !is_expr {
        return StepResult::Error("Atom::Expression is expected as an argument".to_string());
    }
    let paths = sibling_paths(&expr, skip);
    let mut iter = SubexprStream::from_parts(expr, paths);
    let ghost s0 = iter@;
    match iter.next() {
        Some(sub) => {
            proof {
                assert(iter@ == spec_stream_next(s0).0);
                assert(spec_stream_next(s0).1 == Some(sub@));
            }
            let ghost subv = sub@;
            let ghost itv = iter@;
            let r = StepResult::Execute(
                Plan::Sequence(
                    Box::new(Plan::InterpretOrDefault(space.clone(), sub, bindings)),
                    PartialOp::ReductNextArg(space, iter),
                ),
            );
            proof {
                if let StepResult::Execute(Plan::Sequence(b1, q)) = &r {
                    assert(plan_view(**b1) =~~= PlanView::InterpretOrDefault(space@, subv, bv));
                    assert(q@ =~~= PartialOpView::ReductNextArg(space@, itv));
                }
                assert(r@ =~~= spec_reduct_args_op(space@, ev, bv));
            }
            r
        },
        None => StepResult::Error("Non plain expression expected".to_string()),
    }
}

/// Runs the grounded operation at the head of the expression on its tail.
pub fn execute_op(atom: Atom, bindings: Bindings) -> (r: StepResult)
    ensures
        r@ == spec_execute_op(atom@, bindings@),
{
    match &atom {
        Atom::Expression(e) => {
            proof {
                lemma_atoms_view(e.children@);
                assert(atom@ == (AtomView::Expr { children: atoms_view(e.children@) }));
            }
            let ghost c = atoms_view(e.children@);
            if e.children.len() == 0 {
                return StepResult::Error("Trying to execute non grounded atom".to_string());
            }
            match &e.children[0] {
                Atom::Grounded(g) => {
                    proof {
                        assert(c[0] == e.children@[0]@);
                    }
                    let mut args: Vec<Atom> = Vec::new();
                    let mut j: usize = 1;
                    let n = e.children.len();
                    while j < n
                        invariant
                            1 <= j <= n,
                            n == e.children@.len(),
                            c == atoms_view(e.children@),
                            c.len() == n,
                            forall|m: int| 0 <= m < n ==> c[m] == #[trigger] e.children@[m]@,
                            args@.len() == j - 1,
                            forall|m: int| 0 <= m < j - 1 ==> #[trigger] args@[m]@ == c[m + 1],
                        decreases n - j,
                    {
                        args.push(clone_atom(&e.children[j]));
                        j = j + 1;
                    }
                    proof {
                        lemma_atoms_view(args@);
                        assert forall|m: int| 0 <= m < args@.len() implies atoms_view(args@)[m]
                            == c.subrange(1, n as int)[m] by {
                            assert(atoms_view(args@)[m] == args@[m]@);
                        }
                        assert(atoms_view(args@) =~= c.subrange(1, n as int));
                    }
                    match g.execute(&args) {
                        Ok(v) => {
                            let ghost av = atoms_view(v@);
                            proof {
                                lemma_atoms_view(v@);
                            }
                            let mut results: Vec<(Atom, Bindings)> = Vec::new();
                            proof {
                                lemma_pairs_view(results@);
                                assert(pairs_view(results@) =~= Seq::<
                                    (AtomView, BindingsView),
                                >::empty());
                                assert(av.subrange(0, 0) =~= Seq::<AtomView>::empty());
                            }
                            let mut k: usize = 0;
                            let vn = v.len();
                            while k < vn
                                invariant
                                    k <= vn,
                                    vn == v@.len(),
                                    av == atoms_view(v@),
                                    av.len() == vn,
                                    forall|m: int| 0 <= m < vn ==> av[m] == #[trigger] v@[m]@,
                                    pairs_view(results@) == spec_pairs_with(
                                        av.subrange(0, k as int),
                                        bindings@,
                                    ),
                                decreases vn - k,
                            {
                                let ghost before = results@;
                                results.push((clone_atom(&v[k]), bindings.clone()));
                                proof {
                                    lemma_pairs_view(results@);
                                    lemma_pairs_view(before);
                                    assert(results@.subrange(0, results@.len() - 1) =~= before);
                                    assert(pairs_view(results@) == pairs_view(before).push(
                                        (av[k as int], bindings@),
                                    ));
                                    let pre = av.subrange(0, k as int);
                                    let cur = av.subrange(0, k as int + 1);
                                    assert(cur.subrange(0, cur.len() - 1) =~= pre);
                                    assert(cur[cur.len() - 1] == av[k as int]);
                                }
                                k = k + 1;
                            }
                            proof {
                                assert(av.subrange(0, vn as int) =~= av);
                            }
                            StepResult::Return(Ok(results))
                        },
                        Err(m) => StepResult::Error(m),
                    }
                },
                _ => StepResult::Error("Trying to execute non grounded atom".to_string()),
            }
        },
        _ => StepResult::Error("Unexpected non expression argument".to_string()),
    }
}

/// The probe variable for rewriting `expr` against the store: fresh with
/// respect to both.
fn fresh_var_name(space: &GroundingSpace, expr: &Atom) -> (r: String)
    ensures
        r@ == spec_fresh_name(space@, expr@),
{
    proof {
        lemma_atoms_view(space.content@);
    }
    let ghost c = space@;
    let mut acc = String::new();
    proof {
        assert(c.subrange(0, c.len() as int) =~= c);
    }
    let n = space.content.len();
    let mut i: usize = 0;
    while i < n
        invariant
            i <= n,
            n == space.content@.len(),
            c == space@,
            c.len() == n,
            forall|j: int| 0 <= j < n ==> c[j] == #[trigger] space.content@[j]@,
            acc@ + spec_var_names_all(c.subrange(i as int, n as int)) == spec_var_names_all(c),
        decreases n - i,
    {
        let ghost rest = c.subrange(i as int, n as int);
        proof {
            assert(rest[0] == c[i as int]);
            assert(rest.subrange(1, rest.len() as int) =~= c.subrange(i as int + 1, n as int));
        }
        let sub = collect_var_names(&space.content[i]);
        acc.append(sub.as_str());
        proof {
            assert(acc@ + spec_var_names_all(c.subrange(i as int + 1, n as int))
                =~= spec_var_names_all(c));
        }
        i = i + 1;
    }
    proof {
        assert(c.subrange(n as int, n as int) =~= Seq::<AtomView>::empty());
        assert(acc@ =~= spec_var_names_all(c));
    }
    let sub2 = collect_var_names(expr);
    acc.append(sub2.as_str());
    acc.append("X");
    proof {
        reveal_strlit("X");
        assert("X"@ =~= seq!['X']);
        assert(acc@ =~= spec_fresh_name(space@, expr@));
    }
    acc
}

/// Rewrites the expression against the knowledge base, probing with a fresh
/// variable.
pub fn match_op(space: GroundingSpace, expr: Atom, prev_bindings: Bindings) -> (r: StepResult)
    ensures
        r@ == spec_match_op(space@, expr@, prev_bindings@),
{
    let ghost ev = expr@;
    let x: String = fresh_var_name(&space, &expr);
    let ghost xv = x@;
    let mut pc: Vec<Atom> = Vec::new();
    pc.push(Atom::sym("="));
    pc.push(expr);
    pc.push(Atom::Variable(VariableAtom { name: x.clone() }));
    let probe = Atom::Expression(ExpressionAtom { children: pc });
    proof {
        if let Atom::Expression(e) = &probe {
            lemma_atoms_view(e.children@);
            assert forall|j: int| 0 <= j < 3 implies atoms_view(e.children@)[j] == spec_probe(
                ev,
                xv,
            )->Expr_children[j] by {
                assert(atoms_view(e.children@)[j] == e.children@[j]@);
            }
            assert(atoms_view(e.children@) =~= spec_probe(ev, xv)->Expr_children);
        }
        assert(probe@ == spec_probe(ev, xv));
    }
    let local = space.query(&probe);
    let ghost bs = bindings_list_view(local@);
    proof {
        lemma_bindings_list_view(local@);
        assert(bs.subrange(0, 0) =~= Seq::<BindingsView>::empty());
    }
    let mut results: Vec<(Atom, Bindings)> = Vec::new();
    proof {
        lemma_pairs_view(results@);
        assert(pairs_view(results@) =~= Seq::<(AtomView, BindingsView)>::empty());
    }
    let mut k: usize = 0;
    let n = local.len();
    while k < n
        invariant
            k <= n,
            n == local@.len(),
            x@ == xv,
            xv == spec_fresh_name(space@, ev),
            bs == bindings_list_view(local@),
            bs.len() == n,
            forall|m: int| 0 <= m < n ==> bs[m] == (#[trigger] local@[m])@,
            pairs_view(results@) == spec_match_results(
                bs.subrange(0, k as int),
                prev_bindings@,
                xv,
            ),
        decreases n - k,
    {
        let mut binding = local[k].clone();
        let ghost bv = bs[k as int];
        let res0: Atom = match binding.remove(&x) {
            Some(v) => v,
            None => Atom::Variable(VariableAtom { name: x.clone() }),
        };
        proof {
            assert(binding@ == spec_remove(bv, xv));
            assert(res0@ == (match spec_lookup(bv, xv) {
                Some(v) => v,
                None => AtomView::Var { name: xv },
            }));
        }
        let res = apply_bindings_to_atom(&res0, &binding);
        let ghost before = results@;
        match apply_bindings_to_bindings(&binding, &prev_bindings) {
            Ok(m) => {
                results.push((res, m));
                proof {
                    lemma_pairs_view(results@);
                    lemma_pairs_view(before);
                    assert(results@.subrange(0, results@.len() - 1) =~= before);
                    assert(pairs_view(results@) == pairs_view(before).push(
                        (results@[results@.len() - 1].0@, results@[results@.len() - 1].1@),
                    ));
                }
            },
            Err(_) => {},
        }
        proof {
            let pre = bs.subrange(0, k as int);
            let cur = bs.subrange(0, k as int + 1);
            assert(cur.subrange(0, cur.len() - 1) =~= pre);
            assert(cur[cur.len() - 1] == bs[k as int]);
            assert(pairs_view(results@) == spec_match_results(cur, prev_bindings@, xv));
        }
        k = k + 1;
    }
    proof {
        assert(bs.subrange(0, n as int) =~= bs);
        lemma_pairs_view(results@);
    }
    if results.len() == 0 {
        StepResult::Error("Match is not found".to_string())
    } else {
        StepResult::Return(Ok(results))
    }
}

/// Interprets every produced pair further.
pub fn interpret_results_further_op(space: GroundingSpace, result: InterpreterResult) -> (r:
    StepResult)
    ensures
        r@ == spec_results_further_op(space@, result_view(result)),
{
    match result {
        Err(m) => StepResult::Error(m),
        Ok(v) => {
            let ghost pv = pairs_view(v@);
            proof {
                lemma_pairs_view(v@);
                assert(pv.subrange(0, 0) =~= Seq::<(AtomView, BindingsView)>::empty());
            }
            let mut branches: Vec<Plan> = Vec::new();
            proof {
                lemma_plans_view(branches@);
                assert(plans_view(branches@) =~= Seq::<PlanView>::empty());
            }
            let mut k: usize = 0;
            let n = v.len();
            while k < n
                invariant
                    k <= n,
                    n == v@.len(),
                    pv == pairs_view(v@),
                    pv.len() == n,
                    forall|m: int| 0 <= m < n ==> pv[m] == ((#[trigger] v@[m]).0@, v@[m].1@),
                    plans_view(branches@) == spec_further_branches(
                        space@,
                        pv.subrange(0, k as int),
                    ),
                decreases n - k,
            {
                let ghost before = branches@;
                branches.push(
                    Plan::InterpretOrDefault(space.clone(), clone_atom(&v[k].0), v[k].1.clone()),
                );
                proof {
                    lemma_plans_view(branches@);
                    lemma_plans_view(before);
                    assert(branches@.subrange(0, branches@.len() - 1) =~= before);
                    assert(plans_view(branches@) == plans_view(before).push(
                        plan_view(branches@[branches@.len() - 1]),
                    ));
                    let pre = pv.subrange(0, k as int);
                    let cur = pv.subrange(0, k as int + 1);
                    assert(cur.subrange(0, cur.len() - 1) =~= pre);
                    assert(cur[cur.len() - 1] == pv[k as int]);
                }
                k = k + 1;
            }
            proof {
                assert(pv.subrange(0, n as int) =~= pv);
                lemma_pairs_view(Seq::<(Atom, Bindings)>::empty());
                assert(pairs_view(Seq::<(Atom, Bindings)>::empty()) =~= Seq::<
                    (AtomView, BindingsView),
                >::empty());
            }
            let acc: Vec<(Atom, Bindings)> = Vec::new();
            StepResult::Execute(Plan::Parallel(branches, acc))
        },
    }
}

/// Continues argument reduction after one argument produced its results.
pub fn reduct_next_arg_op(space: GroundingSpace, iter: SubexprStream, prev: InterpreterResult) -> (
    r: StepResult)
    ensures
        r@ == spec_reduct_next_arg_op(space@, iter@, result_view(prev)),
{
    match prev {
        Err(m) => StepResult::Error(m),
        Ok(v) => {
            let ghost pv = pairs_view(v@);
            proof {
                lemma_pairs_view(v@);
                assert(pv.subrange(0, 0) =~= Seq::<(AtomView, BindingsView)>::empty());
            }
            let mut branches: Vec<Plan> = Vec::new();
            proof {
                lemma_plans_view(branches@);
                assert(plans_view(branches@) =~= Seq::<PlanView>::empty());
            }
            let mut k: usize = 0;
            let n = v.len();
            while k < n
                invariant
                    k <= n,
                    n == v@.len(),
                    pv == pairs_view(v@),
                    pv.len() == n,
                    forall|m: int| 0 <= m < n ==> pv[m] == ((#[trigger] v@[m]).0@, v@[m].1@),
                    plans_view(branches@) == spec_next_branches(
                        space@,
                        iter@,
                        pv.subrange(0, k as int),
                    ),
                decreases n - k,
            {
                let ghost before = branches@;
                let mut it2 = iter.clone();
                it2.set_focus(clone_atom(&v[k].0));
                let ghost s2 = spec_set_focus(iter@, pv[k as int].0);
                proof {
                    assert(it2@ == s2);
                }
                let b2 = v[k].1.clone();
                let ghost elem = (match spec_stream_next(s2).1 {
                    Some(sub2) => PlanView::Sequence(
                        Box::new(PlanView::InterpretOrDefault(space@, sub2, pv[k as int].1)),
                        PartialOpView::ReductNextArg(space@, spec_stream_next(s2).0),
                    ),
                    None => PlanView::InterpretReducted(
                        space@,
                        spec_stream_next(s2).0.root,
                        pv[k as int].1,
                    ),
                });
                match it2.next() {
                    Some(sub) => {
                        proof {
                            assert(it2@ == spec_stream_next(s2).0);
                            assert(spec_stream_next(s2).1 == Some(sub@));
                        }
                        let ghost subv = sub@;
                        let bp = Plan::Sequence(
                            Box::new(Plan::InterpretOrDefault(space.clone(), sub, b2)),
                            PartialOp::ReductNextArg(space.clone(), it2),
                        );
                        proof {
                            if let Plan::Sequence(bi, q) = &bp {
                                assert(plan_view(**bi) =~~= PlanView::InterpretOrDefault(
                                    space@,
                                    subv,
                                    pv[k as int].1,
                                ));
                                assert(q@ =~~= PartialOpView::ReductNextArg(
                                    space@,
                                    spec_stream_next(s2).0,
                                ));
                            }
                            assert(plan_view(bp) =~~= elem);
                        }
                        branches.push(bp);
                    },
                    None => {
                        proof {
                            assert(it2@ == spec_stream_next(s2).0);
                            assert(spec_stream_next(s2).1 is None);
                        }
                        let bp = Plan::InterpretReducted(space.clone(), it2.into_atom(), b2);
                        proof {
                            assert(plan_view(bp) =~~= elem);
                        }
                        branches.push(bp);
                    },
                }
                proof {
                    lemma_plans_view(branches@);
                    lemma_plans_view(before);
                    assert(branches@.subrange(0, branches@.len() - 1) =~= before);
                    assert(plans_view(branches@) == plans_view(before).push(
                        plan_view(branches@[branches@.len() - 1]),
                    ));
                    let pre = pv.subrange(0, k as int);
                    let cur = pv.subrange(0, k as int + 1);
                    assert(cur.subrange(0, cur.len() - 1) =~= pre);
                    assert(cur[cur.len() - 1] == pv[k as int]);
                    assert(plan_view(branches@[branches@.len() - 1]) == elem);
                    assert(spec_next_branches(space@, iter@, cur).last() == elem);
                    assert(plans_view(branches@) =~~= spec_next_branches(space@, iter@, cur));
                }
                k = k + 1;
            }
            proof {
                assert(pv.subrange(0, n as int) =~= pv);
                lemma_pairs_view(Seq::<(Atom, Bindings)>::empty());
                assert(pairs_view(Seq::<(Atom, Bindings)>::empty()) =~= Seq::<
                    (AtomView, BindingsView),
                >::empty());
            }
            let acc: Vec<(Atom, Bindings)> = Vec::new();
            StepResult::Execute(Plan::Parallel(branches, acc))
        },
    }
}

/// Interprets the whole expression again after one of its sub-expressions
/// was reduced; an empty reduction makes the walk go on instead.
pub fn interpret_after_arg_reduction_op(
    space: GroundingSpace,
    iter: SubexprStream,
    reduction_result: InterpreterResult,
) -> (r: StepResult)
    ensures
        r@ == spec_after_arg_reduction_op(space@, iter@, result_view(reduction_result)),
{
    match reduction_result {
        Err(m) => StepResult::Error(m),
        Ok(v) => {
            if v.len() == 0 {
                proof {
                    lemma_pairs_view(v@);
                }
                return StepResult::Error("NOP special case".to_string());
            }
            let ghost pv = pairs_view(v@);
            proof {
                lemma_pairs_view(v@);
                assert(pv.subrange(0, 0) =~= Seq::<(AtomView, BindingsView)>::empty());
            }
            let mut branches: Vec<Plan> = Vec::new();
            proof {
                lemma_plans_view(branches@);
                assert(plans_view(branches@) =~= Seq::<PlanView>::empty());
            }
            let mut k: usize = 0;
            let n = v.len();
            while k < n
                invariant
                    k <= n,
                    n == v@.len(),
                    pv == pairs_view(v@),
                    pv.len() == n,
                    forall|m: int| 0 <= m < n ==> pv[m] == ((#[trigger] v@[m]).0@, v@[m].1@),
                    plans_view(branches@) == spec_after_branches(
                        space@,
                        iter@,
                        pv.subrange(0, k as int),
                    ),
                decreases n - k,
            {
                let ghost before = branches@;
                let mut it2 = iter.clone();
                it2.set_focus(clone_atom(&v[k].0));
                proof {
                    assert(it2@ == spec_set_focus(iter@, pv[k as int].0));
                }
                branches.push(
                    Plan::InterpretOrDefault(space.clone(), it2.into_atom(), v[k].1.clone()),
                );
                proof {
                    lemma_plans_view(branches@);
                    lemma_plans_view(before);
                    assert(branches@.subrange(0, branches@.len() - 1) =~= before);
                    assert(plans_view(branches@) == plans_view(before).push(
                        plan_view(branches@[branches@.len() - 1]),
                    ));
                    let pre = pv.subrange(0, k as int);
                    let cur = pv.subrange(0, k as int + 1);
                    assert(cur.subrange(0, cur.len() - 1) =~= pre);
                    assert(cur[cur.len() - 1] == pv[k as int]);
                }
                k = k + 1;
            }
            proof {
                assert(pv.subrange(0, n as int) =~= pv);
                lemma_pairs_view(Seq::<(Atom, Bindings)>::empty());
                assert(pairs_view(Seq::<(Atom, Bindings)>::empty()) =~= Seq::<
                    (AtomView, BindingsView),
                >::empty());
            }
            let acc: Vec<(Atom, Bindings)> = Vec::new();
            StepResult::Execute(Plan::Parallel(branches, acc))
        },
    }
}

/// One step of a plan; the result is exactly what the mirror describes.
pub fn plan_step(p: Plan) -> (r: StepResult)
    ensures
        r@ == spec_step(p@),
    decreases p,
{
    let ghost p0 = p;
    match p {
        Plan::InterpretOrDefault(sp, a, b) => interpret_or_default_op(sp, a, b),
        Plan::Interpret(sp, a, b) => interpret_op(sp, a, b),
        Plan::InterpretReducted(sp, a, b) => interpret_reducted_op(sp, a, b),
        Plan::ReductArgs(sp, a, b) => reduct_args_op(sp, a, b),
        Plan::MatchQuery(sp, a, b) => match_op(sp, a, b),
        Plan::ExecuteGrounded(a, b) => execute_op(a, b),
        Plan::ReductArgByArg(sp, s, b) => reduct_arg_by_arg_op(sp, s, b),
        Plan::Feed(q, res) => match q {
            PartialOp::ResultsFurther(sp) => interpret_results_further_op(sp, res),
            PartialOp::ReductNextArg(sp, s) => reduct_next_arg_op(sp, s, res),
            PartialOp::AfterArgReduction(sp, s) => interpret_after_arg_reduction_op(sp, s, res),
        },
        Plan::Sequence(p1, q) => match plan_step(*p1) {
            StepResult::Execute(p2) => StepResult::Execute(
                Plan::Sequence(Box::new(p2), q),
            ),
            StepResult::Return(v) => StepResult::Execute(Plan::Feed(q, v)),
            StepResult::Error(m) => StepResult::Error(m),
        },
        Plan::Or(p1, fb) => match plan_step(*p1) {
            StepResult::Execute(p2) => StepResult::Execute(Plan::Or(Box::new(p2), fb)),
            StepResult::Return(v) => StepResult::Return(v),
            StepResult::Error(_) => *fb,
        },
        Plan::Parallel(queue, acc) => {
            let mut queue = queue;
            let ghost q0 = plans_view(queue@);
            let ghost acc0 = pairs_view(acc@);
            proof {
                lemma_plans_view(queue@);
            }
            if queue.len() == 0 {
                proof {
                    assert(q0 =~= Seq::<PlanView>::empty());
                }
                StepResult::Return(Ok(acc))
            } else {
                let ghost qe0 = queue@;
                let first = queue.remove(0);
                proof {
                    crate::plan::lemma_queue_decreases(p0, 0);
                    assert(first == qe0[0]);
                    lemma_plans_view(queue@);
                    assert(queue@ =~= qe0.subrange(1, qe0.len() as int));
                }
                match plan_step(first) {
                    StepResult::Execute(p2) => {
                        queue.insert(0, p2);
                        let r = StepResult::Execute(Plan::Parallel(queue, acc));
                        proof {
                            lemma_plans_view(qe0);
                            if let StepResult::Execute(Plan::Parallel(q2, _)) = &r {
                                lemma_plans_view(q2@);
                                assert forall|j: int|
                                    0 <= j < q2@.len() implies plans_view(q2@)[j] == q0.update(
                                    0,
                                    plan_view(p2),
                                )[j] by {
                                    if j == 0 {
                                        assert(q2@[0] == p2);
                                    } else {
                                        assert(q2@[j] == qe0[j]);
                                    }
                                }
                                assert(plans_view(q2@) =~= q0.update(0, plan_view(p2)));
                            }
                        }
                        r
                    },
                    StepResult::Return(Ok(v)) => {
                        let acc2 = merge_ok_results(acc, v);
                        let r = StepResult::Execute(Plan::Parallel(queue, acc2));
                        proof {
                            lemma_plans_view(qe0);
                            lemma_plans_view(queue@);
                            assert forall|j: int|
                                0 <= j < queue@.len() implies plans_view(queue@)[j] == q0.subrange(
                                1,
                                q0.len() as int,
                            )[j] by {
                                assert(queue@[j] == qe0[j + 1]);
                            }
                            assert(plans_view(queue@) =~= q0.subrange(1, q0.len() as int));
                        }
                        r
                    },
                    StepResult::Return(Err(m)) => StepResult::Error(m),
                    StepResult::Error(m) => StepResult::Error(m),
                }
            }
        },
    }
}

// ---------------------------------------------------------------------------
// The driver
// ---------------------------------------------------------------------------

/// The first step of interpreting `expr` against the knowledge base.
pub fn interpret_init(space: GroundingSpace, expr: &Atom) -> (r: StepResult)
    ensures
        r@ == spec_init(space@, expr@),
{
    let b = Bindings::new();
    StepResult::Execute(Plan::InterpretOrDefault(space, clone_atom(expr), b))
}

/// One step of the driver; the plan must not be finished yet.
pub fn interpret_step(step: StepResult) -> (r: StepResult)
    requires
        step@ is Execute,
    ensures
        r@ == spec_step_sr(step@),
{
    match step {
        StepResult::Execute(plan) => plan_step(plan),
        other => other,
    }
}

/// Interprets `expr` against the knowledge base by driving the plan until it
/// is terminal, and hands back the produced atoms in branch order with the
/// final bindings dropped.  The result is exactly what iterating the step
/// mirror from the initial plan reaches; the step-budget error can only
/// come back when the rewrite system genuinely takes more steps than the
/// budget, which the contract states.  A grounded operation that succeeds
/// with no atoms at the top level yields an empty collection.
pub fn interpret(space: GroundingSpace, expr: &Atom) -> (r: Result<Vec<Atom>, String>)
    ensures
        match r {
            Ok(atoms) => exists|pairs: Seq<(AtomView, BindingsView)>|
                spec_reaches(spec_init(space@, expr@), StepView::Return(Ok(pairs)))
                    && atoms_view(atoms@) == spec_firsts(pairs),
            Err(m) => spec_reaches(spec_init(space@, expr@), StepView::Return(Err(m@)))
                || spec_reaches(spec_init(space@, expr@), StepView::Error(m@))
                || (m@ == "too many interpretation steps"@ && (forall|n: nat|
                    n <= u64::MAX as nat ==> (#[trigger] spec_run(
                        spec_init(space@, expr@),
                        n,
                    )) is Execute)),
        },
{
    let ghost s0 = spec_init(space@, expr@);
    let mut step = interpret_init(space, expr);
    proof {
        assert(spec_run(s0, 0) == step@);
    }
    let mut fuel: u64 = u64::MAX;
    while fuel > 0 && step.has_next()
        invariant
            spec_run(s0, (u64::MAX - fuel) as nat) == step@,
        decreases fuel,
    {
        let ghost n0 = (u64::MAX - fuel) as nat;
        step = interpret_step(step);
        fuel = fuel - 1;
        proof {
            lemma_run_snoc(s0, n0);
            assert((u64::MAX - fuel) as nat == n0 + 1);
            assert(spec_run(s0, n0 + 1) == step@);
        }
    }
    if step.has_next() {
        proof {
            assert(spec_run(s0, u64::MAX as nat) == step@);
            assert forall|n: nat| n <= u64::MAX as nat implies (#[trigger] spec_run(
                s0,
                n,
            )) is Execute by {
                if !(spec_run(s0, n) is Execute) {
                    lemma_terminal_stays(s0, n, u64::MAX as nat);
                }
            }
        }
        return Err("too many interpretation steps".to_string());
    }
    let ghost fin = step@;
    match step.get_result() {
        Ok(result) => match result {
            Ok(vres) => {
                let ghost pairs = pairs_view(vres@);
                proof {
                    lemma_pairs_view(vres@);
                    assert(pairs.subrange(0, 0) =~= Seq::<(AtomView, BindingsView)>::empty());
                }
                let mut atoms: Vec<Atom> = Vec::new();
                proof {
                    lemma_atoms_view(atoms@);
                    assert(atoms_view(atoms@) =~= Seq::<AtomView>::empty());
                }
                let mut k: usize = 0;
                let n = vres.len();
                while k < n
                    invariant
                        k <= n,
                        n == vres@.len(),
                        pairs == pairs_view(vres@),
                        pairs.len() == n,
                        forall|m: int| 0 <= m < n ==> pairs[m] == ((#[trigger] vres@[m]).0@,
                        vres@[m].1@),
                        atoms@.len() == k,
                        atoms_view(atoms@) == spec_firsts(pairs.subrange(0, k as int)),
                    decreases n - k,
                {
                    let ghost before = atoms@;
                    atoms.push(clone_atom(&vres[k].0));
                    proof {
                        lemma_atoms_view(atoms@);
                        lemma_atoms_view(before);
                        assert(atoms@.subrange(0, atoms@.len() - 1) =~= before);
                        assert forall|j: int|
                            0 <= j < atoms@.len() implies atoms_view(atoms@)[j] == atoms_view(
                            before,
                        ).push(pairs[k as int].0)[j] by {
                            assert(atoms_view(atoms@)[j] == atoms@[j]@);
                            if j < before.len() {
                                assert(atoms_view(before)[j] == before[j]@);
                            }
                        }
                        assert(atoms_view(atoms@) =~= atoms_view(before).push(pairs[k as int].0));
                        let pre = pairs.subrange(0, k as int);
                        let cur = pairs.subrange(0, k as int + 1);
                        assert(cur.subrange(0, cur.len() - 1) =~= pre);
                        assert(cur[cur.len() - 1] == pairs[k as int]);
                    }
                    k = k + 1;
                }
                proof {
                    assert(pairs.subrange(0, n as int) =~= pairs);
                    assert(fin == StepView::Return(Ok(pairs)));
                }
                Ok(atoms)
            },
            Err(m) => {
                proof {
                    assert(fin == StepView::Return(Err(m@)));
                }
                Err(m)
            },
        },
        Err(m) => {
            proof {
                assert(fin == StepView::Error(m@));
            }
            Err(m)
        },
    }
}

// ---------------------------------------------------------------------------
// Laws of the engine
// ---------------------------------------------------------------------------

/// Applying the empty bindings changes nothing.
pub proof fn lemma_apply_empty(a: AtomView)
    ensures
        spec_apply(a, Seq::empty()) == a,
{
    lemma_apply_no_mention(a, Seq::empty());
}

/// Law of plan observability: a non-terminal step result has a next step,
/// and taking it is exactly one application of the step rule to the held
/// plan; a terminal step result never changes.
pub proof fn lemma_plan_observability(s: StepView)
    ensures
        s is Execute ==> spec_step_sr(s) == spec_step(s->Execute_0),
        !(s is Execute) ==> spec_step_sr(s) == s,
{
}

/// Law of termination preservation: for an atom that is not an expression,
/// interpretation terminates in two steps with exactly the atom itself under
/// empty bindings, and every terminal state the driver can reach is that
/// one.  Together with the driver's own contract these clauses pin the
/// result of `interpret` down: only `Ok` with exactly the atom is possible.
pub proof fn lemma_interpret_non_expression(sp: Seq<AtomView>, a: AtomView)
    requires
        !(a is Expr),
    ensures
        spec_run(spec_init(sp, a), 2) == StepView::Return(
            Ok(seq![(a, Seq::<(Seq<char>, AtomView)>::empty())]),
        ),
        forall|n: nat|
            !((#[trigger] spec_run(spec_init(sp, a), n)) is Execute) ==> spec_run(
                spec_init(sp, a),
                n,
            ) == StepView::Return(Ok(seq![(a, Seq::<(Seq<char>, AtomView)>::empty())])),
        forall|pairs: Seq<(AtomView, BindingsView)>|
            spec_reaches(spec_init(sp, a), StepView::Return(Ok(pairs))) ==> pairs == seq![
                (a, Seq::<(Seq<char>, AtomView)>::empty()),
            ],
        forall|m: Seq<char>| !spec_reaches(spec_init(sp, a), StepView::Return(Err(m))),
        forall|m: Seq<char>| !spec_reaches(spec_init(sp, a), StepView::Error(m)),
        !(forall|n: nat|
            n <= u64::MAX as nat ==> (#[trigger] spec_run(spec_init(sp, a), n)) is Execute),
{
    let e: BindingsView = Seq::empty();
    let s0 = spec_init(sp, a);
    lemma_apply_empty(a);
    let s1 = StepView::Execute(
        PlanView::Or(
            Box::new(PlanView::Interpret(sp, a, e)),
            Box::new(StepView::Return(Ok(seq![(a, e)]))),
        ),
    );
    assert(spec_step_sr(s0) == s1);
    let fin = StepView::Return(Ok(seq![(a, e)]));
    assert(spec_step(PlanView::Interpret(sp, a, e)) == fin);
    assert(spec_step_sr(s1) == fin);
    assert(spec_run(s0, 2) == fin) by {
        lemma_run_snoc(s0, 0);
        lemma_run_snoc(s0, 1);
        assert(spec_run(s0, 0) == s0);
        assert(spec_run(s0, 1) == s1);
    }
    assert forall|n: nat| !((#[trigger] spec_run(s0, n)) is Execute) implies spec_run(s0, n)
        == fin by {
        lemma_run_snoc(s0, 0);
        lemma_run_snoc(s0, 1);
        assert(spec_run(s0, 0) == s0);
        assert(spec_run(s0, 1) == s1);
        if n >= 2 {
            lemma_terminal_stays(s0, 2, n);
        }
    }
    lemma_only_terminal(s0, fin, 2);
}

/// When every terminal run state equals the non-`Execute` state `fin`,
/// nothing else terminal is reachable and the run does terminate within the
/// driver's step budget.
proof fn lemma_only_terminal(s0: StepView, fin: StepView, k: nat)
    requires
        !(fin is Execute),
        k <= u64::MAX as nat,
        spec_run(s0, k) == fin,
        forall|n: nat|
            !((#[trigger] spec_run(s0, n)) is Execute) ==> spec_run(s0, n) == fin,
    ensures
        forall|pairs: Seq<(AtomView, BindingsView)>|
            spec_reaches(s0, StepView::Return(Ok(pairs))) ==> StepView::Return(Ok(pairs))
                == fin,
        forall|m: Seq<char>|
            spec_reaches(s0, StepView::Return(Err(m))) ==> StepView::Return(
                Err::<Seq<(AtomView, BindingsView)>, _>(m),
            ) == fin,
        forall|m: Seq<char>| spec_reaches(s0, StepView::Error(m)) ==> StepView::Error(m) == fin,
        !(forall|n: nat| n <= u64::MAX as nat ==> (#[trigger] spec_run(s0, n)) is Execute),
{
    assert forall|pairs: Seq<(AtomView, BindingsView)>|
        spec_reaches(s0, StepView::Return(Ok(pairs))) implies StepView::Return(Ok(pairs))
        == fin by {
        let n = choose|n: nat| spec_run(s0, n) == StepView::Return(Ok(pairs));
        assert(!(spec_run(s0, n) is Execute));
    }
    assert forall|m: Seq<char>| spec_reaches(s0, StepView::Return(Err(m))) implies
        StepView::Return(Err::<Seq<(AtomView, BindingsView)>, _>(m)) == fin by {
        let n = choose|n: nat| spec_run(s0, n) == StepView::Return(Err(m));
        assert(!(spec_run(s0, n) is Execute));
    }
    assert forall|m: Seq<char>| spec_reaches(s0, StepView::Error(m)) implies StepView::Error(m)
        == fin by {
        let n = choose|n: nat| spec_run(s0, n) == StepView::Error(m);
        assert(!(spec_run(s0, n) is Execute));
    }
    assert(!((spec_run(s0, k)) is Execute));
}

/// Law of the idempotent default: a plain expression with no grounded head
/// and no matching rule in the knowledge base interprets to itself: the
/// match-not-found error is absorbed by the fallback, and every terminal
/// state the driver can reach holds exactly the expression under empty
/// bindings.  Together with the driver's own contract these clauses pin the
/// result of `interpret` down: only `Ok` with exactly the expression is
/// possible.
pub proof fn lemma_interpret_unmatched_plain(sp: Seq<AtomView>, a: AtomView)
    requires
        a is Expr,
        a.is_plain_expr(),
        !spec_is_grounded(a),
        spec_query(sp, spec_probe(a, spec_fresh_name(sp, a))).len() == 0,
    ensures
        spec_run(spec_init(sp, a), 4) == StepView::Return(
            Ok(seq![(a, Seq::<(Seq<char>, AtomView)>::empty())]),
        ),
        forall|n: nat|
            !((#[trigger] spec_run(spec_init(sp, a), n)) is Execute) ==> spec_run(
                spec_init(sp, a),
                n,
            ) == StepView::Return(Ok(seq![(a, Seq::<(Seq<char>, AtomView)>::empty())])),
        forall|pairs: Seq<(AtomView, BindingsView)>|
            spec_reaches(spec_init(sp, a), StepView::Return(Ok(pairs))) ==> pairs == seq![
                (a, Seq::<(Seq<char>, AtomView)>::empty()),
            ],
        forall|m: Seq<char>| !spec_reaches(spec_init(sp, a), StepView::Return(Err(m))),
        forall|m: Seq<char>| !spec_reaches(spec_init(sp, a), StepView::Error(m)),
        !(forall|n: nat|
            n <= u64::MAX as nat ==> (#[trigger] spec_run(spec_init(sp, a), n)) is Execute),
{
    let e: BindingsView = Seq::empty();
    let s0 = spec_init(sp, a);
    lemma_apply_empty(a);
    let d = StepView::Return(Ok(seq![(a, e)]));
    let s1 = StepView::Execute(
        PlanView::Or(Box::new(PlanView::Interpret(sp, a, e)), Box::new(d)),
    );
    assert(spec_step_sr(s0) == s1);
    let s2 = StepView::Execute(
        PlanView::Or(Box::new(PlanView::InterpretReducted(sp, a, e)), Box::new(d)),
    );
    assert(spec_step(PlanView::Interpret(sp, a, e)) == StepView::Execute(
        PlanView::InterpretReducted(sp, a, e),
    ));
    assert(spec_step_sr(s1) == s2);
    let sq = PlanView::Sequence(
        Box::new(PlanView::MatchQuery(sp, a, e)),
        PartialOpView::ResultsFurther(sp),
    );
    let s3 = StepView::Execute(PlanView::Or(Box::new(sq), Box::new(d)));
    assert(spec_step(PlanView::InterpretReducted(sp, a, e)) == StepView::Execute(sq));
    assert(spec_step_sr(s2) == s3);
    assert(spec_match_results(
        spec_query(sp, spec_probe(a, spec_fresh_name(sp, a))),
        e,
        spec_fresh_name(sp, a),
    ) =~= Seq::<(AtomView, BindingsView)>::empty());
    assert(spec_step(PlanView::MatchQuery(sp, a, e)) == StepView::Error("Match is not found"@));
    assert(spec_step(sq) == StepView::Error("Match is not found"@));
    assert(spec_step_sr(s3) == d);
    assert(spec_run(s0, 4) == d) by {
        lemma_run_snoc(s0, 0);
        lemma_run_snoc(s0, 1);
        lemma_run_snoc(s0, 2);
        lemma_run_snoc(s0, 3);
        assert(spec_run(s0, 0) == s0);
        assert(spec_run(s0, 1) == s1);
        assert(spec_run(s0, 2) == s2);
        assert(spec_run(s0, 3) == s3);
    }
    assert forall|n: nat| !((#[trigger] spec_run(s0, n)) is Execute) implies spec_run(s0, n)
        == d by {
        lemma_run_snoc(s0, 0);
        lemma_run_snoc(s0, 1);
        lemma_run_snoc(s0, 2);
        lemma_run_snoc(s0, 3);
        assert(spec_run(s0, 0) == s0);
        assert(spec_run(s0, 1) == s1);
        assert(spec_run(s0, 2) == s2);
        assert(spec_run(s0, 3) == s3);
        if n >= 4 {
            lemma_terminal_stays(s0, 4, n);
        }
    }
    lemma_only_terminal(s0, d, 4);
}

/// An atom model without any variable occurrence.
pub open spec fn spec_ground(a: AtomView) -> bool
    decreases a,
{
    match a {
        AtomView::Var { .. } => false,
        AtomView::Expr { children } => spec_ground_all(children),
        _ => true,
    }
}

/// A sequence of atom models without any variable occurrence.
pub open spec fn spec_ground_all(c: Seq<AtomView>) -> bool
    decreases c,
    via spec_ground_all_decreases
{
    if c.len() == 0 {
        true
    } else {
        spec_ground(c[0]) && spec_ground_all(c.subrange(1, c.len() as int))
    }
}

#[via_fn]
proof fn spec_ground_all_decreases(c: Seq<AtomView>) {
    if c.len() != 0 {
        vstd::seq::axiom_seq_index_decreases(c, 0);
        vstd::seq::axiom_seq_subrange_decreases(c, 1, c.len() as int);
    }
}

/// A ground atom matches itself without learning any binding.
pub proof fn lemma_ground_self_match(a: AtomView, ab: BindingsView, bb: BindingsView)
    requires
        spec_ground(a),
    ensures
        spec_match(a, a, ab, bb) == Some((ab, bb)),
    decreases a,
{
    match a {
        AtomView::Expr { children } => {
            assert(decreases_to!(a => children));
            lemma_ground_children_match(children, ab, bb);
        },
        _ => {},
    }
}

/// Ground children match themselves pairwise without learning any binding.
pub proof fn lemma_ground_children_match(c: Seq<AtomView>, ab: BindingsView, bb: BindingsView)
    requires
        spec_ground_all(c),
    ensures
        spec_match_children(c, c, ab, bb) == Some((ab, bb)),
    decreases c,
{
    if c.len() != 0 {
        vstd::seq::axiom_seq_index_decreases(c, 0);
        vstd::seq::axiom_seq_subrange_decreases(c, 1, c.len() as int);
        lemma_ground_self_match(c[0], ab, bb);
        lemma_ground_children_match(c.subrange(1, c.len() as int), ab, bb);
    }
}

/// A stored rule `(= head r)` matches the probe `(= head x)` with exactly
/// the binding of the probe variable to `r`.
pub proof fn lemma_match_rule(head: AtomView, r: AtomView, x: Seq<char>)
    requires
        spec_ground(head),
        !mentions_var(r, x),
    ensures
        spec_match(
            AtomView::Expr { children: seq![AtomView::Sym { name: "="@ }, head, r] },
            spec_probe(head, x),
            Seq::empty(),
            Seq::empty(),
        ) == Some(
            (
                Seq::<(Seq<char>, AtomView)>::empty(),
                seq![(x, r)],
            ),
        ),
{
    let e: BindingsView = Seq::empty();
    let c1 = seq![AtomView::Sym { name: "="@ }, head, r];
    let c2 = spec_probe(head, x)->Expr_children;
    assert(c2 == seq![AtomView::Sym { name: "="@ }, head, AtomView::Var { name: x }]);
    // first child: the equality symbol
    assert(spec_match(c1[0], c2[0], e, e) == Some((e, e)));
    // second child: the ground head against itself
    lemma_ground_self_match(head, e, e);
    assert(c1[1] == head && c2[1] == head);
    // third child: the right-hand side against the probe variable
    let xv = AtomView::Var { name: x };
    assert(r != xv) by {
        if r == xv {
            assert(mentions_var(r, x));
        }
    }
    crate::bindings::lemma_lookup_none(e, x);
    assert(spec_match(r, xv, e, e) == Some((e, seq![(x, r)])));
    // assemble the child walk
    let r1 = c1.subrange(1, 3);
    let r2 = c2.subrange(1, 3);
    let r1b = r1.subrange(1, 2);
    let r2b = r2.subrange(1, 2);
    assert(r1[0] == head && r2[0] == head);
    assert(r1b[0] == r && r2b[0] == xv);
    assert(r1b.subrange(1, 1) =~= Seq::<AtomView>::empty());
    assert(r2b.subrange(1, 1) =~= Seq::<AtomView>::empty());
    assert(spec_match_children(r1b.subrange(1, 1), r2b.subrange(1, 1), e, seq![(x, r)])
        == Some((e, seq![(x, r)])));
    assert(r1b.subrange(1, r1b.len() as int) == r1b.subrange(1, 1));
    assert(spec_match_children(r1b, r2b, e, e) == Some((e, seq![(x, r)])));
    assert(r1.subrange(1, r1.len() as int) == r1b);
    assert(r2.subrange(1, r2.len() as int) == r2b);
    assert(spec_match_children(r1, r2, e, e) == Some((e, seq![(x, r)])));
    assert(c1.subrange(1, c1.len() as int) == r1);
    assert(c2.subrange(1, c2.len() as int) == r2);
    assert(spec_match_children(c1, c2, e, e) == Some((e, seq![(x, r)])));
}

/// Law of match-all, at the query: a knowledge base holding exactly the
/// rules `(= head r1) ... (= head rn)` answers the probe for `head` with one
/// binding set per rule, in store order, each binding the probe variable to
/// the rule's right-hand side.
pub proof fn lemma_query_rules(sp: Seq<AtomView>, head: AtomView, rs: Seq<AtomView>, x: Seq<char>)
    requires
        spec_ground(head),
        sp.len() == rs.len(),
        forall|i: int|
            0 <= i < sp.len() ==> #[trigger] sp[i] == (AtomView::Expr {
                children: seq![AtomView::Sym { name: "="@ }, head, rs[i]],
            }),
        forall|i: int| 0 <= i < rs.len() ==> !mentions_var(#[trigger] rs[i], x),
    ensures
        spec_query(sp, spec_probe(head, x)).len() == rs.len(),
        forall|i: int|
            0 <= i < rs.len() ==> #[trigger] spec_query(sp, spec_probe(head, x))[i] == seq![
                (x, rs[i]),
            ],
    decreases sp.len(),
{
    let e: BindingsView = Seq::empty();
    if sp.len() != 0 {
        lemma_match_rule(head, rs[0], x);
        lemma_apply_empty(rs[0]);
        let bb = seq![(x, rs[0])];
        assert(bb.subrange(0, 0) =~= Seq::<(Seq<char>, AtomView)>::empty());
        assert(crate::bindings::spec_apply_values(bb.subrange(0, 0), e) =~= e);
        assert(crate::bindings::spec_apply_values(bb, e) =~= bb);
        let spr = sp.subrange(1, sp.len() as int);
        let rsr = rs.subrange(1, rs.len() as int);
        assert(forall|i: int| 0 <= i < spr.len() ==> #[trigger] spr[i] == sp[i + 1]);
        assert(forall|i: int| 0 <= i < rsr.len() ==> #[trigger] rsr[i] == rs[i + 1]);
        lemma_query_rules(spr, head, rsr, x);
        let q = spec_query(sp, spec_probe(head, x));
        assert(q == seq![bb] + spec_query(spr, spec_probe(head, x)));
        assert(q.len() == rs.len());
        assert forall|i: int| 0 <= i < rs.len() implies #[trigger] q[i] == seq![
            (x, rs[i]),
        ] by {
            if i > 0 {
                assert(q[i] == spec_query(spr, spec_probe(head, x))[i - 1]);
                assert(rsr[i - 1] == rs[i]);
            }
        }
    }
}

/// Law of match-all, at the rule: against such a knowledge base the match
/// rule returns exactly one branch per rule, in store order, each holding
/// the rule's right-hand side under empty bindings.  The probe variable is
/// fresh, so the right-hand sides cannot collide with it.
pub proof fn lemma_match_all(sp: Seq<AtomView>, head: AtomView, rs: Seq<AtomView>)
    requires
        spec_ground(head),
        rs.len() > 0,
        sp.len() == rs.len(),
        forall|i: int|
            0 <= i < sp.len() ==> #[trigger] sp[i] == (AtomView::Expr {
                children: seq![AtomView::Sym { name: "="@ }, head, rs[i]],
            }),
    ensures
        spec_step(PlanView::MatchQuery(sp, head, Seq::empty())) matches StepView::Return(Ok(
            pairs,
        )) && pairs.len() == rs.len() && (forall|i: int|
            0 <= i < rs.len() ==> #[trigger] pairs[i] == (
                rs[i],
                Seq::<(Seq<char>, AtomView)>::empty(),
            )),
{
    let e: BindingsView = Seq::empty();
    let x = spec_fresh_name(sp, head);
    lemma_fresh_name(sp, head);
    assert forall|i: int| 0 <= i < rs.len() implies !mentions_var(#[trigger] rs[i], x) by {
        if mentions_var(rs[i], x) {
            let children = seq![AtomView::Sym { name: "="@ }, head, rs[i]];
            crate::atom::lemma_mentions_var_any(children, x);
            assert(mentions_var(children[2], x));
            assert(mentions_var(sp[i], x));
        }
    }
    lemma_query_rules(sp, head, rs, x);
    let q = spec_query(sp, spec_probe(head, x));
    lemma_match_results_rules(q, rs, x);
}

/// The surviving candidates of such a query, computed one rule at a time.
proof fn lemma_match_results_rules(q: Seq<BindingsView>, rs: Seq<AtomView>, x: Seq<char>)
    requires
        q.len() == rs.len(),
        forall|i: int| 0 <= i < q.len() ==> #[trigger] q[i] == seq![(x, rs[i])],
    ensures
        spec_match_results(q, Seq::empty(), x).len() == rs.len(),
        forall|i: int|
            0 <= i < rs.len() ==> #[trigger] spec_match_results(q, Seq::empty(), x)[i] == (
                rs[i],
                Seq::<(Seq<char>, AtomView)>::empty(),
            ),
    decreases q.len(),
{
    let e: BindingsView = Seq::empty();
    if q.len() != 0 {
        let n = q.len();
        let qp = q.subrange(0, n - 1);
        let rsp = rs.subrange(0, n - 1);
        assert(forall|i: int| 0 <= i < qp.len() ==> #[trigger] qp[i] == q[i]);
        assert(forall|i: int| 0 <= i < rsp.len() ==> #[trigger] rsp[i] == rs[i]);
        lemma_match_results_rules(qp, rsp, x);
        let bv = q[n - 1];
        assert(bv == seq![(x, rs[n - 1])]);
        assert(spec_lookup(bv, x) == Some(rs[n - 1]));
        assert(spec_remove(bv, x) =~= e) by {
            assert(bv.subrange(1, 1) =~= e);
        }
        lemma_apply_empty(rs[n - 1]);
        assert(spec_compose(e, e) == Some(e)) by {
            assert(crate::bindings::spec_apply_values(e, e) =~= e);
        }
        let res = spec_match_results(q, e, x);
        assert(res == spec_match_results(qp, e, x) + seq![(rs[n - 1], e)]);
        assert forall|i: int| 0 <= i < rs.len() implies #[trigger] res[i] == (rs[i], e) by {
            if i < n - 1 {
                assert(res[i] == spec_match_results(qp, e, x)[i]);
            }
        }
    }
}

/// `spec_further_branches` builds one branch per pair, position by position.
pub proof fn lemma_further_branches_index(sp: Seq<AtomView>, v: Seq<(AtomView, BindingsView)>)
    ensures
        spec_further_branches(sp, v).len() == v.len(),
        forall|i: int|
            0 <= i < v.len() ==> spec_further_branches(sp, v)[i]
                == PlanView::InterpretOrDefault(sp, (#[trigger] v[i]).0, v[i].1),
    decreases v.len(),
{
    if v.len() != 0 {
        lemma_further_branches_index(sp, v.subrange(0, v.len() - 1));
        assert(forall|i: int|
            0 <= i < v.len() - 1 ==> v.subrange(0, v.len() - 1)[i] == #[trigger] v[i]);
    }
}

/// Driving a parallel fan-out over non-expression result pairs: each branch
/// takes two steps to return its pair unchanged, in queue order, and the
/// whole plan then returns the accumulator followed by the pairs.  All the
/// while the plan stays inside its fallback wrapper, which a successful
/// return passes through.
proof fn lemma_run_parallel_non_expr(
    sp: Seq<AtomView>,
    d: StepView,
    v: Seq<(AtomView, BindingsView)>,
    acc: Seq<(AtomView, BindingsView)>,
)
    requires
        forall|i: int| 0 <= i < v.len() ==> !((#[trigger] v[i]).0 is Expr),
        forall|i: int| 0 <= i < v.len() ==> (#[trigger] v[i]).1 == Seq::<
            (Seq<char>, AtomView),
        >::empty(),
    ensures
        spec_run(
            StepView::Execute(
                PlanView::Or(
                    Box::new(PlanView::Parallel(spec_further_branches(sp, v), acc)),
                    Box::new(d),
                ),
            ),
            (2 * v.len() + 1) as nat,
        ) == StepView::Return(Ok(acc + v)),
        forall|k: nat|
            k < (2 * v.len() + 1) as nat ==> (#[trigger] spec_run(
                StepView::Execute(
                    PlanView::Or(
                        Box::new(PlanView::Parallel(spec_further_branches(sp, v), acc)),
                        Box::new(d),
                    ),
                ),
                k,
            )) is Execute,
    decreases v.len(),
{
    let e: BindingsView = Seq::empty();
    let queue = spec_further_branches(sp, v);
    lemma_further_branches_index(sp, v);
    let s0 = StepView::Execute(
        PlanView::Or(Box::new(PlanView::Parallel(queue, acc)), Box::new(d)),
    );
    if v.len() == 0 {
        assert(queue.len() == 0);
        assert(spec_step(PlanView::Parallel(queue, acc)) == StepView::Return(Ok(acc)));
        assert(spec_step_sr(s0) == StepView::Return(Ok(acc)));
        assert(acc + v =~= acc);
        assert(spec_run(s0, 1) == StepView::Return(Ok(acc + v))) by {
            lemma_run_snoc(s0, 0);
        }
        assert forall|k: nat| k < 1nat implies (#[trigger] spec_run(s0, k)) is Execute by {
            assert(spec_run(s0, 0) == s0);
        }
    } else {
        let v0 = v[0].0;
        assert(queue[0] == PlanView::InterpretOrDefault(sp, v0, e));
        // first step: the branch becomes the try-or-default alternative
        lemma_apply_empty(v0);
        let p1 = PlanView::Or(
            Box::new(PlanView::Interpret(sp, v0, e)),
            Box::new(StepView::Return(Ok(seq![(v0, e)]))),
        );
        assert(spec_step(queue[0]) =~~= StepView::Execute(p1));
        let q1 = queue.update(0, p1);
        let s1 = StepView::Execute(
            PlanView::Or(Box::new(PlanView::Parallel(q1, acc)), Box::new(d)),
        );
        assert(spec_step(PlanView::Parallel(queue, acc)) =~~= StepView::Execute(
            PlanView::Parallel(q1, acc),
        ));
        assert(spec_step_sr(s0) =~~= s1);
        // second step: the branch returns its pair, the queue moves on
        assert(spec_step(PlanView::Interpret(sp, v0, e)) == StepView::Return(
            Ok(seq![(v0, e)]),
        ));
        assert(q1[0] == p1);
        assert(spec_step(q1[0]) =~~= StepView::Return(Ok(seq![(v0, e)])));
        let vr = v.subrange(1, v.len() as int);
        assert(forall|i: int| 0 <= i < vr.len() ==> #[trigger] vr[i] == v[i + 1]);
        let qr = q1.subrange(1, q1.len() as int);
        lemma_further_branches_index(sp, vr);
        assert forall|i: int| 0 <= i < qr.len() implies qr[i] == spec_further_branches(
            sp,
            vr,
        )[i] by {
            assert(qr[i] == q1[i + 1]);
            assert(q1[i + 1] == queue[i + 1]);
            assert(queue[i + 1] == PlanView::InterpretOrDefault(sp, v[i + 1].0, v[i + 1].1));
            assert(vr[i] == v[i + 1]);
            assert(spec_further_branches(sp, vr)[i] == PlanView::InterpretOrDefault(
                sp,
                vr[i].0,
                vr[i].1,
            ));
        }
        assert(qr =~= spec_further_branches(sp, vr));
        let acc2 = acc + seq![(v0, e)];
        assert((v0, e) == v[0]);
        let s2 = StepView::Execute(
            PlanView::Or(
                Box::new(PlanView::Parallel(spec_further_branches(sp, vr), acc2)),
                Box::new(d),
            ),
        );
        assert(spec_step(PlanView::Parallel(q1, acc)) =~~= StepView::Execute(
            PlanView::Parallel(spec_further_branches(sp, vr), acc2),
        )) by {
            assert(q1.subrange(1, q1.len() as int) == qr);
            assert(qr == spec_further_branches(sp, vr));
        }
        assert(spec_step_sr(s1) =~~= s2);
        lemma_run_parallel_non_expr(sp, d, vr, acc2);
        assert(acc2 + vr =~= acc + v);
        assert(spec_run(s2, (2 * vr.len() + 1) as nat) == StepView::Return(Ok(acc + v)));
        lemma_run_add(s0, 2, (2 * vr.len() + 1) as nat);
        assert(spec_run(s0, 2) == s2) by {
            lemma_run_snoc(s0, 0);
            lemma_run_snoc(s0, 1);
        }
        assert(spec_run(s0, (2 * v.len() + 1) as nat) == StepView::Return(Ok(acc + v)));
        assert forall|k: nat| k < (2 * v.len() + 1) as nat implies (#[trigger] spec_run(
            s0,
            k,
        )) is Execute by {
            if k == 0 {
                assert(spec_run(s0, 0) == s0);
            } else if k == 1 {
                lemma_run_snoc(s0, 0);
                assert(spec_run(s0, 1) == s1);
            } else {
                lemma_run_add(s0, 2, (k - 2) as nat);
                assert(spec_run(s0, k) == spec_run(s2, (k - 2) as nat));
            }
        }
    }
}

/// Law of match-all, at the driver: against a knowledge base holding exactly
/// the rules `(= head r1) ... (= head rn)` with a ground, plain,
/// non-grounded-headed `head` and non-expression right-hand sides, the
/// driver terminates with exactly `r1 ... rn` in store order, and no other
/// terminal state is reachable.  Together with the driver's own contract
/// these clauses pin the result of `interpret` down.
#[verifier::rlimit(100)]
pub proof fn lemma_interpret_match_all(sp: Seq<AtomView>, head: AtomView, rs: Seq<AtomView>)
    requires
        spec_ground(head),
        head is Expr,
        head.is_plain_expr(),
        !spec_is_grounded(head),
        rs.len() > 0,
        2 * rs.len() + 6 <= u64::MAX as nat,
        sp.len() == rs.len(),
        forall|i: int|
            0 <= i < sp.len() ==> #[trigger] sp[i] == (AtomView::Expr {
                children: seq![AtomView::Sym { name: "="@ }, head, rs[i]],
            }),
        forall|i: int| 0 <= i < rs.len() ==> !((#[trigger] rs[i]) is Expr),
    ensures
        spec_run(spec_init(sp, head), (2 * rs.len() + 6) as nat) matches StepView::Return(Ok(
            pairs,
        )) && pairs.len() == rs.len() && (forall|i: int|
            0 <= i < rs.len() ==> (#[trigger] pairs[i]) == (
                rs[i],
                Seq::<(Seq<char>, AtomView)>::empty(),
            )),
        forall|pairs: Seq<(AtomView, BindingsView)>|
            spec_reaches(spec_init(sp, head), StepView::Return(Ok(pairs))) ==> pairs.len()
                == rs.len() && (forall|i: int|
                0 <= i < rs.len() ==> (#[trigger] pairs[i]) == (
                    rs[i],
                    Seq::<(Seq<char>, AtomView)>::empty(),
                )),
        forall|m: Seq<char>| !spec_reaches(spec_init(sp, head), StepView::Return(Err(m))),
        forall|m: Seq<char>| !spec_reaches(spec_init(sp, head), StepView::Error(m)),
        !(forall|n: nat|
            n <= u64::MAX as nat ==> (#[trigger] spec_run(spec_init(sp, head), n)) is Execute),
{
    let e: BindingsView = Seq::empty();
    let s0 = spec_init(sp, head);
    lemma_apply_empty(head);
    let d = StepView::Return(Ok(seq![(head, e)]));
    let s1 = StepView::Execute(
        PlanView::Or(Box::new(PlanView::Interpret(sp, head, e)), Box::new(d)),
    );
    assert(spec_step_sr(s0) == s1);
    let s2 = StepView::Execute(
        PlanView::Or(Box::new(PlanView::InterpretReducted(sp, head, e)), Box::new(d)),
    );
    assert(spec_step(PlanView::Interpret(sp, head, e)) == StepView::Execute(
        PlanView::InterpretReducted(sp, head, e),
    ));
    assert(spec_step_sr(s1) =~~= s2);
    let sq = PlanView::Sequence(
        Box::new(PlanView::MatchQuery(sp, head, e)),
        PartialOpView::ResultsFurther(sp),
    );
    let s3 = StepView::Execute(PlanView::Or(Box::new(sq), Box::new(d)));
    assert(spec_step(PlanView::InterpretReducted(sp, head, e)) == StepView::Execute(sq));
    assert(spec_step_sr(s2) == s3);
    lemma_match_all(sp, head, rs);
    let pairs = spec_step(PlanView::MatchQuery(sp, head, e))->Return_0->Ok_0;
    assert(pairs.len() == rs.len());
    assert(forall|i: int| 0 <= i < rs.len() ==> (#[trigger] pairs[i]) == (rs[i], e));
    let s4 = StepView::Execute(
        PlanView::Or(
            Box::new(PlanView::Feed(PartialOpView::ResultsFurther(sp), Ok(pairs))),
            Box::new(d),
        ),
    );
    assert(spec_step(PlanView::MatchQuery(sp, head, e)) == StepView::Return(Ok(pairs)));
    assert(spec_step(sq) =~~= StepView::Execute(
        PlanView::Feed(PartialOpView::ResultsFurther(sp), Ok(pairs)),
    ));
    assert(spec_step_sr(s3) =~~= s4);
    let s5 = StepView::Execute(
        PlanView::Or(
            Box::new(PlanView::Parallel(spec_further_branches(sp, pairs), Seq::empty())),
            Box::new(d),
        ),
    );
    assert(spec_step(PlanView::Feed(PartialOpView::ResultsFurther(sp), Ok(pairs)))
        =~~= StepView::Execute(
        PlanView::Parallel(spec_further_branches(sp, pairs), Seq::empty()),
    ));
    assert(spec_step_sr(s4) =~~= s5);
    assert(forall|i: int| 0 <= i < pairs.len() ==> !((#[trigger] pairs[i]).0 is Expr));
    assert(forall|i: int| 0 <= i < pairs.len() ==> (#[trigger] pairs[i]).1 == e);
    lemma_run_parallel_non_expr(sp, d, pairs, Seq::empty());
    assert(Seq::empty() + pairs =~= pairs);
    let total = (2 * rs.len() + 6) as nat;
    assert(spec_run(s0, 5) == s5) by {
        lemma_run_snoc(s0, 0);
        lemma_run_snoc(s0, 1);
        lemma_run_snoc(s0, 2);
        lemma_run_snoc(s0, 3);
        lemma_run_snoc(s0, 4);
    }
    lemma_run_add(s0, 5, (2 * pairs.len() + 1) as nat);
    assert(spec_run(s0, total) == StepView::Return(Ok(pairs)));
    assert forall|n: nat| !((#[trigger] spec_run(s0, n)) is Execute) implies spec_run(s0, n)
        == StepView::Return(Ok(pairs)) by {
        if n < 5 {
            lemma_run_snoc(s0, 0);
            lemma_run_snoc(s0, 1);
            lemma_run_snoc(s0, 2);
            lemma_run_snoc(s0, 3);
            assert(spec_run(s0, 0) == s0);
            assert(spec_run(s0, 1) == s1);
            assert(spec_run(s0, 2) == s2);
            assert(spec_run(s0, 3) == s3);
            assert(spec_run(s0, 4) == s4);
        } else if n < total {
            lemma_run_add(s0, 5, (n - 5) as nat);
            assert(spec_run(s0, n) == spec_run(s5, (n - 5) as nat));
        } else {
            lemma_terminal_stays(s0, total, n);
        }
    }
    lemma_only_terminal(s0, StepView::Return(Ok(pairs)), total);
    assert forall|qairs: Seq<(AtomView, BindingsView)>|
        spec_reaches(s0, StepView::Return(Ok(qairs))) implies qairs.len() == rs.len() && (
    forall|i: int|
        0 <= i < rs.len() ==> (#[trigger] qairs[i]) == (
            rs[i],
            Seq::<(Seq<char>, AtomView)>::empty(),
        )) by {
        assert(StepView::Return(Ok(qairs)) == StepView::Return(Ok(pairs)));
    }
}

} // verus!
