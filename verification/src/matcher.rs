//! Matching one atom against another.  The left side is a stored atom whose
//! variables collect into one binding set, the right side is a query pattern
//! whose variables collect into a second binding set.

use vstd::prelude::*;
use crate::atom::{
    Atom, AtomView, atom_eq, atom_mentions, atoms_view, clone_atom, lemma_atoms_view,
    lemma_child_decreases, mentions_var,
};
use crate::bindings::{Bindings, BindingsView, spec_contains, spec_lookup};

verus! {

/// A variable bound in `b` stands for its mapped model; anything else stands
/// for itself.
pub open spec fn spec_resolve(a: AtomView, b: BindingsView) -> AtomView {
    if a is Var && spec_contains(b, a->Var_name) {
        spec_lookup(b, a->Var_name)->Some_0
    } else {
        a
    }
}

/// Matches the stored model `a` against the pattern model `b` under the
/// accumulated binding sets; `None` on failure, otherwise the extended
/// binding sets.
///
/// An unbound pattern variable binds to the resolved left side (an occurs
/// check refuses a self-referential binding); an unbound stored variable
/// binds to the resolved right side in the same way; bound variables stand
/// for their values and match by structural equality; symbols and grounded
/// values match by equality; expressions match child by child, threading the
/// binding sets left to right.
pub open spec fn spec_match(a: AtomView, b: AtomView, ab: BindingsView, bb: BindingsView) -> Option<
    (BindingsView, BindingsView),
>
    decreases a,
{
    let a1 = spec_resolve(a, ab);
    let b1 = spec_resolve(b, bb);
    if b is Var && !spec_contains(bb, b->Var_name) {
        if a1 == b {
            Some((ab, bb))
        } else if mentions_var(a1, b->Var_name) {
            None
        } else {
            Some((ab, bb.push((b->Var_name, a1))))
        }
    } else if a is Var && !spec_contains(ab, a->Var_name) {
        if b1 == a {
            Some((ab, bb))
        } else if mentions_var(b1, a->Var_name) {
            None
        } else {
            Some((ab.push((a->Var_name, b1)), bb))
        }
    } else if a is Var || b is Var {
        if a1 == b1 {
            Some((ab, bb))
        } else {
            None
        }
    } else {
        match (a, b) {
            (AtomView::Sym { name: n1 }, AtomView::Sym { name: n2 }) => if n1 == n2 {
                Some((ab, bb))
            } else {
                None
            },
            (AtomView::Gnd { value: g1 }, AtomView::Gnd { value: g2 }) => if g1 == g2 {
                Some((ab, bb))
            } else {
                None
            },
            (AtomView::Expr { children: c1 }, AtomView::Expr { children: c2 }) => if c1.len()
                == c2.len() {
                spec_match_children(c1, c2, ab, bb)
            } else {
                None
            },
            _ => None,
        }
    }
}

/// Matches corresponding children left to right, threading the binding sets.
pub open spec fn spec_match_children(
    c1: Seq<AtomView>,
    c2: Seq<AtomView>,
    ab: BindingsView,
    bb: BindingsView,
) -> Option<(BindingsView, BindingsView)>
    decreases c1,
    via spec_match_children_decreases
{
    if c1.len() == 0 {
        Some((ab, bb))
    } else {
        match spec_match(c1[0], c2[0], ab, bb) {
            None => None,
            Some((ab2, bb2)) => spec_match_children(
                c1.subrange(1, c1.len() as int),
                c2.subrange(1, c2.len() as int),
                ab2,
                bb2,
            ),
        }
    }
}

#[via_fn]
proof fn spec_match_children_decreases(
    c1: Seq<AtomView>,
    c2: Seq<AtomView>,
    ab: BindingsView,
    bb: BindingsView,
) {
    if c1.len() != 0 {
        vstd::seq::axiom_seq_index_decreases(c1, 0);
        vstd::seq::axiom_seq_subrange_decreases(c1, 1, c1.len() as int);
    }
}

/// Resolves a bound variable to a clone of its value; anything else to a
/// clone of itself.
fn resolve(a: &Atom, b: &Bindings) -> (r: Atom)
    ensures
        r@ == spec_resolve(a@, b@),
{
    match a {
        Atom::Variable(v) => match b.get(&v.name) {
            Some(val) => clone_atom(val),
            None => clone_atom(a),
        },
        _ => clone_atom(a),
    }
}

/// Matches the stored atom `a` against the pattern `b`, extending the two
/// binding sets exactly as `spec_match` describes.  On failure the binding
/// sets are left in an unspecified intermediate state; callers discard them.
pub fn match_atoms_rec(a: &Atom, b: &Atom, ab: &mut Bindings, bb: &mut Bindings) -> (ok: bool)
    ensures
        match spec_match(a@, b@, old(ab)@, old(bb)@) {
            Some(r) => ok && final(ab)@ == r.0 && final(bb)@ == r.1,
            None => !ok,
        },
    decreases a,
{
    let a1 = resolve(a, ab);
    if let Atom::Variable(vb) = b {
        if bb.get(&vb.name).is_none() {
            let same = atom_eq(&a1, b);
            if same {
                return true;
            }
            if atom_mentions(&a1, &vb.name) {
                return false;
            }
            bb.insert(vb.clone(), a1);
            return true;
        }
    }
    if let Atom::Variable(va) = a {
        if ab.get(&va.name).is_none() {
            let b1 = resolve(b, bb);
            let same = atom_eq(&b1, a);
            if same {
                return true;
            }
            if atom_mentions(&b1, &va.name) {
                return false;
            }
            ab.insert(va.clone(), b1);
            return true;
        }
    }
    let a_is_var = matches!(a, Atom::Variable(..));
    let b_is_var = matches!(b, Atom::Variable(..));
    if a_is_var || b_is_var {
        let b1 = resolve(b, bb);
        return atom_eq(&a1, &b1);
    }
    match (a, b) {
        (Atom::Symbol { symbol: s1 }, Atom::Symbol { symbol: s2 }) => *s1 == *s2,
        (Atom::Grounded(g1), Atom::Grounded(g2)) => *g1 == *g2,
        (Atom::Expression(e1), Atom::Expression(e2)) => {
            proof {
                lemma_atoms_view(e1.children@);
                lemma_atoms_view(e2.children@);
            }
            if e1.children.len() != e2.children.len() {
                return false;
            }
            let ghost c1 = atoms_view(e1.children@);
            let ghost c2 = atoms_view(e2.children@);
            let n = e1.children.len();
            proof {
                assert(c1.subrange(0, n as int) =~= c1);
                assert(c2.subrange(0, n as int) =~= c2);
            }
            let mut i: usize = 0;
            while i < n
                invariant
                    i <= n,
                    a is Expression,
                    b is Expression,
                    *e1 == a->Expression_0,
                    *e2 == b->Expression_0,
                    n == e1.children@.len(),
                    n == e2.children@.len(),
                    c1 == atoms_view(e1.children@),
                    c2 == atoms_view(e2.children@),
                    c1.len() == n,
                    c2.len() == n,
                    forall|j: int| 0 <= j < n ==> c1[j] == #[trigger] e1.children@[j]@,
                    forall|j: int| 0 <= j < n ==> c2[j] == #[trigger] e2.children@[j]@,
                    spec_match_children(c1, c2, old(ab)@, old(bb)@) == spec_match_children(
                        c1.subrange(i as int, n as int),
                        c2.subrange(i as int, n as int),
                        ab@,
                        bb@,
                    ),
                decreases n - i,
            {
                let ghost r1 = c1.subrange(i as int, n as int);
                let ghost r2 = c2.subrange(i as int, n as int);
                proof {
                    assert(r1[0] == c1[i as int]);
                    assert(r2[0] == c2[i as int]);
                    assert(r1.subrange(1, r1.len() as int) =~= c1.subrange(
                        i as int + 1,
                        n as int,
                    ));
                    assert(r2.subrange(1, r2.len() as int) =~= c2.subrange(
                        i as int + 1,
                        n as int,
                    ));
                    lemma_child_decreases(*a, i as int);
                }
                let ok = match_atoms_rec(&e1.children[i], &e2.children[i], ab, bb);
                if !ok {
                    return false;
                }
                i = i + 1;
            }
            proof {
                assert(c1.subrange(n as int, n as int) =~= Seq::<AtomView>::empty());
                assert(c2.subrange(n as int, n as int) =~= Seq::<AtomView>::empty());
            }
            true
        },
        _ => false,
    }
}

/// A single match of a stored atom against a pattern, starting from empty
/// binding sets.
pub fn match_atoms(a: &Atom, b: &Atom) -> (r: Option<(Bindings, Bindings)>)
    ensures
        match spec_match(a@, b@, Seq::empty(), Seq::empty()) {
            Some(p) => r matches Some(q) && q.0@ == p.0 && q.1@ == p.1,
            None => r is None,
        },
{
    let mut ab = Bindings::new();
    let mut bb = Bindings::new();
    if match_atoms_rec(a, b, &mut ab, &mut bb) {
        Some((ab, bb))
    } else {
        None
    }
}

} // verus!
