//! The knowledge base: a read-only store of atoms, queried by matching each
//! stored atom against a pattern.

use vstd::prelude::*;
use crate::atom::{Atom, AtomView, atoms_view, clone_atom, lemma_atoms_view};
use crate::bindings::{Bindings, BindingsView, spec_apply_values};
use crate::matcher::{match_atoms, spec_match};

verus! {

/// The knowledge base of equality axioms.
#[derive(Debug)]
pub struct GroundingSpace {
    pub content: Vec<Atom>,
}

impl View for GroundingSpace {
    type V = Seq<AtomView>;

    open spec fn view(&self) -> Seq<AtomView> {
        atoms_view(self.content@)
    }
}

/// The models of a sequence of binding sets, element by element.
pub open spec fn bindings_list_view(s: Seq<Bindings>) -> Seq<BindingsView>
    decreases s,
    via bindings_list_view_decreases
{
    if s.len() == 0 {
        Seq::empty()
    } else {
        bindings_list_view(s.subrange(0, s.len() - 1)).push(s[s.len() - 1]@)
    }
}

#[via_fn]
proof fn bindings_list_view_decreases(s: Seq<Bindings>) {
    if s.len() != 0 {
        vstd::seq::axiom_seq_subrange_decreases(s, 0, s.len() - 1);
    }
}

/// `bindings_list_view` takes each element to its model, position by
/// position.
pub broadcast proof fn lemma_bindings_list_view(s: Seq<Bindings>)
    ensures
        (#[trigger] bindings_list_view(s)).len() == s.len(),
        forall|i: int| 0 <= i < s.len() ==> bindings_list_view(s)[i] == (#[trigger] s[i])@,
    decreases s.len(),
{
    if s.len() != 0 {
        lemma_bindings_list_view(s.subrange(0, s.len() - 1));
        assert(forall|i: int|
            0 <= i < s.len() - 1 ==> s.subrange(0, s.len() - 1)[i] == #[trigger] s[i]);
    }
}

/// The result of querying a store with a pattern: for each stored atom that
/// matches, the pattern-side binding set with the stored-side bindings
/// substituted into its values, in store order.
pub open spec fn spec_query(content: Seq<AtomView>, pattern: AtomView) -> Seq<BindingsView>
    decreases content,
    via spec_query_decreases
{
    if content.len() == 0 {
        Seq::empty()
    } else {
        (match spec_match(content[0], pattern, Seq::empty(), Seq::empty()) {
            Some(r) => seq![spec_apply_values(r.1, r.0)],
            None => Seq::empty(),
        }) + spec_query(content.subrange(1, content.len() as int), pattern)
    }
}

#[via_fn]
proof fn spec_query_decreases(content: Seq<AtomView>, pattern: AtomView) {
    if content.len() != 0 {
        vstd::seq::axiom_seq_subrange_decreases(content, 1, content.len() as int);
    }
}

impl GroundingSpace {
    /// An empty knowledge base.
    pub fn new() -> (r: GroundingSpace)
        ensures
            r@ == Seq::<AtomView>::empty(),
    {
        let r = GroundingSpace { content: Vec::new() };
        proof {
            lemma_atoms_view(r.content@);
            assert(r@ =~= Seq::<AtomView>::empty());
        }
        r
    }

    /// Adds an atom at the end of the store.
    pub fn add(&mut self, atom: Atom)
        ensures
            final(self)@ == old(self)@.push(atom@),
    {
        let ghost olds = self.content@;
        self.content.push(atom);
        proof {
            lemma_atoms_view(self.content@);
            lemma_atoms_view(olds);
            assert(self.content@.subrange(0, self.content@.len() - 1) =~= olds);
            assert forall|j: int| 0 <= j < self@.len() implies self@[j] == old(self)@.push(
                atom@,
            )[j] by {
                assert(atoms_view(self.content@)[j] == self.content@[j]@);
                if j < olds.len() {
                    assert(atoms_view(olds)[j] == olds[j]@);
                }
            }
            assert(self@ =~= old(self)@.push(atom@));
        }
    }

    /// Matches every stored atom against the pattern and returns the binding
    /// set of each match, in store order.
    #[verifier::loop_isolation(false)]
    pub fn query(&self, pattern: &Atom) -> (r: Vec<Bindings>)
        ensures
            bindings_list_view(r@) == spec_query(self@, pattern@),
    {
        proof {
            lemma_atoms_view(self.content@);
        }
        let mut result: Vec<Bindings> = Vec::new();
        let n = self.content.len();
        proof {
            lemma_bindings_list_view(result@);
            assert(bindings_list_view(result@) =~= Seq::<BindingsView>::empty());
            assert(self@.subrange(0, n as int) =~= self@);
        }
        let mut i: usize = 0;
        while i < n
            invariant
                i <= n,
                n == self.content@.len(),
                self@.len() == n,
                forall|j: int| 0 <= j < n ==> #[trigger] self@[j] == self.content@[j]@,
                spec_query(self@, pattern@) == bindings_list_view(result@) + spec_query(
                    self@.subrange(i as int, n as int),
                    pattern@,
                ),
            decreases n - i,
        {
            let ghost rest = self@.subrange(i as int, n as int);
            proof {
                assert(rest[0] == self@[i as int]);
                assert(rest.subrange(1, rest.len() as int) =~= self@.subrange(
                    i as int + 1,
                    n as int,
                ));
            }
            let ghost oldres = result@;
            match match_atoms(&self.content[i], pattern) {
                Some(pair) => {
                    let applied = crate::bindings::apply_values(&pair.1, &pair.0);
                    result.push(applied);
                    proof {
                        lemma_bindings_list_view(result@);
                        lemma_bindings_list_view(oldres);
                        assert(result@.subrange(0, result@.len() - 1) =~= oldres);
                        assert(bindings_list_view(result@) =~= bindings_list_view(oldres).push(
                            result@[result@.len() - 1]@,
                        ));
                    }
                },
                None => {},
            }
            i = i + 1;
        }
        proof {
            assert(self@.subrange(n as int, n as int) =~= Seq::<AtomView>::empty());
        }
        result
    }
}

impl Clone for GroundingSpace {
    /// Clones the store; the clone has the same model.
    fn clone(&self) -> (r: GroundingSpace)
        ensures
            r@ == self@,
    {
        let mut v: Vec<Atom> = Vec::new();
        let mut i: usize = 0;
        while i < self.content.len()
            invariant
                i <= self.content@.len(),
                v@.len() == i,
                forall|j: int| 0 <= j < i ==> #[trigger] v@[j]@ == self.content@[j]@,
            decreases self.content@.len() - i,
        {
            v.push(clone_atom(&self.content[i]));
            i = i + 1;
        }
        let r = GroundingSpace { content: v };
        proof {
            lemma_atoms_view(v@);
            lemma_atoms_view(self.content@);
            assert forall|j: int| 0 <= j < v@.len() implies atoms_view(v@)[j] == atoms_view(
                self.content@,
            )[j] by {
                assert(atoms_view(v@)[j] == v@[j]@);
                assert(atoms_view(self.content@)[j] == self.content@[j]@);
            }
            assert(r@ =~= self@);
        }
        r
    }
}

} // verus!
