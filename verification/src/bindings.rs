//! Variable bindings: a mapping from variable names to atoms, together with
//! application of bindings to atoms and composition of bindings.

use vstd::prelude::*;
use crate::atom::{
    Atom, AtomView, ExpressionAtom, VariableAtom, atom_eq, atoms_view, clone_atom,
    lemma_atoms_view, lemma_child_decreases, lemma_mentions_var_any, mentions_var,
    mentions_var_any,
};

verus! {

/// The model of a bindings value: the name/model pairs in insertion order.
pub type BindingsView = Seq<(Seq<char>, AtomView)>;

/// A mapping from variables to atoms.  A name occurs at most once; lookups
/// return the first entry with the requested name.
#[derive(Debug)]
pub struct Bindings {
    pub entries: Vec<(VariableAtom, Atom)>,
}

/// The model of a sequence of entries, element by element.
pub open spec fn entries_view(s: Seq<(VariableAtom, Atom)>) -> BindingsView
    decreases s,
    via entries_view_decreases
{
    if s.len() == 0 {
        Seq::empty()
    } else {
        entries_view(s.subrange(0, s.len() - 1)).push(
            (s[s.len() - 1].0.name@, s[s.len() - 1].1@),
        )
    }
}

#[via_fn]
proof fn entries_view_decreases(s: Seq<(VariableAtom, Atom)>) {
    if s.len() != 0 {
        vstd::seq::axiom_seq_subrange_decreases(s, 0, s.len() - 1);
    }
}

/// `entries_view` takes each entry to its model, position by position.
pub broadcast proof fn lemma_entries_view(s: Seq<(VariableAtom, Atom)>)
    ensures
        (#[trigger] entries_view(s)).len() == s.len(),
        forall|i: int|
            0 <= i < s.len() ==> entries_view(s)[i] == ((#[trigger] s[i]).0.name@, s[i].1@),
    decreases s.len(),
{
    if s.len() != 0 {
        lemma_entries_view(s.subrange(0, s.len() - 1));
        assert(forall|i: int|
            0 <= i < s.len() - 1 ==> s.subrange(0, s.len() - 1)[i] == #[trigger] s[i]);
    }
}

impl View for Bindings {
    type V = BindingsView;

    open spec fn view(&self) -> BindingsView {
        entries_view(self.entries@)
    }
}

/// The first value bound to `name`, if any.
pub open spec fn spec_lookup(b: BindingsView, name: Seq<char>) -> Option<AtomView>
    decreases b,
    via spec_lookup_decreases
{
    if b.len() == 0 {
        None
    } else if b[0].0 == name {
        Some(b[0].1)
    } else {
        spec_lookup(b.subrange(1, b.len() as int), name)
    }
}

#[via_fn]
proof fn spec_lookup_decreases(b: BindingsView, name: Seq<char>) {
    if b.len() != 0 && b[0].0 != name {
        vstd::seq::axiom_seq_subrange_decreases(b, 1, b.len() as int);
    }
}

/// Whether `name` is bound.
pub open spec fn spec_contains(b: BindingsView, name: Seq<char>) -> bool {
    spec_lookup(b, name) is Some
}

/// The bindings with the first entry for `name` taken out.
pub open spec fn spec_remove(b: BindingsView, name: Seq<char>) -> BindingsView
    decreases b,
    via spec_remove_decreases
{
    if b.len() == 0 {
        b
    } else if b[0].0 == name {
        b.subrange(1, b.len() as int)
    } else {
        seq![b[0]] + spec_remove(b.subrange(1, b.len() as int), name)
    }
}

#[via_fn]
proof fn spec_remove_decreases(b: BindingsView, name: Seq<char>) {
    if b.len() != 0 && b[0].0 != name {
        vstd::seq::axiom_seq_subrange_decreases(b, 1, b.len() as int);
    }
}

/// If position `i` holds the first entry named `name`, the lookup returns its
/// value and removal keeps every other entry in order.
pub proof fn lemma_lookup_at(b: BindingsView, name: Seq<char>, i: int)
    requires
        0 <= i < b.len(),
        b[i].0 == name,
        forall|j: int| 0 <= j < i ==> (#[trigger] b[j]).0 != name,
    ensures
        spec_lookup(b, name) == Some(b[i].1),
        spec_remove(b, name) =~= b.subrange(0, i) + b.subrange(i + 1, b.len() as int),
    decreases i,
{
    if i == 0 {
        assert(spec_remove(b, name) == b.subrange(1, b.len() as int));
        assert(b.subrange(0, 0) + b.subrange(1, b.len() as int) =~= b.subrange(
            1,
            b.len() as int,
        ));
    } else {
        let rest = b.subrange(1, b.len() as int);
        assert(forall|j: int| 0 <= j < i - 1 ==> (#[trigger] rest[j]).0 != name) by {
            assert(forall|j: int| 0 <= j < i - 1 ==> rest[j] == #[trigger] b[j + 1]);
        }
        assert(rest[i - 1] == b[i]);
        lemma_lookup_at(rest, name, i - 1);
        assert(spec_remove(b, name) == seq![b[0]] + spec_remove(rest, name));
        assert(seq![b[0]] + (rest.subrange(0, i - 1) + rest.subrange(i - 1 + 1, rest.len() as int))
            =~= b.subrange(0, i) + b.subrange(i + 1, b.len() as int));
    }
}

/// If no entry is named `name`, the lookup fails and removal is the identity.
pub proof fn lemma_lookup_none(b: BindingsView, name: Seq<char>)
    requires
        forall|j: int| 0 <= j < b.len() ==> (#[trigger] b[j]).0 != name,
    ensures
        spec_lookup(b, name) is None,
        spec_remove(b, name) == b,
    decreases b.len(),
{
    if b.len() != 0 {
        let rest = b.subrange(1, b.len() as int);
        assert(forall|j: int| 0 <= j < rest.len() ==> (#[trigger] rest[j]).0 != name) by {
            assert(forall|j: int| 0 <= j < rest.len() ==> rest[j] == #[trigger] b[j + 1]);
        }
        lemma_lookup_none(rest, name);
        assert(seq![b[0]] + rest =~= b);
    }
}

/// Applies bindings to an atom model: every bound variable occurrence is
/// replaced by its mapped model, in one simultaneous pass; unbound variables
/// remain.
pub open spec fn spec_apply(a: AtomView, b: BindingsView) -> AtomView
    decreases a,
{
    match a {
        AtomView::Sym { .. } => a,
        AtomView::Gnd { .. } => a,
        AtomView::Var { name } => match spec_lookup(b, name) {
            Some(v) => v,
            None => a,
        },
        AtomView::Expr { children } => AtomView::Expr {
            children: spec_apply_each(children, b),
        },
    }
}

/// Applies bindings to each model of a sequence.
pub open spec fn spec_apply_each(s: Seq<AtomView>, b: BindingsView) -> Seq<AtomView>
    decreases s,
    via spec_apply_each_decreases
{
    if s.len() == 0 {
        Seq::empty()
    } else {
        spec_apply_each(s.subrange(0, s.len() - 1), b).push(spec_apply(s[s.len() - 1], b))
    }
}

#[via_fn]
proof fn spec_apply_each_decreases(s: Seq<AtomView>, b: BindingsView) {
    if s.len() != 0 {
        vstd::seq::axiom_seq_subrange_decreases(s, 0, s.len() - 1);
        vstd::seq::axiom_seq_index_decreases(s, s.len() - 1);
    }
}

/// `spec_apply_each` applies the bindings position by position.
pub broadcast proof fn lemma_spec_apply_each(s: Seq<AtomView>, b: BindingsView)
    ensures
        (#[trigger] spec_apply_each(s, b)).len() == s.len(),
        forall|i: int|
            0 <= i < s.len() ==> spec_apply_each(s, b)[i] == spec_apply(#[trigger] s[i], b),
    decreases s.len(),
{
    if s.len() != 0 {
        lemma_spec_apply_each(s.subrange(0, s.len() - 1), b);
        assert(forall|i: int|
            0 <= i < s.len() - 1 ==> s.subrange(0, s.len() - 1)[i] == #[trigger] s[i]);
    }
}

impl Bindings {
    /// An empty mapping.
    pub fn new() -> (r: Bindings)
        ensures
            r@ == Seq::<(Seq<char>, AtomView)>::empty(),
    {
        let r = Bindings { entries: Vec::new() };
        proof {
            lemma_entries_view(r.entries@);
            assert(r@ =~= Seq::<(Seq<char>, AtomView)>::empty());
        }
        r
    }

    /// The first atom bound to `name`, if any.
    pub fn get(&self, name: &String) -> (r: Option<&Atom>)
        ensures
            match r {
                Some(v) => spec_lookup(self@, name@) == Some(v@),
                None => spec_lookup(self@, name@) is None,
            },
    {
        proof {
            lemma_entries_view(self.entries@);
        }
        let n = self.entries.len();
        let mut i: usize = 0;
        while i < n
            invariant
                i <= n,
                n == self.entries@.len(),
                forall|j: int| 0 <= j < i ==> (#[trigger] entries_view(self.entries@)[j]).0
                    != name@,
            decreases n - i,
        {
            proof {
                lemma_entries_view(self.entries@);
            }
            if self.entries[i].0.name == *name {
                proof {
                    lemma_lookup_at(self@, name@, i as int);
                }
                return Some(&self.entries[i].1);
            }
            i = i + 1;
        }
        proof {
            lemma_lookup_none(self@, name@);
        }
        None
    }

    /// Binds `name` to `atom`; the name must be unbound.
    pub fn insert(&mut self, var: VariableAtom, atom: Atom)
        ensures
            final(self)@ == old(self)@.push((var.name@, atom@)),
    {
        let ghost olde = self.entries@;
        self.entries.push((var, atom));
        proof {
            lemma_entries_view(self.entries@);
            lemma_entries_view(olde);
            assert(self.entries@.subrange(0, self.entries@.len() - 1) =~= olde);
        }
    }

    /// Takes out the first entry bound to `name` and returns its atom.
    #[verifier::loop_isolation(false)]
    pub fn remove(&mut self, name: &String) -> (r: Option<Atom>)
        ensures
            match r {
                Some(v) => spec_lookup(old(self)@, name@) == Some(v@),
                None => spec_lookup(old(self)@, name@) is None,
            },
            final(self)@ == spec_remove(old(self)@, name@),
    {
        let ghost s0 = self.entries@;
        proof {
            lemma_entries_view(s0);
        }
        let n = self.entries.len();
        let mut i: usize = 0;
        while i < n
            invariant
                i <= n,
                self.entries@ == s0,
                n == s0.len(),
                forall|j: int| 0 <= j < i ==> (#[trigger] entries_view(s0)[j]).0 != name@,
            decreases n - i,
        {
            proof {
                lemma_entries_view(s0);
            }
            if self.entries[i].0.name == *name {
                proof {
                    lemma_lookup_at(entries_view(s0), name@, i as int);
                }
                let e = self.entries.remove(i);
                proof {
                    lemma_entries_view(self.entries@);
                    lemma_entries_view(s0);
                    let ii = i as int;
                    let target = entries_view(s0).subrange(0, ii) + entries_view(s0).subrange(
                        ii + 1,
                        s0.len() as int,
                    );
                    assert forall|j: int| 0 <= j < self.entries@.len() implies entries_view(
                        self.entries@,
                    )[j] == target[j] by {
                        if j < ii {
                            assert(self.entries@[j] == s0[j]);
                        } else {
                            assert(self.entries@[j] == s0[j + 1]);
                        }
                    }
                    assert(self@ =~= target);
                    assert(e == s0[ii]);
                }
                return Some(e.1);
            }
            i = i + 1;
        }
        proof {
            lemma_lookup_none(entries_view(s0), name@);
        }
        None
    }
}

/// Substitutes every bound variable occurrence in `a` by its mapped atom.
pub fn apply_bindings_to_atom(a: &Atom, b: &Bindings) -> (r: Atom)
    ensures
        r@ == spec_apply(a@, b@),
    decreases a,
{
    match a {
        Atom::Symbol { .. } => clone_atom(a),
        Atom::Grounded(..) => clone_atom(a),
        Atom::Variable(v) => match b.get(&v.name) {
            Some(mapped) => clone_atom(mapped),
            None => clone_atom(a),
        },
        Atom::Expression(e) => {
            let ghost c = atoms_view(e.children@);
            proof {
                lemma_atoms_view(e.children@);
            }
            let mut out: Vec<Atom> = Vec::new();
            let mut i: usize = 0;
            while i < e.children.len()
                invariant
                    i <= e.children@.len(),
                    a is Expression,
                    *e == a->Expression_0,
                    c == atoms_view(e.children@),
                    c.len() == e.children@.len(),
                    forall|j: int| 0 <= j < c.len() ==> c[j] == #[trigger] e.children@[j]@,
                    out@.len() == i,
                    forall|j: int| 0 <= j < i ==> #[trigger] out@[j]@ == spec_apply(c[j], b@),
                decreases e.children@.len() - i,
            {
                proof {
                    lemma_child_decreases(*a, i as int);
                }
                let sub = apply_bindings_to_atom(&e.children[i], b);
                out.push(sub);
                i = i + 1;
            }
            let r = Atom::Expression(ExpressionAtom { children: out });
            proof {
                lemma_atoms_view(out@);
                lemma_spec_apply_each(c, b@);
                assert forall|j: int| 0 <= j < out@.len() implies atoms_view(out@)[j]
                    == spec_apply_each(c, b@)[j] by {
                    assert(atoms_view(out@)[j] == out@[j]@);
                    assert(spec_apply_each(c, b@)[j] == spec_apply(c[j], b@));
                }
                assert(atoms_view(out@) =~= spec_apply_each(c, b@));
            }
            r
        },
    }
}

/// Substitutes the right-hand sides of `x`'s entries using `y` and then merges
/// `y`'s entries in, keeping `x`'s order first; `None` on a conflict, that is
/// a name bound by both sides to structurally different atoms after the
/// substitution.
pub open spec fn spec_merge(x: BindingsView, y: BindingsView) -> Option<BindingsView>
    decreases y,
    via spec_merge_decreases
{
    if y.len() == 0 {
        Some(x)
    } else {
        match spec_lookup(x, y[0].0) {
            None => spec_merge(x.push(y[0]), y.subrange(1, y.len() as int)),
            Some(w) => if w == y[0].1 {
                spec_merge(x, y.subrange(1, y.len() as int))
            } else {
                None
            },
        }
    }
}

#[via_fn]
proof fn spec_merge_decreases(x: BindingsView, y: BindingsView) {
    if y.len() != 0 {
        vstd::seq::axiom_seq_subrange_decreases(y, 1, y.len() as int);
    }
}

/// The right-hand sides of `b`'s entries, substituted using `other`.
pub open spec fn spec_apply_values(b: BindingsView, other: BindingsView) -> BindingsView
    decreases b,
    via spec_apply_values_decreases
{
    if b.len() == 0 {
        Seq::empty()
    } else {
        spec_apply_values(b.subrange(0, b.len() - 1), other).push(
            (b[b.len() - 1].0, spec_apply(b[b.len() - 1].1, other)),
        )
    }
}

#[via_fn]
proof fn spec_apply_values_decreases(b: BindingsView, other: BindingsView) {
    if b.len() != 0 {
        vstd::seq::axiom_seq_subrange_decreases(b, 0, b.len() - 1);
    }
}

/// `spec_apply_values` substitutes position by position.
pub broadcast proof fn lemma_spec_apply_values(b: BindingsView, other: BindingsView)
    ensures
        (#[trigger] spec_apply_values(b, other)).len() == b.len(),
        forall|i: int|
            0 <= i < b.len() ==> spec_apply_values(b, other)[i] == ((#[trigger] b[i]).0,
            spec_apply(b[i].1, other)),
    decreases b.len(),
{
    if b.len() != 0 {
        lemma_spec_apply_values(b.subrange(0, b.len() - 1), other);
        assert(forall|i: int|
            0 <= i < b.len() - 1 ==> b.subrange(0, b.len() - 1)[i] == #[trigger] b[i]);
    }
}

/// The composition of two bindings: substitute the right-hand sides of `b1`
/// by `b2` and merge with `b2`; `None` on a conflict.
pub open spec fn spec_compose(b1: BindingsView, b2: BindingsView) -> Option<BindingsView> {
    spec_merge(spec_apply_values(b1, b2), b2)
}

/// Substitutes the right-hand sides of `b1` by `b2` and returns the merged
/// mapping, or an error if merging produces a conflict for some variable.
#[verifier::loop_isolation(false)]
pub fn apply_bindings_to_bindings(b1: &Bindings, b2: &Bindings) -> (r: Result<Bindings, String>)
    ensures
        match r {
            Ok(b) => spec_compose(b1@, b2@) == Some(b@),
            Err(_) => spec_compose(b1@, b2@) is None,
        },
{
    proof {
        lemma_entries_view(b1.entries@);
        lemma_entries_view(b2.entries@);
    }
    let mut acc = Bindings { entries: Vec::new() };
    proof {
        lemma_entries_view(acc.entries@);
        assert(acc@ =~= Seq::<(Seq<char>, AtomView)>::empty());
        assert(b1@.subrange(0, 0) =~= Seq::<(Seq<char>, AtomView)>::empty());
        assert(acc@ == spec_apply_values(b1@.subrange(0, 0), b2@));
    }
    let mut i: usize = 0;
    let n1 = b1.entries.len();
    while i < n1
        invariant
            i <= n1,
            n1 == b1.entries@.len(),
            b1@ == entries_view(b1.entries@),
            b2@ == entries_view(b2.entries@),
            b1@.len() == n1,
            forall|j: int| 0 <= j < b1@.len() ==> #[trigger] b1@[j] == (
                b1.entries@[j].0.name@,
                b1.entries@[j].1@,
            ),
            acc@ == spec_apply_values(b1@.subrange(0, i as int), b2@),
        decreases n1 - i,
    {
        let ghost oldacc = acc@;
        let ghost oldentries = acc.entries@;
        let v = apply_bindings_to_atom(&b1.entries[i].1, b2);
        let name = b1.entries[i].0.clone();
        let ghost nm = name.name@;
        acc.entries.push((name, v));
        proof {
            lemma_entries_view(acc.entries@);
            assert(acc.entries@.subrange(0, acc.entries@.len() - 1) =~= oldentries);
            assert(acc@ == entries_view(oldentries).push(
                (nm, spec_apply(b1@[i as int].1, b2@)),
            ));
            let pre = b1@.subrange(0, i as int);
            let cur = b1@.subrange(0, i as int + 1);
            assert(cur.subrange(0, cur.len() - 1) =~= pre);
            assert(cur[cur.len() - 1] == b1@[i as int]);
            assert(acc@ == spec_apply_values(cur, b2@));
        }
        i = i + 1;
    }
    proof {
        assert(b1@.subrange(0, n1 as int) =~= b1@);
        assert(acc@ == spec_apply_values(b1@, b2@));
    }
    // Merge the entries of `b2` into the substituted entries.
    let ghost x0 = acc@;
    let n2 = b2.entries.len();
    proof {
        assert(b2@.subrange(0, n2 as int) =~= b2@);
    }
    let mut k: usize = 0;
    while k < n2
        invariant
            k <= n2,
            n2 == b2.entries@.len(),
            b2@ == entries_view(b2.entries@),
            b2@.len() == n2,
            forall|j: int| 0 <= j < b2@.len() ==> #[trigger] b2@[j] == (
                b2.entries@[j].0.name@,
                b2.entries@[j].1@,
            ),
            spec_merge(x0, b2@) == spec_merge(acc@, b2@.subrange(k as int, n2 as int)),
        decreases n2 - k,
    {
        let ghost rest = b2@.subrange(k as int, n2 as int);
        proof {
            assert(rest[0] == b2@[k as int]);
            assert(rest.subrange(1, rest.len() as int) =~= b2@.subrange(
                k as int + 1,
                n2 as int,
            ));
        }
        let name = &b2.entries[k].0.name;
        match acc.get(name) {
            None => {
                let ghost oldacc = acc@;
                let var = b2.entries[k].0.clone();
                let v = clone_atom(&b2.entries[k].1);
                acc.insert(var, v);
                proof {
                    assert(acc@ == oldacc.push(b2@[k as int]));
                }
            },
            Some(w) => {
                let we = atom_eq(w, &b2.entries[k].1);
                if !we {
                    return Err("bindings conflict".to_string());
                }
            },
        }
        k = k + 1;
    }
    proof {
        assert(b2@.subrange(n2 as int, n2 as int) =~= Seq::<(Seq<char>, AtomView)>::empty());
    }
    Ok(acc)
}

/// Substitutes the right-hand sides of `b`'s entries using `other`.
#[verifier::loop_isolation(false)]
pub fn apply_values(b: &Bindings, other: &Bindings) -> (r: Bindings)
    ensures
        r@ == spec_apply_values(b@, other@),
{
    proof {
        lemma_entries_view(b.entries@);
    }
    let mut acc = Bindings { entries: Vec::new() };
    proof {
        lemma_entries_view(acc.entries@);
        assert(acc@ =~= Seq::<(Seq<char>, AtomView)>::empty());
        assert(b@.subrange(0, 0) =~= Seq::<(Seq<char>, AtomView)>::empty());
        assert(acc@ == spec_apply_values(b@.subrange(0, 0), other@));
    }
    let mut i: usize = 0;
    let n = b.entries.len();
    while i < n
        invariant
            i <= n,
            n == b.entries@.len(),
            b@.len() == n,
            forall|j: int| 0 <= j < b@.len() ==> #[trigger] b@[j] == (
                b.entries@[j].0.name@,
                b.entries@[j].1@,
            ),
            acc@ == spec_apply_values(b@.subrange(0, i as int), other@),
        decreases n - i,
    {
        let ghost oldentries = acc.entries@;
        let v = apply_bindings_to_atom(&b.entries[i].1, other);
        let name = b.entries[i].0.clone();
        let ghost nm = name.name@;
        acc.entries.push((name, v));
        proof {
            lemma_entries_view(acc.entries@);
            assert(acc.entries@.subrange(0, acc.entries@.len() - 1) =~= oldentries);
            assert(acc@ == entries_view(oldentries).push(
                (nm, spec_apply(b@[i as int].1, other@)),
            ));
            let pre = b@.subrange(0, i as int);
            let cur = b@.subrange(0, i as int + 1);
            assert(cur.subrange(0, cur.len() - 1) =~= pre);
            assert(cur[cur.len() - 1] == b@[i as int]);
            assert(acc@ == spec_apply_values(cur, other@));
        }
        i = i + 1;
    }
    proof {
        assert(b@.subrange(0, n as int) =~= b@);
    }
    acc
}

impl Clone for Bindings {
    /// Clones the mapping; the clone has the same model.
    fn clone(&self) -> (r: Bindings)
        ensures
            r@ == self@,
    {
        let mut v: Vec<(VariableAtom, Atom)> = Vec::new();
        let mut i: usize = 0;
        while i < self.entries.len()
            invariant
                i <= self.entries@.len(),
                v@.len() == i,
                forall|j: int| 0 <= j < i ==> (#[trigger] v@[j]).0.name@
                    == self.entries@[j].0.name@ && v@[j].1@ == self.entries@[j].1@,
            decreases self.entries@.len() - i,
        {
            let var = self.entries[i].0.clone();
            let atom = clone_atom(&self.entries[i].1);
            v.push((var, atom));
            i = i + 1;
        }
        let r = Bindings { entries: v };
        proof {
            lemma_entries_view(v@);
            lemma_entries_view(self.entries@);
            assert forall|j: int| 0 <= j < v@.len() implies entries_view(v@)[j] == entries_view(
                self.entries@,
            )[j] by {
                assert(entries_view(v@)[j] == (v@[j].0.name@, v@[j].1@));
                assert(entries_view(self.entries@)[j] == (
                    self.entries@[j].0.name@,
                    self.entries@[j].1@,
                ));
            }
            assert(r@ =~= self@);
        }
        r
    }
}

/// Law of variable scoping: an atom that does not mention any bound
/// variable is unchanged when the bindings are applied, so a binding learned
/// while reducing one sub-expression cannot leak into a sibling
/// sub-expression that does not mention a variable of the same name.
pub proof fn lemma_apply_no_mention(a: AtomView, b: BindingsView)
    requires
        forall|j: int| 0 <= j < b.len() ==> !mentions_var(a, (#[trigger] b[j]).0),
    ensures
        spec_apply(a, b) == a,
    decreases a,
{
    match a {
        AtomView::Sym { .. } => {},
        AtomView::Gnd { .. } => {},
        AtomView::Var { name } => {
            assert(forall|j: int| 0 <= j < b.len() ==> (#[trigger] b[j]).0 != name);
            lemma_lookup_none(b, name);
        },
        AtomView::Expr { children } => {
            assert forall|i: int| 0 <= i < children.len() implies spec_apply(
                #[trigger] children[i],
                b,
            ) == children[i] by {
                assert forall|j: int| 0 <= j < b.len() implies !mentions_var(
                    children[i],
                    (#[trigger] b[j]).0,
                ) by {
                    assert(!mentions_var(a, b[j].0));
                    lemma_mentions_var_any(children, b[j].0);
                }
                vstd::seq::axiom_seq_index_decreases(children, i);
                assert(decreases_to!(a => children));
                lemma_apply_no_mention(children[i], b);
            }
            lemma_spec_apply_each(children, b);
            assert(spec_apply_each(children, b) =~= children);
        },
    }
}

/// A successful lookup comes from an entry of the bindings.
pub proof fn lemma_lookup_is_entry(b: BindingsView, name: Seq<char>)
    requires
        spec_lookup(b, name) is Some,
    ensures
        exists|i: int|
            0 <= i < b.len() && #[trigger] b[i] == (name, spec_lookup(b, name)->Some_0),
    decreases b,
{
    if b.len() != 0 && b[0].0 != name {
        let rest = b.subrange(1, b.len() as int);
        vstd::seq::axiom_seq_subrange_decreases(b, 1, b.len() as int);
        lemma_lookup_is_entry(rest, name);
        let i = choose|i: int|
            0 <= i < rest.len() && #[trigger] rest[i] == (name, spec_lookup(rest, name)->Some_0);
        assert(b[i + 1] == rest[i]);
    }
}

/// Bindings whose mapped atoms mention no bound variable.
pub open spec fn spec_flat(b: BindingsView) -> bool {
    forall|i: int, j: int|
        0 <= i < b.len() && 0 <= j < b.len() ==> !mentions_var(
            (#[trigger] b[i]).1,
            (#[trigger] b[j]).0,
        )
}

/// Law of bindings consistency: applying flat bindings is idempotent, so a
/// pair whose atom already had the bindings applied satisfies
/// `spec_apply(a, b) == a` again.
pub proof fn lemma_apply_idempotent(a: AtomView, b: BindingsView)
    requires
        spec_flat(b),
    ensures
        spec_apply(spec_apply(a, b), b) == spec_apply(a, b),
    decreases a,
{
    match a {
        AtomView::Sym { .. } => {},
        AtomView::Gnd { .. } => {},
        AtomView::Var { name } => {
            match spec_lookup(b, name) {
                Some(v) => {
                    lemma_lookup_is_entry(b, name);
                    let i = choose|i: int| 0 <= i < b.len() && #[trigger] b[i] == (name, v);
                    assert forall|j: int| 0 <= j < b.len() implies !mentions_var(
                        v,
                        (#[trigger] b[j]).0,
                    ) by {
                        assert(!mentions_var(b[i].1, b[j].0));
                    }
                    lemma_apply_no_mention(v, b);
                },
                None => {},
            }
        },
        AtomView::Expr { children } => {
            assert forall|i: int| 0 <= i < children.len() implies spec_apply(
                spec_apply(#[trigger] children[i], b),
                b,
            ) == spec_apply(children[i], b) by {
                vstd::seq::axiom_seq_index_decreases(children, i);
                assert(decreases_to!(a => children));
                lemma_apply_idempotent(children[i], b);
            }
            lemma_spec_apply_each(children, b);
            lemma_spec_apply_each(spec_apply_each(children, b), b);
            let x = spec_apply_each(children, b);
            let y = spec_apply_each(x, b);
            assert forall|i: int| 0 <= i < x.len() implies y[i] == x[i] by {
                assert(x[i] == spec_apply(children[i], b));
                assert(y[i] == spec_apply(x[i], b));
            }
            assert(y =~= x);
        },
    }
}

} // verus!
