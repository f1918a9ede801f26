//! The universal data element of the language: symbols, variables,
//! expressions and grounded host values, together with their mathematical
//! model (`AtomView`).

use vstd::prelude::*;

verus! {

/// An opaque host value optionally carrying executable behaviour.
///
/// The engine only relies on grounded values being comparable for equality,
/// clonable, and optionally executable on an argument tuple.  This closed set
/// of host values provides an integer scalar, an addition operation, an
/// operation that succeeds with no results, and a non-executable value whose
/// textual form is `match` (the head that makes argument reduction keep the
/// last argument untouched).
#[derive(Clone, Copy, PartialEq, Eq, Structural, Debug)]
pub enum GroundedAtom {
    /// An integer scalar; not executable.
    Int(i64),
    /// Adds two integer scalars: `execute([Int(a), Int(b)]) = [Int(a + b)]`.
    PlusOp,
    /// Executes successfully with an empty result collection.
    NopOp,
    /// Not executable; its textual form is `match`.
    MatchOp,
}

/// A variable; two variables are equal exactly when their names are equal.
#[derive(Debug)]
pub struct VariableAtom {
    pub name: String,
}

/// An ordered sequence of child atoms.
#[derive(Debug)]
pub struct ExpressionAtom {
    pub children: Vec<Atom>,
}

/// The universal data element: one of symbol, expression, variable, grounded.
#[derive(Debug)]
pub enum Atom {
    Symbol { symbol: String },
    Expression(ExpressionAtom),
    Variable(VariableAtom),
    Grounded(GroundedAtom),
}

/// The mathematical model of an atom: names become character sequences and
/// child vectors become sequences of models.
#[verifier::ext_equal]
pub enum AtomView {
    Sym { name: Seq<char> },
    Expr { children: Seq<AtomView> },
    Var { name: Seq<char> },
    Gnd { value: GroundedAtom },
}

/// The model of an atom, defined by structural recursion.
pub open spec fn atom_view(a: Atom) -> AtomView
    decreases a,
    via atom_view_decreases
{
    match a {
        Atom::Symbol { symbol } => AtomView::Sym { name: symbol@ },
        Atom::Expression(_) => AtomView::Expr {
            children: atoms_view(a->Expression_0.children@),
        },
        Atom::Variable(v) => AtomView::Var { name: v.name@ },
        Atom::Grounded(g) => AtomView::Gnd { value: g },
    }
}

/// The models of a sequence of atoms, element by element.
pub open spec fn atoms_view(s: Seq<Atom>) -> Seq<AtomView>
    decreases s,
    via atoms_view_decreases
{
    if s.len() == 0 {
        Seq::empty()
    } else {
        atoms_view(s.subrange(0, s.len() - 1)).push(atom_view(s[s.len() - 1]))
    }
}

#[via_fn]
proof fn atom_view_decreases(a: Atom) {
    if a is Expression {
        assert(decreases_to!(a => a->Expression_0.children));
        assert(decreases_to!(a->Expression_0.children => a->Expression_0.children@));
    }
}

#[via_fn]
proof fn atoms_view_decreases(s: Seq<Atom>) {
    if s.len() != 0 {
        vstd::seq::axiom_seq_subrange_decreases(s, 0, s.len() - 1);
        vstd::seq::axiom_seq_index_decreases(s, s.len() - 1);
    }
}

/// `atoms_view` takes each element to its model, position by position.
pub broadcast proof fn lemma_atoms_view(s: Seq<Atom>)
    ensures
        (#[trigger] atoms_view(s)).len() == s.len(),
        forall|i: int| 0 <= i < s.len() ==> atoms_view(s)[i] == atom_view(#[trigger] s[i]),
    decreases s.len(),
{
    if s.len() != 0 {
        lemma_atoms_view(s.subrange(0, s.len() - 1));
        assert(forall|i: int|
            0 <= i < s.len() - 1 ==> s.subrange(0, s.len() - 1)[i] == #[trigger] s[i]);
    }
}

impl View for Atom {
    type V = AtomView;

    open spec fn view(&self) -> AtomView {
        atom_view(*self)
    }
}

/// A height fact used for termination: each child of an expression atom is
/// smaller than the atom itself.
pub proof fn lemma_child_decreases(a: Atom, i: int)
    requires
        a is Expression,
        0 <= i < a->Expression_0.children@.len(),
    ensures
        decreases_to!(a => a->Expression_0.children@[i]),
{
    assert(decreases_to!(a => a->Expression_0.children));
    vstd::std_specs::vec::axiom_vec_index_decreases(a->Expression_0.children, i);
}

impl AtomView {
    /// An expression all of whose children are non-expression atoms.
    pub open spec fn is_plain_expr(self) -> bool {
        match self {
            AtomView::Expr { children } => forall|i: int|
                0 <= i < children.len() ==> !(#[trigger] children[i] is Expr),
            _ => false,
        }
    }
}

/// Whether the model `a` contains a variable occurrence with the given name.
pub open spec fn mentions_var(a: AtomView, name: Seq<char>) -> bool
    decreases a,
{
    match a {
        AtomView::Sym { .. } => false,
        AtomView::Var { name: n } => n == name,
        AtomView::Gnd { .. } => false,
        AtomView::Expr { children } => mentions_var_any(children, name),
    }
}

/// Whether some element of `s` contains a variable occurrence of `name`.
pub open spec fn mentions_var_any(s: Seq<AtomView>, name: Seq<char>) -> bool
    decreases s,
    via mentions_var_any_decreases
{
    if s.len() == 0 {
        false
    } else {
        mentions_var_any(s.subrange(0, s.len() - 1), name) || mentions_var(s[s.len() - 1], name)
    }
}

#[via_fn]
proof fn mentions_var_any_decreases(s: Seq<AtomView>, name: Seq<char>) {
    if s.len() != 0 {
        vstd::seq::axiom_seq_subrange_decreases(s, 0, s.len() - 1);
        vstd::seq::axiom_seq_index_decreases(s, s.len() - 1);
    }
}

/// A sequence mentions a name exactly when one of its elements does.
pub proof fn lemma_mentions_var_any(s: Seq<AtomView>, name: Seq<char>)
    ensures
        mentions_var_any(s, name) == (exists|i: int|
            0 <= i < s.len() && mentions_var(#[trigger] s[i], name)),
    decreases s.len(),
{
    if s.len() != 0 {
        let pre = s.subrange(0, s.len() - 1);
        lemma_mentions_var_any(pre, name);
        if mentions_var_any(s, name) {
            if mentions_var_any(pre, name) {
                let i = choose|i: int| 0 <= i < pre.len() && mentions_var(#[trigger] pre[i], name);
                assert(s[i] == pre[i]);
            } else {
                assert(mentions_var(s[s.len() - 1], name));
            }
        } else {
            assert forall|i: int| 0 <= i < s.len() implies !mentions_var(#[trigger] s[i], name) by {
                if i < s.len() - 1 {
                    assert(pre[i] == s[i]);
                }
            }
        }
    }
}

impl Atom {
    /// Builds a symbol atom from its identifier.
    pub fn sym(name: &str) -> (r: Self)
        ensures
            r@ == (AtomView::Sym { name: name@ }),
    {
        Atom::Symbol { symbol: name.to_string() }
    }

    /// Builds an expression atom from a slice of children, cloning each.
    pub fn expr(children: &[Atom]) -> (r: Self)
        ensures
            r@ == (AtomView::Expr { children: atoms_view(children@) }),
    {
        let mut v: Vec<Atom> = Vec::new();
        let mut i: usize = 0;
        while i < children.len()
            invariant
                i <= children@.len(),
                v@.len() == i,
                forall|j: int| 0 <= j < i ==> #[trigger] v@[j]@ == children@[j]@,
            decreases children@.len() - i,
        {
            v.push(children[i].clone());
            i = i + 1;
        }
        let e = Atom::Expression(ExpressionAtom { children: v });
        proof {
            lemma_atoms_view(v@);
            lemma_atoms_view(children@);
            assert forall|j: int| 0 <= j < v@.len() implies atoms_view(v@)[j] == atoms_view(
                children@,
            )[j] by {
                assert(atoms_view(v@)[j] == v@[j]@);
                assert(atoms_view(children@)[j] == children@[j]@);
            }
            assert(atoms_view(v@) =~= atoms_view(children@));
        }
        e
    }

    /// Builds a variable atom from its name.
    pub fn var(name: &str) -> (r: Self)
        ensures
            r@ == (AtomView::Var { name: name@ }),
    {
        Atom::Variable(VariableAtom { name: name.to_string() })
    }

    /// Builds a grounded atom from a host value.
    pub fn gnd(gnd: GroundedAtom) -> (r: Self)
        ensures
            r@ == (AtomView::Gnd { value: gnd }),
    {
        Atom::Grounded(gnd)
    }
}

/// Structural equality of two atoms, decided exactly by model equality.
pub fn atom_eq(a: &Atom, b: &Atom) -> (r: bool)
    ensures
        r == (a@ == b@),
    decreases a,
{
    match (a, b) {
        (Atom::Symbol { symbol: s1 }, Atom::Symbol { symbol: s2 }) => *s1 == *s2,
        (Atom::Variable(v1), Atom::Variable(v2)) => v1.name == v2.name,
        (Atom::Grounded(g1), Atom::Grounded(g2)) => *g1 == *g2,
        (Atom::Expression(e1), Atom::Expression(e2)) => {
            proof {
                lemma_atoms_view(e1.children@);
                lemma_atoms_view(e2.children@);
            }
            if e1.children.len() != e2.children.len() {
                false
            } else {
                let ghost av = a@;
                let ghost bv = b@;
                let n = e1.children.len();
                let mut i: usize = 0;
                let mut all_eq: bool = true;
                while i < n
                    invariant
                        i <= n,
                        a is Expression,
                        *e1 == a->Expression_0,
                        *e2 == b->Expression_0,
                        n == e1.children@.len(),
                        n == e2.children@.len(),
                        all_eq == (forall|j: int|
                            0 <= j < i ==> #[trigger] e1.children@[j]@ == e2.children@[j]@),
                    decreases n - i,
                {
                    proof {
                        lemma_child_decreases(*a, i as int);
                    }
                    let ce = atom_eq(&e1.children[i], &e2.children[i]);
                    all_eq = all_eq && ce;
                    i = i + 1;
                }
                proof {
                    lemma_atoms_view(e1.children@);
                    lemma_atoms_view(e2.children@);
                    let c1 = atoms_view(e1.children@);
                    let c2 = atoms_view(e2.children@);
                    if all_eq {
                        assert forall|j: int| 0 <= j < c1.len() implies c1[j] == c2[j] by {
                            assert(c1[j] == e1.children@[j]@);
                            assert(c2[j] == e2.children@[j]@);
                        }
                        assert(c1 =~= c2);
                    } else {
                        let j = choose|j: int|
                            0 <= j < n && !(#[trigger] e1.children@[j]@ == e2.children@[j]@);
                        assert(c1[j] == e1.children@[j]@);
                        assert(c2[j] == e2.children@[j]@);
                        assert(c1[j] != c2[j]);
                    }
                }
                all_eq
            }
        },
        _ => false,
    }
}

impl PartialEq for Atom {
    fn eq(&self, other: &Atom) -> (r: bool) {
        atom_eq(self, other)
    }
}

impl vstd::std_specs::cmp::PartialEqSpecImpl for Atom {
    open spec fn obeys_eq_spec() -> bool {
        true
    }

    open spec fn eq_spec(&self, other: &Atom) -> bool {
        self@ == other@
    }
}

/// Clones an atom; the clone has the same model.
pub fn clone_atom(a: &Atom) -> (r: Atom)
    ensures
        r@ == a@,
    decreases a,
{
    match a {
        Atom::Symbol { symbol } => Atom::Symbol { symbol: symbol.clone() },
        Atom::Variable(v) => Atom::Variable(VariableAtom { name: v.name.clone() }),
        Atom::Grounded(g) => Atom::Grounded(*g),
        Atom::Expression(e) => {
            let mut v: Vec<Atom> = Vec::new();
            let mut i: usize = 0;
            while i < e.children.len()
                invariant
                    i <= e.children@.len(),
                    a is Expression,
                    *e == a->Expression_0,
                    v@.len() == i,
                    forall|j: int| 0 <= j < i ==> #[trigger] v@[j]@ == e.children@[j]@,
                decreases e.children@.len() - i,
            {
                proof {
                    lemma_child_decreases(*a, i as int);
                }
                v.push(clone_atom(&e.children[i]));
                i = i + 1;
            }
            let r = Atom::Expression(ExpressionAtom { children: v });
            proof {
                lemma_atoms_view(v@);
                lemma_atoms_view(e.children@);
                assert forall|j: int| 0 <= j < v@.len() implies atoms_view(v@)[j] == atoms_view(
                    e.children@,
                )[j] by {
                    assert(atoms_view(v@)[j] == v@[j]@);
                    assert(atoms_view(e.children@)[j] == e.children@[j]@);
                }
                assert(atoms_view(v@) =~= atoms_view(e.children@));
            }
            r
        },
    }
}

impl Clone for Atom {
    fn clone(&self) -> (r: Atom)
        ensures
            r@ == self@,
    {
        clone_atom(self)
    }
}

impl Clone for VariableAtom {
    fn clone(&self) -> (r: VariableAtom)
        ensures
            r.name@ == self.name@,
    {
        VariableAtom { name: self.name.clone() }
    }
}

/// Whether the atom contains a variable occurrence with the given name.
pub fn atom_mentions(a: &Atom, name: &String) -> (r: bool)
    ensures
        r == mentions_var(a@, name@),
    decreases a,
{
    match a {
        Atom::Symbol { .. } => false,
        Atom::Grounded(..) => false,
        Atom::Variable(v) => v.name == *name,
        Atom::Expression(e) => {
            proof {
                lemma_atoms_view(e.children@);
            }
            let ghost c = atoms_view(e.children@);
            let mut i: usize = 0;
            let mut found: bool = false;
            while i < e.children.len()
                invariant
                    i <= e.children@.len(),
                    a is Expression,
                    *e == a->Expression_0,
                    c == atoms_view(e.children@),
                    c.len() == e.children@.len(),
                    forall|j: int| 0 <= j < c.len() ==> c[j] == #[trigger] e.children@[j]@,
                    found == mentions_var_any(c.subrange(0, i as int), name@),
                decreases e.children@.len() - i,
            {
                proof {
                    lemma_child_decreases(*a, i as int);
                }
                let m = atom_mentions(&e.children[i], name);
                proof {
                    let pre = c.subrange(0, i as int);
                    let cur = c.subrange(0, i as int + 1);
                    assert(cur.subrange(0, cur.len() - 1) =~= pre);
                    assert(cur[cur.len() - 1] == c[i as int]);
                    assert(mentions_var_any(cur, name@) == (mentions_var_any(pre, name@)
                        || mentions_var(c[i as int], name@)));
                }
                found = found || m;
                i = i + 1;
            }
            proof {
                assert(c.subrange(0, c.len() as int) =~= c);
                assert(a@ == (AtomView::Expr { children: c }));
            }
            found
        },
    }
}

impl ExpressionAtom {
    /// Whether no child is itself an expression.
    pub fn is_plain(&self) -> (r: bool)
        ensures
            r == (AtomView::Expr { children: atoms_view(self.children@) }).is_plain_expr(),
    {
        proof {
            lemma_atoms_view(self.children@);
        }
        let ghost c = atoms_view(self.children@);
        let mut i: usize = 0;
        let mut plain: bool = true;
        while i < self.children.len()
            invariant
                i <= self.children@.len(),
                c == atoms_view(self.children@),
                c.len() == self.children@.len(),
                forall|j: int| 0 <= j < c.len() ==> c[j] == #[trigger] self.children@[j]@,
                plain == (forall|j: int| 0 <= j < i ==> !(#[trigger] c[j] is Expr)),
            decreases self.children@.len() - i,
        {
            let is_e = matches!(&self.children[i], Atom::Expression(..));
            proof {
                assert(is_e == (self.children@[i as int]@ is Expr));
            }
            plain = plain && !is_e;
            i = i + 1;
        }
        plain
    }
}

/// The intended outcome of executing a grounded operation on an argument
/// tuple.
pub open spec fn spec_execute_grounded(g: GroundedAtom, args: Seq<AtomView>) -> Result<
    Seq<AtomView>,
    Seq<char>,
> {
    match g {
        GroundedAtom::NopOp => Ok(Seq::empty()),
        GroundedAtom::PlusOp => {
            if args.len() == 2 && (args[0] matches AtomView::Gnd {
                value: GroundedAtom::Int(_),
            }) && (args[1] matches AtomView::Gnd { value: GroundedAtom::Int(_) }) {
                let x = args[0]->Gnd_value->Int_0;
                let y = args[1]->Gnd_value->Int_0;
                if i64::MIN <= x + y <= i64::MAX {
                    Ok(seq![AtomView::Gnd { value: GroundedAtom::Int((x + y) as i64) }])
                } else {
                    Err("integer addition overflows"@)
                }
            } else {
                Err("addition expects two integer arguments"@)
            }
        },
        _ => Err("grounded value is not executable"@),
    }
}

impl GroundedAtom {
    /// Runs the grounded behaviour on the given arguments.
    pub fn execute(&self, args: &Vec<Atom>) -> (r: Result<Vec<Atom>, String>)
        ensures
            match r {
                Ok(v) => spec_execute_grounded(*self, atoms_view(args@)) == Ok::<_, Seq<char>>(
                    atoms_view(v@),
                ),
                Err(m) => spec_execute_grounded(*self, atoms_view(args@)) == Err::<
                    Seq<AtomView>,
                    _,
                >(m@),
            },
    {
        proof {
            lemma_atoms_view(args@);
        }
        match self {
            GroundedAtom::NopOp => {
                let r: Vec<Atom> = Vec::new();
                proof {
                    lemma_atoms_view(r@);
                    assert(atoms_view(r@) =~= Seq::<AtomView>::empty());
                }
                Ok(r)
            },
            GroundedAtom::PlusOp => {
                if args.len() == 2 {
                    match (&args[0], &args[1]) {
                        (
                            Atom::Grounded(GroundedAtom::Int(x)),
                            Atom::Grounded(GroundedAtom::Int(y)),
                        ) => {
                            match x.checked_add(*y) {
                                Some(s) => {
                                    let mut r: Vec<Atom> = Vec::new();
                                    r.push(Atom::Grounded(GroundedAtom::Int(s)));
                                    proof {
                                        lemma_atoms_view(r@);
                                        assert(atoms_view(args@)[0] == args@[0]@);
                                        assert(atoms_view(args@)[1] == args@[1]@);
                                        assert(atoms_view(r@) =~= seq![
                                            AtomView::Gnd {
                                                value: GroundedAtom::Int((*x + *y) as i64),
                                            },
                                        ]);
                                    }
                                    Ok(r)
                                },
                                None => Err("integer addition overflows".to_string()),
                            }
                        },
                        _ => Err("addition expects two integer arguments".to_string()),
                    }
                } else {
                    Err("addition expects two integer arguments".to_string())
                }
            },
            _ => Err("grounded value is not executable".to_string()),
        }
    }
}

/// The variable names occurring in `a`, concatenated in walk order.  Its
/// length bounds the length of every mentioned name, which makes a strictly
/// longer name fresh.
pub open spec fn spec_var_names(a: AtomView) -> Seq<char>
    decreases a,
{
    match a {
        AtomView::Sym { .. } => Seq::empty(),
        AtomView::Gnd { .. } => Seq::empty(),
        AtomView::Var { name } => name,
        AtomView::Expr { children } => spec_var_names_all(children),
    }
}

/// The variable names occurring in a sequence of models, concatenated.
pub open spec fn spec_var_names_all(c: Seq<AtomView>) -> Seq<char>
    decreases c,
    via spec_var_names_all_decreases
{
    if c.len() == 0 {
        Seq::empty()
    } else {
        spec_var_names(c[0]) + spec_var_names_all(c.subrange(1, c.len() as int))
    }
}

#[via_fn]
proof fn spec_var_names_all_decreases(c: Seq<AtomView>) {
    if c.len() != 0 {
        vstd::seq::axiom_seq_index_decreases(c, 0);
        vstd::seq::axiom_seq_subrange_decreases(c, 1, c.len() as int);
    }
}

/// Each element contributes at most the whole concatenation.
pub proof fn lemma_var_names_all_le(c: Seq<AtomView>, i: int)
    requires
        0 <= i < c.len(),
    ensures
        spec_var_names(c[i]).len() <= spec_var_names_all(c).len(),
    decreases c.len(),
{
    let rest = c.subrange(1, c.len() as int);
    if i == 0 {
    } else {
        assert(rest[i - 1] == c[i]);
        lemma_var_names_all_le(rest, i - 1);
    }
}

/// A mentioned variable name is never longer than the concatenation of all
/// occurring names.
pub proof fn lemma_mentions_le(a: AtomView, n: Seq<char>)
    requires
        mentions_var(a, n),
    ensures
        n.len() <= spec_var_names(a).len(),
    decreases a,
{
    match a {
        AtomView::Expr { children } => {
            lemma_mentions_var_any(children, n);
            let i = choose|i: int|
                0 <= i < children.len() && mentions_var(#[trigger] children[i], n);
            vstd::seq::axiom_seq_index_decreases(children, i);
            assert(decreases_to!(a => children));
            lemma_mentions_le(children[i], n);
            lemma_var_names_all_le(children, i);
        },
        _ => {},
    }
}

/// Collects the variable names occurring in the atom, concatenated.
pub fn collect_var_names(a: &Atom) -> (r: String)
    ensures
        r@ == spec_var_names(a@),
    decreases a,
{
    match a {
        Atom::Symbol { .. } => String::new(),
        Atom::Grounded(..) => String::new(),
        Atom::Variable(v) => v.name.clone(),
        Atom::Expression(e) => {
            proof {
                lemma_atoms_view(e.children@);
            }
            let ghost c = atoms_view(e.children@);
            let mut acc = String::new();
            proof {
                assert(c.subrange(0, c.len() as int) =~= c);
            }
            let n = e.children.len();
            let mut i: usize = 0;
            while i < n
                invariant
                    i <= n,
                    a is Expression,
                    *e == a->Expression_0,
                    n == e.children@.len(),
                    c == atoms_view(e.children@),
                    c.len() == n,
                    forall|j: int| 0 <= j < n ==> c[j] == #[trigger] e.children@[j]@,
                    acc@ + spec_var_names_all(c.subrange(i as int, n as int))
                        == spec_var_names_all(c),
                decreases n - i,
            {
                let ghost rest = c.subrange(i as int, n as int);
                proof {
                    assert(rest[0] == c[i as int]);
                    assert(rest.subrange(1, rest.len() as int) =~= c.subrange(
                        i as int + 1,
                        n as int,
                    ));
                    lemma_child_decreases(*a, i as int);
                }
                let sub = collect_var_names(&e.children[i]);
                acc.append(sub.as_str());
                proof {
                    assert(acc@ + spec_var_names_all(c.subrange(i as int + 1, n as int))
                        =~= spec_var_names_all(c));
                }
                i = i + 1;
            }
            proof {
                assert(c.subrange(n as int, n as int) =~= Seq::<AtomView>::empty());
                assert(acc@ + Seq::<char>::empty() =~= acc@);
            }
            acc
        },
    }
}

} // verus!
