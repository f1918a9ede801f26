//! A cursor over the sub-expressions of an expression atom.  The positions to
//! visit are fixed when the cursor is built; the focused position can be
//! replaced without disturbing the positions still to visit.

use vstd::prelude::*;
use crate::atom::{
    Atom, AtomView, ExpressionAtom, atoms_view, clone_atom, lemma_atoms_view,
    lemma_child_decreases,
};

verus! {

/// The atom at `path` in `a`, if the path leads to a position.
pub open spec fn spec_at(a: AtomView, path: Seq<usize>) -> Option<AtomView>
    decreases path.len(),
{
    if path.len() == 0 {
        Some(a)
    } else {
        match a {
            AtomView::Expr { children } => if (path[0] as int) < children.len() {
                spec_at(children[path[0] as int], path.subrange(1, path.len() as int))
            } else {
                None
            },
            _ => None,
        }
    }
}

/// `a` with the atom at `path` replaced by `v`; `a` itself where the path
/// leads nowhere.
pub open spec fn spec_replace(a: AtomView, path: Seq<usize>, v: AtomView) -> AtomView
    decreases path.len(),
{
    if path.len() == 0 {
        v
    } else {
        match a {
            AtomView::Expr { children } => if (path[0] as int) < children.len() {
                AtomView::Expr {
                    children: children.update(
                        path[0] as int,
                        spec_replace(
                            children[path[0] as int],
                            path.subrange(1, path.len() as int),
                            v,
                        ),
                    ),
                }
            } else {
                a
            },
            _ => a,
        }
    }
}

/// The paths of the proper sub-expressions of `a`, deepest first within each
/// child and children left to right (a post-order walk).
pub open spec fn spec_sub_paths(a: AtomView) -> Seq<Seq<usize>> {
    match a {
        AtomView::Expr { children } => spec_sub_paths_upto(children, children.len() as int),
        _ => Seq::empty(),
    }
}

/// The post-order paths contributed by the first `upto` children.
pub open spec fn spec_sub_paths_upto(children: Seq<AtomView>, upto: int) -> Seq<Seq<usize>>
    decreases children, upto,
{
    if upto <= 0 || upto > children.len() {
        Seq::empty()
    } else {
        let i = upto - 1;
        spec_sub_paths_upto(children, i) + spec_prefixed(spec_sub_paths_inner(children[i]), i)
            + (if children[i] is Expr {
            seq![seq![i as usize]]
        } else {
            Seq::empty()
        })
    }
}

/// The post-order paths inside one child (a separate entry point so that the
/// mutual recursion decreases on the child).
pub open spec fn spec_sub_paths_inner(a: AtomView) -> Seq<Seq<usize>>
    decreases a, 0int,
{
    match a {
        AtomView::Expr { children } => spec_sub_paths_upto(children, children.len() as int),
        _ => Seq::empty(),
    }
}

/// Every path in `ps` with `i` put in front.
pub open spec fn spec_prefixed(ps: Seq<Seq<usize>>, i: int) -> Seq<Seq<usize>>
    decreases ps,
    via spec_prefixed_decreases
{
    if ps.len() == 0 {
        Seq::empty()
    } else {
        spec_prefixed(ps.subrange(0, ps.len() - 1), i).push(
            seq![i as usize] + ps[ps.len() - 1],
        )
    }
}

#[via_fn]
proof fn spec_prefixed_decreases(ps: Seq<Seq<usize>>, i: int) {
    if ps.len() != 0 {
        vstd::seq::axiom_seq_subrange_decreases(ps, 0, ps.len() - 1);
    }
}

/// `spec_prefixed` prefixes position by position.
pub broadcast proof fn lemma_spec_prefixed(ps: Seq<Seq<usize>>, i: int)
    ensures
        (#[trigger] spec_prefixed(ps, i)).len() == ps.len(),
        forall|j: int|
            0 <= j < ps.len() ==> spec_prefixed(ps, i)[j] == seq![i as usize] + #[trigger] ps[j],
    decreases ps.len(),
{
    if ps.len() != 0 {
        lemma_spec_prefixed(ps.subrange(0, ps.len() - 1), i);
        assert(forall|j: int|
            0 <= j < ps.len() - 1 ==> ps.subrange(0, ps.len() - 1)[j] == #[trigger] ps[j]);
    }
}

/// The paths of the immediate children that are themselves expressions, left
/// to right; with `skip_last` the last child is never yielded.
pub open spec fn spec_sibling_paths_upto(children: Seq<AtomView>, upto: int) -> Seq<Seq<usize>>
    decreases upto,
{
    if upto <= 0 || upto > children.len() {
        Seq::empty()
    } else {
        spec_sibling_paths_upto(children, upto - 1) + (if children[upto - 1] is Expr {
            seq![seq![(upto - 1) as usize]]
        } else {
            Seq::empty()
        })
    }
}

/// The sibling walk over a whole atom; for a non-expression there is nothing
/// to visit.
pub open spec fn spec_sibling_paths(a: AtomView, skip_last: bool) -> Seq<Seq<usize>> {
    match a {
        AtomView::Expr { children } => if skip_last {
            spec_sibling_paths_upto(children, children.len() - 1)
        } else {
            spec_sibling_paths_upto(children, children.len() as int)
        },
        _ => Seq::empty(),
    }
}

/// The models of a vector of paths, element by element.
pub open spec fn paths_view(s: Seq<Vec<usize>>) -> Seq<Seq<usize>>
    decreases s,
    via paths_view_decreases
{
    if s.len() == 0 {
        Seq::empty()
    } else {
        paths_view(s.subrange(0, s.len() - 1)).push(s[s.len() - 1]@)
    }
}

#[via_fn]
proof fn paths_view_decreases(s: Seq<Vec<usize>>) {
    if s.len() != 0 {
        vstd::seq::axiom_seq_subrange_decreases(s, 0, s.len() - 1);
    }
}

/// `paths_view` takes each path to its model, position by position.
pub broadcast proof fn lemma_paths_view(s: Seq<Vec<usize>>)
    ensures
        (#[trigger] paths_view(s)).len() == s.len(),
        forall|i: int| 0 <= i < s.len() ==> paths_view(s)[i] == (#[trigger] s[i])@,
    decreases s.len(),
{
    if s.len() != 0 {
        lemma_paths_view(s.subrange(0, s.len() - 1));
        assert(forall|i: int|
            0 <= i < s.len() - 1 ==> s.subrange(0, s.len() - 1)[i] == #[trigger] s[i]);
    }
}

/// The model of a cursor: the root model, the positions to visit and how
/// many have been handed out.
#[verifier::ext_equal]
pub ghost struct StreamView {
    pub root: AtomView,
    pub paths: Seq<Seq<usize>>,
    pub next: int,
}

/// A cursor over the sub-expressions of a root atom.  `next` hands out the
/// atom at each listed position in turn; `set_focus` replaces the atom at
/// the most recently handed-out position.
#[derive(Debug)]
pub struct SubexprStream {
    pub root: Atom,
    pub paths: Vec<Vec<usize>>,
    pub next: usize,
}

impl View for SubexprStream {
    type V = StreamView;

    open spec fn view(&self) -> StreamView {
        StreamView { root: self.root@, paths: paths_view(self.paths@), next: self.next as int }
    }
}

/// The atom of `a` at `path`, starting from position `k` of the path.
fn atom_at<'a>(a: &'a Atom, path: &Vec<usize>, k: usize) -> (r: Option<&'a Atom>)
    requires
        k <= path@.len(),
    ensures
        match r {
            Some(v) => spec_at(a@, path@.subrange(k as int, path@.len() as int)) == Some(v@),
            None => spec_at(a@, path@.subrange(k as int, path@.len() as int)) is None,
        },
    decreases path@.len() - k,
{
    let ghost p = path@.subrange(k as int, path@.len() as int);
    if k == path.len() {
        proof {
            assert(p.len() == 0);
        }
        Some(a)
    } else {
        proof {
            assert(p[0] == path@[k as int]);
            assert(p.subrange(1, p.len() as int) =~= path@.subrange(
                k as int + 1,
                path@.len() as int,
            ));
        }
        match a {
            Atom::Expression(e) => {
                proof {
                    lemma_atoms_view(e.children@);
                }
                let i = path[k];
                if i < e.children.len() {
                    atom_at(&e.children[i], path, k + 1)
                } else {
                    None
                }
            },
            _ => None,
        }
    }
}

/// `a` with the atom at `path` (from position `k` on) replaced by `v`.
fn replace_at(a: &Atom, path: &Vec<usize>, k: usize, v: Atom) -> (r: Atom)
    requires
        k <= path@.len(),
    ensures
        r@ == spec_replace(a@, path@.subrange(k as int, path@.len() as int), v@),
    decreases path@.len() - k,
{
    let ghost p = path@.subrange(k as int, path@.len() as int);
    if k == path.len() {
        proof {
            assert(p.len() == 0);
        }
        v
    } else {
        proof {
            assert(p[0] == path@[k as int]);
            assert(p.subrange(1, p.len() as int) =~= path@.subrange(
                k as int + 1,
                path@.len() as int,
            ));
        }
        match a {
            Atom::Expression(e) => {
                proof {
                    lemma_atoms_view(e.children@);
                }
                let i = path[k];
                let k1 = k + 1;
                if i < e.children.len() {
                    let ghost c = atoms_view(e.children@);
                    let mut out: Vec<Atom> = Vec::new();
                    let mut j: usize = 0;
                    while j < e.children.len()
                        invariant
                            j <= e.children@.len(),
                            a is Expression,
                            *e == a->Expression_0,
                            (i as int) < e.children@.len(),
                            k < path@.len(),
                            k1 == k + 1,
                            i == path@[k as int],
                            c == atoms_view(e.children@),
                            c.len() == e.children@.len(),
                            forall|m: int| 0 <= m < c.len() ==> c[m] == #[trigger] e.children@[m]@,
                            out@.len() == j,
                            forall|m: int| 0 <= m < j && m != i ==> #[trigger] out@[m]@ == c[m],
                            (i as int) < j ==> out@[i as int]@ == spec_replace(
                                c[i as int],
                                path@.subrange(k as int + 1, path@.len() as int),
                                v@,
                            ),
                        decreases e.children@.len() - j,
                    {
                        if j == i {
                            proof {
                                lemma_child_decreases(*a, j as int);
                            }
                            let sub = replace_at(&e.children[j], path, k1, clone_atom(&v));
                            out.push(sub);
                        } else {
                            out.push(clone_atom(&e.children[j]));
                        }
                        j = j + 1;
                    }
                    let r = Atom::Expression(ExpressionAtom { children: out });
                    proof {
                        lemma_atoms_view(out@);
                        let target = c.update(
                            i as int,
                            spec_replace(
                                c[i as int],
                                path@.subrange(k as int + 1, path@.len() as int),
                                v@,
                            ),
                        );
                        assert forall|m: int| 0 <= m < out@.len() implies atoms_view(out@)[m]
                            == target[m] by {
                            assert(atoms_view(out@)[m] == out@[m]@);
                        }
                        assert(atoms_view(out@) =~= target);
                    }
                    r
                } else {
                    clone_atom(a)
                }
            },
            _ => clone_atom(a),
        }
    }
}

impl SubexprStream {
    /// A cursor with an explicit list of positions.
    pub fn from_parts(root: Atom, paths: Vec<Vec<usize>>) -> (r: SubexprStream)
        ensures
            r@.root == root@,
            r@.paths == paths_view(paths@),
            r@.next == 0,
    {
        SubexprStream { root, paths, next: 0 }
    }

    /// Advances to the next listed position and hands out a clone of the
    /// atom there; `None` when the positions are exhausted or the position
    /// no longer exists.
    pub fn next(&mut self) -> (r: Option<Atom>)
        ensures
            old(self)@.next >= old(self)@.paths.len() ==> r is None && final(self)@ == old(
                self,
            )@,
            old(self)@.next < old(self)@.paths.len() ==> {
                &&& final(self)@.root == old(self)@.root
                &&& final(self)@.paths == old(self)@.paths
                &&& final(self)@.next == old(self)@.next + 1
                &&& (match r {
                    Some(v) => spec_at(old(self)@.root, old(self)@.paths[old(self)@.next])
                        == Some(v@),
                    None => spec_at(old(self)@.root, old(self)@.paths[old(self)@.next]) is None,
                })
            },
    {
        proof {
            lemma_paths_view(self.paths@);
        }
        if self.next >= self.paths.len() {
            return None;
        }
        let ghost p = self@.paths[self@.next];
        let idx = self.next;
        self.next = self.next + 1;
        let path = &self.paths[idx];
        proof {
            assert(path@.subrange(0, path@.len() as int) =~= path@);
        }
        match atom_at(&self.root, path, 0) {
            Some(v) => Some(clone_atom(v)),
            None => None,
        }
    }

    /// Replaces the atom at the position most recently handed out by `next`.
    /// Before any `next`, or where the position no longer exists, the root
    /// is unchanged.
    pub fn set_focus(&mut self, v: Atom)
        ensures
            final(self)@.paths == old(self)@.paths,
            final(self)@.next == old(self)@.next,
            old(self)@.next == 0 ==> final(self)@.root == old(self)@.root,
            0 < old(self)@.next <= old(self)@.paths.len() ==> final(self)@.root == spec_replace(
                old(self)@.root,
                old(self)@.paths[old(self)@.next - 1],
                v@,
            ),
            old(self)@.next > old(self)@.paths.len() ==> final(self)@.root == old(self)@.root,
    {
        proof {
            lemma_paths_view(self.paths@);
        }
        if self.next == 0 || self.next > self.paths.len() {
            return ;
        }
        let idx = self.next - 1;
        let path = &self.paths[idx];
        proof {
            assert(path@.subrange(0, path@.len() as int) =~= path@);
        }
        let newroot = replace_at(&self.root, path, 0, v);
        self.root = newroot;
    }

    /// Gives the (possibly mutated) root back.
    pub fn into_atom(self) -> (r: Atom)
        ensures
            r@ == self@.root,
    {
        self.root
    }
}

impl Clone for SubexprStream {
    /// Clones the cursor; the clone has the same model.
    fn clone(&self) -> (r: SubexprStream)
        ensures
            r@ == self@,
    {
        let root = clone_atom(&self.root);
        let mut ps: Vec<Vec<usize>> = Vec::new();
        let mut i: usize = 0;
        while i < self.paths.len()
            invariant
                i <= self.paths@.len(),
                ps@.len() == i,
                forall|j: int| 0 <= j < i ==> (#[trigger] ps@[j])@ == self.paths@[j]@,
            decreases self.paths@.len() - i,
        {
            let mut p: Vec<usize> = Vec::new();
            let mut k: usize = 0;
            while k < self.paths[i].len()
                invariant
                    i < self.paths@.len(),
                    k <= self.paths@[i as int]@.len(),
                    p@.len() == k,
                    forall|m: int| 0 <= m < k ==> p@[m] == self.paths@[i as int]@[m],
                decreases self.paths@[i as int]@.len() - k,
            {
                p.push(self.paths[i][k]);
                k = k + 1;
            }
            proof {
                assert(p@ =~= self.paths@[i as int]@);
            }
            ps.push(p);
            i = i + 1;
        }
        let r = SubexprStream { root, paths: ps, next: self.next };
        proof {
            lemma_paths_view(ps@);
            lemma_paths_view(self.paths@);
            assert forall|j: int| 0 <= j < ps@.len() implies paths_view(ps@)[j] == paths_view(
                self.paths@,
            )[j] by {
                assert(paths_view(ps@)[j] == ps@[j]@);
                assert(paths_view(self.paths@)[j] == self.paths@[j]@);
            }
            assert(paths_view(ps@) =~= paths_view(self.paths@));
        }
        r
    }
}

/// The post-order positions of the proper sub-expressions of `a`.
pub fn sub_expr_paths(a: &Atom) -> (r: Vec<Vec<usize>>)
    ensures
        paths_view(r@) == spec_sub_paths(a@),
    decreases a,
{
    let mut out: Vec<Vec<usize>> = Vec::new();
    proof {
        lemma_paths_view(out@);
        assert(paths_view(out@) =~= Seq::<Seq<usize>>::empty());
    }
    match a {
        Atom::Expression(e) => {
            proof {
                lemma_atoms_view(e.children@);
            }
            let ghost c = atoms_view(e.children@);
            let n = e.children.len();
            let mut i: usize = 0;
            while i < n
                invariant
                    i <= n,
                    a is Expression,
                    *e == a->Expression_0,
                    n == e.children@.len(),
                    c == atoms_view(e.children@),
                    c.len() == n,
                    forall|j: int| 0 <= j < n ==> c[j] == #[trigger] e.children@[j]@,
                    paths_view(out@) == spec_sub_paths_upto(c, i as int),
                decreases n - i,
            {
                proof {
                    lemma_child_decreases(*a, i as int);
                }
                let inner = sub_expr_paths(&e.children[i]);
                let ghost innerv = paths_view(inner@);
                proof {
                    lemma_paths_view(inner@);
                    assert(innerv == spec_sub_paths(c[i as int]));
                    assert(spec_sub_paths(c[i as int]) == spec_sub_paths_inner(c[i as int]));
                }
                // prefix each inner path with i and append
                let ghost out0 = out@;
                let mut k: usize = 0;
                while k < inner.len()
                    invariant
                        k <= inner@.len(),
                        i < n,
                        innerv == paths_view(inner@),
                        innerv.len() == inner@.len(),
                        forall|m: int| 0 <= m < inner@.len() ==> innerv[m] == (
                        #[trigger] inner@[m])@,
                        paths_view(out@) == paths_view(out0) + spec_prefixed(
                            innerv.subrange(0, k as int),
                            i as int,
                        ),
                    decreases inner@.len() - k,
                {
                    let mut p: Vec<usize> = Vec::new();
                    p.push(i);
                    let mut m: usize = 0;
                    while m < inner[k].len()
                        invariant
                            k < inner@.len(),
                            m <= inner@[k as int]@.len(),
                            p@.len() == m + 1,
                            p@[0] == i,
                            forall|q: int| 0 <= q < m ==> p@[q + 1] == inner@[k as int]@[q],
                        decreases inner@[k as int]@.len() - m,
                    {
                        p.push(inner[k][m]);
                        m = m + 1;
                    }
                    proof {
                        assert(p@ =~= seq![i] + inner@[k as int]@);
                    }
                    let ghost before = out@;
                    out.push(p);
                    proof {
                        lemma_paths_view(out@);
                        lemma_paths_view(before);
                        assert(out@.subrange(0, out@.len() - 1) =~= before);
                        assert(paths_view(out@) == paths_view(before).push(
                            seq![i] + innerv[k as int],
                        ));
                        let pre = innerv.subrange(0, k as int);
                        let cur = innerv.subrange(0, k as int + 1);
                        assert(cur.subrange(0, cur.len() - 1) =~= pre);
                        assert(cur[cur.len() - 1] == innerv[k as int]);
                        lemma_spec_prefixed(pre, i as int);
                        lemma_spec_prefixed(cur, i as int);
                        assert forall|q: int|
                            0 <= q < paths_view(out@).len() implies paths_view(out@)[q] == (
                        paths_view(out0) + spec_prefixed(cur, i as int))[q] by {
                            if q < paths_view(before).len() {
                            }
                        }
                        assert(paths_view(out@) =~= paths_view(out0) + spec_prefixed(
                            cur,
                            i as int,
                        ));
                    }
                    k = k + 1;
                }
                proof {
                    assert(innerv.subrange(0, innerv.len() as int) =~= innerv);
                }
                let is_e = matches!(&e.children[i], Atom::Expression(..));
                if is_e {
                    let mut p: Vec<usize> = Vec::new();
                    p.push(i);
                    let ghost before = out@;
                    out.push(p);
                    proof {
                        lemma_paths_view(out@);
                        lemma_paths_view(before);
                        assert(out@.subrange(0, out@.len() - 1) =~= before);
                        assert(paths_view(out@) == paths_view(before).push(seq![i]));
                    }
                }
                proof {
                    assert(is_e == (e.children@[i as int]@ is Expr));
                    assert(c[i as int] is Expr == is_e);
                    assert(paths_view(out@) =~= spec_sub_paths_upto(c, i as int + 1));
                }
                i = i + 1;
            }
            proof {
                assert(spec_sub_paths(a@) == spec_sub_paths_upto(c, n as int));
            }
        },
        _ => {
            proof {
                assert(spec_sub_paths(a@) =~= Seq::<Seq<usize>>::empty());
            }
        },
    }
    out
}

/// The positions of the immediate child expressions, left to right; with
/// `skip_last` the last child is never yielded.
pub fn sibling_paths(a: &Atom, skip_last: bool) -> (r: Vec<Vec<usize>>)
    ensures
        paths_view(r@) == spec_sibling_paths(a@, skip_last),
{
    let mut out: Vec<Vec<usize>> = Vec::new();
    proof {
        lemma_paths_view(out@);
        assert(paths_view(out@) =~= Seq::<Seq<usize>>::empty());
    }
    match a {
        Atom::Expression(e) => {
            proof {
                lemma_atoms_view(e.children@);
            }
            let ghost c = atoms_view(e.children@);
            let n = e.children.len();
            let bound = if skip_last {
                if n == 0 {
                    0
                } else {
                    n - 1
                }
            } else {
                n
            };
            proof {
                if skip_last && n == 0 {
                    assert(spec_sibling_paths_upto(c, c.len() - 1) =~= Seq::<Seq<usize>>::empty());
                }
            }
            let mut i: usize = 0;
            while i < bound
                invariant
                    i <= bound,
                    bound <= n,
                    n == e.children@.len(),
                    c == atoms_view(e.children@),
                    c.len() == n,
                    forall|j: int| 0 <= j < n ==> c[j] == #[trigger] e.children@[j]@,
                    paths_view(out@) == spec_sibling_paths_upto(c, i as int),
                decreases bound - i,
            {
                let is_e = matches!(&e.children[i], Atom::Expression(..));
                if is_e {
                    let mut p: Vec<usize> = Vec::new();
                    p.push(i);
                    let ghost before = out@;
                    out.push(p);
                    proof {
                        lemma_paths_view(out@);
                        lemma_paths_view(before);
                        assert(out@.subrange(0, out@.len() - 1) =~= before);
                        assert(paths_view(out@) == paths_view(before).push(seq![i]));
                    }
                }
                proof {
                    assert(is_e == (e.children@[i as int]@ is Expr));
                    assert(c[i as int] is Expr == is_e);
                    assert(spec_sibling_paths_upto(c, i as int + 1) == spec_sibling_paths_upto(
                        c,
                        i as int,
                    ) + (if c[i as int] is Expr {
                        seq![seq![i]]
                    } else {
                        Seq::<Seq<usize>>::empty()
                    }));
                    assert(paths_view(out@) =~= spec_sibling_paths_upto(c, i as int + 1));
                }
                i = i + 1;
            }
        },
        _ => {},
    }
    out
}

} // verus!
