use vstd::prelude::*;

use vstd::set_lib::lemma_len_subset;

use crate::game::{mine_at, mines_in};
use crate::square::Square;

verus! {

broadcast use vstd::seq_lib::seq_to_set_is_finite;

// ---------------------------------------------------------------------------
// Counting toolbox: cardinalities of filtered finite sets.
// ---------------------------------------------------------------------------

pub proof fn lemma_push_to_set<A>(s: Seq<A>, x: A)
    ensures
        s.push(x).to_set() =~= s.to_set().insert(x),
{
    assert forall|y: A| #[trigger] s.push(x).to_set().contains(y) implies s.to_set().insert(
        x,
    ).contains(y) by {
        let m = choose|m: int| 0 <= m < s.push(x).len() && s.push(x)[m] == y;
        if m < s.len() {
            assert(s[m] == y);
        }
    }
    assert forall|y: A| #[trigger] s.to_set().insert(x).contains(y) implies s.push(
        x,
    ).to_set().contains(y) by {
        if y == x {
            assert(s.push(x)[s.len() as int] == x);
        } else {
            let m = choose|m: int| 0 <= m < s.len() && s[m] == y;
            assert(s.push(x)[m] == y);
        }
    }
}

pub proof fn lemma_disjoint_union_len<A>(a: Set<A>, b: Set<A>)
    requires
        a.finite(),
        b.finite(),
        a.disjoint(b),
    ensures
        a.union(b).len() == a.len() + b.len(),
    decreases a.len(),
{
    if a.len() == 0 {
        a.lemma_len0_is_empty();
        assert(a.union(b) =~= b);
    } else {
        assert(exists|x: A| a.contains(x)) by {
            if !(exists|x: A| a.contains(x)) {
                assert(a =~= Set::empty());
            }
        }
        let x = choose|x: A| a.contains(x);
        assert(a.remove(x).union(b) =~= a.union(b).remove(x));
        lemma_disjoint_union_len(a.remove(x), b);
    }
}

pub proof fn lemma_filter_insert<A>(s: Set<A>, f: spec_fn(A) -> bool, x: A)
    requires
        s.finite(),
        !s.contains(x),
    ensures
        s.insert(x).filter(f).len() == s.filter(f).len() + (if f(x) {
            1int
        } else {
            0int
        }),
{
    s.lemma_len_filter(f);
    if f(x) {
        assert(s.insert(x).filter(f) =~= s.filter(f).insert(x));
        assert(!s.filter(f).contains(x));
    } else {
        assert(s.insert(x).filter(f) =~= s.filter(f));
    }
}

/// Mines in a set split as mines in a subset plus mines in the rest.
pub proof fn lemma_filter_split<A>(s: Set<A>, b: Set<A>, f: spec_fn(A) -> bool)
    requires
        s.finite(),
        b.subset_of(s),
    ensures
        b.finite(),
        s.difference(b).finite(),
        s.filter(f).len() == b.filter(f).len() + s.difference(b).filter(f).len(),
{
    lemma_len_subset(b, s);
    assert(s.difference(b).subset_of(s));
    lemma_len_subset(s.difference(b), s);
    b.lemma_len_filter(f);
    s.difference(b).lemma_len_filter(f);
    assert(s.filter(f) =~= b.filter(f).union(s.difference(b).filter(f)));
    assert(b.filter(f).disjoint(s.difference(b).filter(f)));
    lemma_disjoint_union_len(b.filter(f), s.difference(b).filter(f));
}

/// A filter that keeps everything: every element satisfies the predicate.
pub proof fn lemma_filter_all<A>(s: Set<A>, f: spec_fn(A) -> bool)
    requires
        s.finite(),
        s.filter(f).len() == s.len(),
    ensures
        forall|x: A| s.contains(x) ==> f(x),
{
    assert forall|x: A| s.contains(x) implies f(x) by {
        if !f(x) {
            assert(s.filter(f).subset_of(s.remove(x)));
            lemma_len_subset(s.filter(f), s.remove(x));
        }
    }
}

/// A filter that keeps nothing: no element satisfies the predicate.
pub proof fn lemma_filter_none<A>(s: Set<A>, f: spec_fn(A) -> bool)
    requires
        s.finite(),
        s.filter(f).len() == 0,
    ensures
        forall|x: A| s.contains(x) ==> !f(x),
{
    s.lemma_len_filter(f);
    s.filter(f).lemma_len0_is_empty();
    assert forall|x: A| s.contains(x) implies !f(x) by {
        if f(x) {
            assert(s.filter(f).contains(x));
        }
    }
}

/// A positive count has a witness.
pub proof fn lemma_filter_member<A>(s: Set<A>, f: spec_fn(A) -> bool)
    requires
        s.finite(),
        s.filter(f).len() > 0,
    ensures
        exists|x: A| s.contains(x) && f(x),
{
    s.lemma_len_filter(f);
    assert(exists|x: A| s.filter(f).contains(x)) by {
        if !(exists|x: A| s.filter(f).contains(x)) {
            assert(s.filter(f) =~= Set::empty());
        }
    }
}

/// Two members of a one-element set coincide.
pub proof fn lemma_len1_unique<A>(t: Set<A>, x: A, y: A)
    requires
        t.finite(),
        t.len() == 1,
        t.contains(x),
        t.contains(y),
    ensures
        x == y,
{
    if x != y {
        t.remove(x).lemma_len0_is_empty();
        assert(!t.remove(x).contains(y));
    }
}

/// Adding a fresh cell to a set adds its mine indicator to the count.
pub proof fn lemma_mines_in_insert(
    sol: Seq<Square>,
    rows: int,
    cols: int,
    s: Set<(usize, usize)>,
    p: (usize, usize),
)
    requires
        s.finite(),
        !s.contains(p),
    ensures
        mines_in(sol, rows, cols, s.insert(p)) == mines_in(sol, rows, cols, s) + (if mine_at(
            sol,
            rows,
            cols,
            p,
        ) {
            1int
        } else {
            0int
        }),
{
    lemma_filter_insert(s, |q: (usize, usize)| mine_at(sol, rows, cols, q), p);
}

/// A set never holds more mines than cells.
pub proof fn lemma_mines_in_le(sol: Seq<Square>, rows: int, cols: int, s: Set<(usize, usize)>)
    requires
        s.finite(),
    ensures
        mines_in(sol, rows, cols, s) <= s.len(),
{
    s.lemma_len_filter(|q: (usize, usize)| mine_at(sol, rows, cols, q));
}

// ---------------------------------------------------------------------------
// Executable set operations on coordinate vectors.
// ---------------------------------------------------------------------------

pub fn contains_cell(v: &Vec<(usize, usize)>, p: (usize, usize)) -> (r: bool)
    ensures
        r == v@.to_set().contains(p),
{
    let mut k: usize = 0;
    while k < v.len()
        invariant
            k <= v@.len(),
            forall|m: int| 0 <= m < k ==> v@[m] != p,
        decreases v@.len() - k,
    {
        if v[k].0 == p.0 && v[k].1 == p.1 {
            proof {
                assert(v@[k as int] == p);
                assert(v@.contains(p));
            }
            return true;
        }
        k = k + 1;
    }
    proof {
        assert(!v@.contains(p));
    }
    false
}

pub fn is_subset_cells(a: &Vec<(usize, usize)>, b: &Vec<(usize, usize)>) -> (r: bool)
    ensures
        r == a@.to_set().subset_of(b@.to_set()),
{
    let mut k: usize = 0;
    while k < a.len()
        invariant
            k <= a@.len(),
            forall|m: int| 0 <= m < k ==> b@.to_set().contains(#[trigger] a@[m]),
        decreases a@.len() - k,
    {
        let p = a[k];
        if !contains_cell(b, p) {
            proof {
                assert(a@.contains(p));
                assert(a@.to_set().contains(p));
            }
            return false;
        }
        k = k + 1;
    }
    proof {
        assert forall|x: (usize, usize)| a@.to_set().contains(x) implies b@.to_set().contains(
            x,
        ) by {
            let m = choose|m: int| 0 <= m < a@.len() && a@[m] == x;
            assert(b@.to_set().contains(a@[m]));
        }
    }
    true
}

pub fn copy_cells(a: &Vec<(usize, usize)>) -> (r: Vec<(usize, usize)>)
    ensures
        r@ == a@,
{
    let mut r: Vec<(usize, usize)> = Vec::new();
    let mut k: usize = 0;
    while k < a.len()
        invariant
            k <= a@.len(),
            r@ == a@.take(k as int),
        decreases a@.len() - k,
    {
        r.push(a[k]);
        proof {
            assert(r@ =~= a@.take(k as int + 1));
        }
        k = k + 1;
    }
    proof {
        assert(r@ =~= a@);
    }
    r
}

/// The elements of `a` that are not in `b`, in order.
pub fn diff_cells(a: &Vec<(usize, usize)>, b: &Vec<(usize, usize)>) -> (r: Vec<(usize, usize)>)
    requires
        a@.no_duplicates(),
    ensures
        r@.no_duplicates(),
        r@.to_set() == a@.to_set().difference(b@.to_set()),
{
    let mut r: Vec<(usize, usize)> = Vec::new();
    let mut k: usize = 0;
    while k < a.len()
        invariant
            k <= a@.len(),
            a@.no_duplicates(),
            r@.no_duplicates(),
            r@.to_set() == a@.take(k as int).to_set().difference(b@.to_set()),
            forall|m: int| 0 <= m < r@.len() ==> a@.take(k as int).contains(#[trigger] r@[m]),
        decreases a@.len() - k,
    {
        let p = a[k];
        let ghost pre = r@;
        proof {
            assert(a@.take(k as int + 1) =~= a@.take(k as int).push(p));
            lemma_push_to_set(a@.take(k as int), p);
            assert(a@.take(k as int + 1).to_set() =~= a@.take(k as int).to_set().insert(p));
            assert(!a@.take(k as int).contains(p)) by {
                if a@.take(k as int).contains(p) {
                    let m = choose|m: int| 0 <= m < k && a@.take(k as int)[m] == p;
                    assert(a@[m] == a@[k as int]);
                }
            }
        }
        if !contains_cell(b, p) {
            r.push(p);
            proof {
                lemma_push_to_set(pre, p);
                assert(!pre.contains(p)) by {
                    if pre.contains(p) {
                        let m = choose|m: int| 0 <= m < pre.len() && pre[m] == p;
                        assert(a@.take(k as int).contains(p));
                    }
                }
                assert(r@.to_set() =~= a@.take(k as int + 1).to_set().difference(b@.to_set()));
                assert forall|m: int| 0 <= m < r@.len() implies a@.take(k as int + 1).contains(
                    #[trigger] r@[m],
                ) by {
                    if m < pre.len() {
                        assert(a@.take(k as int).contains(pre[m]));
                        let q = choose|q: int| 0 <= q < k && a@.take(k as int)[q] == pre[m];
                        assert(a@.take(k as int + 1)[q] == pre[m]);
                    } else {
                        assert(r@[m] == p);
                        assert(a@.take(k as int + 1)[k as int] == p);
                    }
                }
            }
        } else {
            proof {
                assert(r@.to_set() =~= a@.take(k as int + 1).to_set().difference(b@.to_set()));
                assert forall|m: int| 0 <= m < r@.len() implies a@.take(k as int + 1).contains(
                    #[trigger] r@[m],
                ) by {
                    assert(a@.take(k as int).contains(r@[m]));
                    let q = choose|q: int| 0 <= q < k && a@.take(k as int)[q] == r@[m];
                    assert(a@.take(k as int + 1)[q] == r@[m]);
                }
            }
        }
        k = k + 1;
    }
    proof {
        assert(a@.take(a@.len() as int) =~= a@);
    }
    r
}

/// The elements of `a` that are also in `b`, in order.
pub fn inter_cells(a: &Vec<(usize, usize)>, b: &Vec<(usize, usize)>) -> (r: Vec<(usize, usize)>)
    requires
        a@.no_duplicates(),
    ensures
        r@.no_duplicates(),
        r@.to_set() == a@.to_set().intersect(b@.to_set()),
{
    let mut r: Vec<(usize, usize)> = Vec::new();
    let mut k: usize = 0;
    while k < a.len()
        invariant
            k <= a@.len(),
            a@.no_duplicates(),
            r@.no_duplicates(),
            r@.to_set() == a@.take(k as int).to_set().intersect(b@.to_set()),
            forall|m: int| 0 <= m < r@.len() ==> a@.take(k as int).contains(#[trigger] r@[m]),
        decreases a@.len() - k,
    {
        let p = a[k];
        let ghost pre = r@;
        proof {
            assert(a@.take(k as int + 1) =~= a@.take(k as int).push(p));
            lemma_push_to_set(a@.take(k as int), p);
            assert(a@.take(k as int + 1).to_set() =~= a@.take(k as int).to_set().insert(p));
            assert(!a@.take(k as int).contains(p)) by {
                if a@.take(k as int).contains(p) {
                    let m = choose|m: int| 0 <= m < k && a@.take(k as int)[m] == p;
                    assert(a@[m] == a@[k as int]);
                }
            }
        }
        if contains_cell(b, p) {
            r.push(p);
            proof {
                lemma_push_to_set(pre, p);
                assert(!pre.contains(p)) by {
                    if pre.contains(p) {
                        let m = choose|m: int| 0 <= m < pre.len() && pre[m] == p;
                        assert(a@.take(k as int).contains(p));
                    }
                }
                assert(r@.to_set() =~= a@.take(k as int + 1).to_set().intersect(b@.to_set()));
                assert forall|m: int| 0 <= m < r@.len() implies a@.take(k as int + 1).contains(
                    #[trigger] r@[m],
                ) by {
                    if m < pre.len() {
                        assert(a@.take(k as int).contains(pre[m]));
                        let q = choose|q: int| 0 <= q < k && a@.take(k as int)[q] == pre[m];
                        assert(a@.take(k as int + 1)[q] == pre[m]);
                    } else {
                        assert(r@[m] == p);
                        assert(a@.take(k as int + 1)[k as int] == p);
                    }
                }
            }
        } else {
            proof {
                assert(r@.to_set() =~= a@.take(k as int + 1).to_set().intersect(b@.to_set()));
                assert forall|m: int| 0 <= m < r@.len() implies a@.take(k as int + 1).contains(
                    #[trigger] r@[m],
                ) by {
                    assert(a@.take(k as int).contains(r@[m]));
                    let q = choose|q: int| 0 <= q < k && a@.take(k as int)[q] == r@[m];
                    assert(a@.take(k as int + 1)[q] == r@[m]);
                }
            }
        }
        k = k + 1;
    }
    proof {
        assert(a@.take(a@.len() as int) =~= a@);
    }
    r
}

// ---------------------------------------------------------------------------
// The constraint type.
// ---------------------------------------------------------------------------

/// A derived constraint: exactly `mines` of the cells in `unknowns` are
/// mines. Scoped to one revealed numbered cell's neighborhood, or obtained
/// from such constraints by subtraction.
pub struct Group {
    pub mines: usize,
    pub unknowns: Vec<(usize, usize)>,
}

impl Group {
    /// The unknown cells as a set.
    pub open spec fn unk(self) -> Set<(usize, usize)> {
        self.unknowns@.to_set()
    }

    /// Structurally sound: no repeated cells, all in bounds, and a mine
    /// count a single cell's constraint can carry.
    pub open spec fn wf(self, rows: int, cols: int) -> bool {
        &&& self.unknowns@.no_duplicates()
        &&& self.mines <= 8
        &&& forall|p: (usize, usize)| self.unk().contains(p) ==> p.0 < rows && p.1 < cols
    }

    /// True of the hidden solution: exactly `mines` of the unknown cells
    /// are mines. Every constraint the engine ever stores is exact.
    pub open spec fn exact(self, sol: Seq<Square>, rows: int, cols: int) -> bool {
        mines_in(sol, rows, cols, self.unk()) == self.mines
    }

    pub proof fn lemma_unk_len(self)
        requires
            self.unknowns@.no_duplicates(),
        ensures
            self.unk().finite(),
            self.unk().len() == self.unknowns@.len(),
    {
        self.unknowns@.unique_seq_to_set();
    }

    pub fn duplicate(&self) -> (r: Group)
        ensures
            r.mines == self.mines,
            r.unknowns@ == self.unknowns@,
    {
        Group { mines: self.mines, unknowns: copy_cells(&self.unknowns) }
    }

    /// Subtract a contained constraint: the remaining cells hold the
    /// remaining mines.
    pub fn minus(&self, other: &Group) -> (r: Group)
        requires
            self.unknowns@.no_duplicates(),
            other.unk().subset_of(self.unk()),
            other.mines <= self.mines,
        ensures
            r.mines == self.mines - other.mines,
            r.unk() == self.unk().difference(other.unk()),
            r.unknowns@.no_duplicates(),
            r.mines <= self.mines,
    {
        Group { mines: self.mines - other.mines, unknowns: diff_cells(&self.unknowns, &other.unknowns) }
    }
}

// ---------------------------------------------------------------------------
// Soundness of the deduction rules, as facts about exact constraints.
// ---------------------------------------------------------------------------

/// All-mines rule: when a constraint needs as many mines as it has cells,
/// every one of its cells is a mine.
pub proof fn lemma_all_mines(sol: Seq<Square>, rows: int, cols: int, g: Group)
    requires
        g.unknowns@.no_duplicates(),
        g.exact(sol, rows, cols),
        g.mines == g.unknowns@.len(),
    ensures
        forall|p: (usize, usize)| g.unk().contains(p) ==> mine_at(sol, rows, cols, p),
{
    g.lemma_unk_len();
    lemma_filter_all(g.unk(), |p: (usize, usize)| mine_at(sol, rows, cols, p));
}

/// All-safe rule: a constraint with zero mines has only safe cells.
pub proof fn lemma_all_safe(sol: Seq<Square>, rows: int, cols: int, g: Group)
    requires
        g.unknowns@.no_duplicates(),
        g.exact(sol, rows, cols),
        g.mines == 0,
    ensures
        forall|p: (usize, usize)| g.unk().contains(p) ==> !mine_at(sol, rows, cols, p),
{
    g.lemma_unk_len();
    lemma_filter_none(g.unk(), |p: (usize, usize)| mine_at(sol, rows, cols, p));
}

/// Subset elimination: subtracting an exact contained constraint from an
/// exact constraint leaves an exact constraint.
pub proof fn lemma_sub_exact(sol: Seq<Square>, rows: int, cols: int, a: Group, b: Group)
    requires
        a.unknowns@.no_duplicates(),
        b.unknowns@.no_duplicates(),
        a.exact(sol, rows, cols),
        b.exact(sol, rows, cols),
        b.unk().subset_of(a.unk()),
    ensures
        b.mines <= a.mines,
        mines_in(sol, rows, cols, a.unk().difference(b.unk())) == a.mines - b.mines,
{
    a.lemma_unk_len();
    b.lemma_unk_len();
    lemma_filter_split(a.unk(), b.unk(), |p: (usize, usize)| mine_at(sol, rows, cols, p));
}

/// The 1-1 pattern: a one-mine constraint containing two constraints that
/// each need a mine forces the single shared cell to be the mine.
pub proof fn lemma_one_one(
    sol: Seq<Square>,
    rows: int,
    cols: int,
    g: Group,
    s1: Group,
    s2: Group,
    inter: Set<(usize, usize)>,
)
    requires
        g.unknowns@.no_duplicates(),
        s1.unknowns@.no_duplicates(),
        s2.unknowns@.no_duplicates(),
        g.exact(sol, rows, cols),
        s1.exact(sol, rows, cols),
        s2.exact(sol, rows, cols),
        s1.unk().subset_of(g.unk()),
        s2.unk().subset_of(g.unk()),
        s1.mines >= 1,
        s2.mines >= 1,
        g.mines == 1,
        inter == s1.unk().intersect(s2.unk()),
        inter.len() == 1,
    ensures
        forall|p: (usize, usize)| inter.contains(p) ==> mine_at(sol, rows, cols, p),
{
    let f = |p: (usize, usize)| mine_at(sol, rows, cols, p);
    g.lemma_unk_len();
    s1.lemma_unk_len();
    s2.lemma_unk_len();
    lemma_filter_member(s1.unk(), f);
    let m1 = choose|x: (usize, usize)| s1.unk().contains(x) && f(x);
    lemma_filter_member(s2.unk(), f);
    let m2 = choose|x: (usize, usize)| s2.unk().contains(x) && f(x);
    assert(g.unk().filter(f).contains(m1));
    assert(g.unk().filter(f).contains(m2));
    g.unk().lemma_len_filter(f);
    lemma_len1_unique(g.unk().filter(f), m1, m2);
    assert(inter.contains(m1));
    assert forall|p: (usize, usize)| inter.contains(p) implies mine_at(sol, rows, cols, p) by {
        assert(inter.finite()) by {
            lemma_len_subset(inter, s1.unk());
        }
        lemma_len1_unique(inter, p, m1);
    }
}

/// Overlap reduction: for exact constraints `a` and `b`, the true number of
/// mines in their shared cells lies within the bounds the rule enumerates,
/// and the residual of `a` outside the shared cells is exact for it.
pub proof fn lemma_overlap(
    sol: Seq<Square>,
    rows: int,
    cols: int,
    a: Group,
    b: Group,
    inter: Set<(usize, usize)>,
)
    requires
        a.unknowns@.no_duplicates(),
        b.unknowns@.no_duplicates(),
        a.exact(sol, rows, cols),
        b.exact(sol, rows, cols),
        inter == a.unk().intersect(b.unk()),
    ensures
        ({
            let m = mines_in(sol, rows, cols, inter);
            &&& inter.finite()
            &&& inter.len() <= a.unk().len()
            &&& m <= b.mines
            &&& m <= inter.len()
            &&& b.mines - m <= b.unk().len() - inter.len()
            &&& m <= a.mines
            &&& a.mines - m <= a.unk().len() - inter.len()
            &&& mines_in(sol, rows, cols, a.unk().difference(inter)) == a.mines - m
            &&& a.unk().difference(inter).len() == a.unk().len() - inter.len()
        }),
{
    let f = |p: (usize, usize)| mine_at(sol, rows, cols, p);
    a.lemma_unk_len();
    b.lemma_unk_len();
    assert(inter.subset_of(a.unk()));
    assert(inter.subset_of(b.unk()));
    lemma_len_subset(inter, a.unk());
    lemma_filter_split(a.unk(), inter, f);
    lemma_filter_split(b.unk(), inter, f);
    inter.lemma_len_filter(f);
    a.unk().difference(inter).lemma_len_filter(f);
    b.unk().difference(inter).lemma_len_filter(f);
    lemma_disjoint_union_len(inter, a.unk().difference(inter));
    assert(inter.union(a.unk().difference(inter)) =~= a.unk());
    lemma_disjoint_union_len(inter, b.unk().difference(inter));
    assert(inter.union(b.unk().difference(inter)) =~= b.unk());
}

} // verus!
