//! Ridge regression with coefficients that are not below zero.
use vstd::prelude::*;

use crate::number::{count, larger, zero, Real};
#[allow(unused_imports)]
use crate::number::{
    accumulate, count_spec, larger_spec, lemma_accumulate_step, missing_spec, zero_spec,
};
use crate::types::{HorizonParams, FEATURE_COUNT};
#[allow(unused_imports)]
use crate::types::products;

verus! {

/// How often the coefficients are solved for at most.
pub const ROUNDS: usize = 19;

/// The values of a list of rows.
pub open spec fn grid<T>(rows: Seq<Vec<T>>) -> Seq<Seq<T>> {
    rows.map_values(|r: Vec<T>| r@)
}

/// A square matrix with the right-hand side of its equations.
#[verifier::ext_equal]
pub struct Equations<T> {
    pub a: Seq<Seq<T>>,
    pub b: Seq<T>,
}

/// A pivot that is smaller is taken for zero: `10^-15`.
pub open spec fn tiny_spec<T: Real>() -> T {
    T::ratio_spec(1, 1_000_000_000_000_000)
}

/// The row from `i` to before `end` with the largest number in column `i`;
/// the first of them.
pub open spec fn pivot_spec<T: Real>(a: Seq<Seq<T>>, i: int, end: int) -> int
    decreases end - i,
{
    if end <= i + 1 {
        i
    } else {
        let best = pivot_spec(a, i, end - 1);
        if a[best][i].magnitude_spec().below_spec(a[end - 1][i].magnitude_spec()) {
            end - 1
        } else {
            best
        }
    }
}

/// The numbers from column `i` on, divided by `diag`.
pub open spec fn scaled_spec<T: Real>(row: Seq<T>, diag: T, i: int) -> Seq<T> {
    Seq::new(
        row.len(),
        |c: int|
            if c >= i {
                row[c].over_spec(diag)
            } else {
                row[c]
            },
    )
}

/// The numbers from column `i` on, less those of the pivot row times the
/// number in column `i`.
pub open spec fn cleared_spec<T: Real>(row: Seq<T>, pivot_row: Seq<T>, i: int) -> Seq<T> {
    Seq::new(
        row.len(),
        |c: int|
            if c >= i {
                row[c].minus_spec(row[i].times_spec(pivot_row[c]))
            } else {
                row[c]
            },
    )
}

impl<T: Real> Equations<T> {
    /// As many equations as unknowns.
    pub open spec fn square(self, n: int) -> bool {
        &&& self.b.len() == n
        &&& self.a.len() == n
        &&& forall|r: int| 0 <= r < n ==> (#[trigger] self.a[r]).len() == n
    }

    /// The equations with two of them exchanged.
    pub open spec fn exchanged(self, i: int, p: int) -> Self {
        Equations {
            a: self.a.update(i, self.a[p]).update(p, self.a[i]),
            b: self.b.update(i, self.b[p]).update(p, self.b[i]),
        }
    }

    /// Equation `i` scaled to its unknown, and that unknown taken out of the others.
    pub open spec fn cleared(self, i: int) -> Self {
        let diag = self.a[i][i];
        let row = scaled_spec(self.a[i], diag, i);
        let rhs = self.b[i].over_spec(diag);
        Equations {
            a: Seq::new(
                self.a.len(),
                |r: int|
                    if r == i {
                        row
                    } else {
                        cleared_spec(self.a[r], row, i)
                    },
            ),
            b: Seq::new(
                self.b.len(),
                |r: int|
                    if r == i {
                        rhs
                    } else {
                        self.b[r].minus_spec(self.a[r][i].times_spec(rhs))
                    },
            ),
        }
    }

    /// Unknown `i` solved for; an unknown without a pivot is passed over.
    pub open spec fn step(self, i: int) -> Self {
        let e = self.exchanged(i, pivot_spec(self.a, i, self.b.len() as int));
        if e.a[i][i].magnitude_spec().below_spec(tiny_spec()) {
            e
        } else {
            e.cleared(i)
        }
    }

    /// The first `k` unknowns solved for.
    pub open spec fn steps(self, k: int) -> Self
        decreases k,
    {
        if k <= 0 {
            self
        } else {
            self.steps(k - 1).step(k - 1)
        }
    }

    /// The solution.
    pub open spec fn solution(self) -> Seq<T> {
        self.steps(self.b.len() as int).b
    }
}

/// The pivot row is one of those that are left.
pub proof fn lemma_pivot<T: Real>(a: Seq<Seq<T>>, i: int, end: int)
    requires
        i < end,
    ensures
        i <= pivot_spec(a, i, end) < end,
    decreases end - i,
{
    if end > i + 1 {
        lemma_pivot(a, i, end - 1);
    }
}

fn pivot<T: Real>(a: &Vec<Vec<T>>, i: usize) -> (r: usize)
    requires
        i < a@.len(),
        forall|k: int| 0 <= k < a@.len() ==> (#[trigger] a@[k])@.len() == a@.len(),
    ensures
        r == pivot_spec(grid(a@), i as int, a@.len() as int),
        i <= r < a@.len(),
{
    let n: usize = a.len();
    let mut best: usize = i;
    let mut k: usize = i + 1;
    while k < n
        invariant
            n == a@.len(),
            i < k <= a@.len(),
            i <= best < k,
            forall|j: int| 0 <= j < a@.len() ==> (#[trigger] a@[j])@.len() == a@.len(),
            best == pivot_spec(grid(a@), i as int, k as int),
        decreases a@.len() - k,
    {
        assert(grid(a@)[k as int] == a@[k as int]@);
        assert(grid(a@)[best as int] == a@[best as int]@);
        if a[best][i].magnitude().below(a[k][i].magnitude()) {
            best = k;
        }
        k = k + 1;
    }
    best
}

fn copied<T: Real>(row: &Vec<T>) -> (r: Vec<T>)
    ensures
        r@ == row@,
{
    let mut out: Vec<T> = Vec::new();
    let mut c: usize = 0;
    while c < row.len()
        invariant
            0 <= c <= row@.len(),
            out@ == row@.take(c as int),
        decreases row@.len() - c,
    {
        out.push(row[c]);
        assert(row@.take(c + 1) =~= row@.take(c as int).push(row@[c as int]));
        c = c + 1;
    }
    assert(row@.take(c as int) =~= row@);
    out
}

fn scaled<T: Real>(row: &Vec<T>, diag: T, i: usize) -> (r: Vec<T>)
    ensures
        r@ == scaled_spec(row@, diag, i as int),
{
    let mut out: Vec<T> = Vec::new();
    let mut c: usize = 0;
    while c < row.len()
        invariant
            0 <= c <= row@.len(),
            out@ == scaled_spec(row@, diag, i as int).take(c as int),
        decreases row@.len() - c,
    {
        let ghost goal = scaled_spec(row@, diag, i as int);
        assert(goal.take(c + 1) =~= goal.take(c as int).push(goal[c as int]));
        if c >= i {
            out.push(row[c].over(diag));
        } else {
            out.push(row[c]);
        }
        c = c + 1;
    }
    assert(scaled_spec(row@, diag, i as int).take(c as int) =~= scaled_spec(row@, diag, i as int));
    out
}

fn cleared_row<T: Real>(row: &Vec<T>, pivot_row: &Vec<T>, i: usize) -> (r: Vec<T>)
    requires
        i < row@.len(),
        row@.len() == pivot_row@.len(),
    ensures
        r@ == cleared_spec(row@, pivot_row@, i as int),
{
    let f = row[i];
    let ghost goal = cleared_spec(row@, pivot_row@, i as int);
    let mut out: Vec<T> = Vec::new();
    let mut c: usize = 0;
    while c < row.len()
        invariant
            0 <= c <= row@.len(),
            i < row@.len(),
            row@.len() == pivot_row@.len(),
            f == row@[i as int],
            goal == cleared_spec(row@, pivot_row@, i as int),
            out@ == goal.take(c as int),
        decreases row@.len() - c,
    {
        assert(goal.take(c + 1) =~= goal.take(c as int).push(goal[c as int]));
        if c >= i {
            out.push(row[c].minus(f.times(pivot_row[c])));
        } else {
            out.push(row[c]);
        }
        c = c + 1;
    }
    assert(goal.take(c as int) =~= goal);
    out
}

/// Where equation `r` stood before equations `i` and `p` were exchanged.
fn exchanged_from(r: usize, i: usize, p: usize) -> (s: usize)
    ensures
        s == (if r == p {
            i
        } else if r == i {
            p
        } else {
            r
        }),
{
    if r == p {
        i
    } else if r == i {
        p
    } else {
        r
    }
}

/// Solves for unknown `i`.
fn solve_step<T: Real>(a: &Vec<Vec<T>>, b: &Vec<T>, i: usize) -> (r: (Vec<Vec<T>>, Vec<T>))
    requires
        i < b@.len(),
        (Equations { a: grid(a@), b: b@ }).square(b@.len() as int),
    ensures
        (Equations { a: grid(r.0@), b: r.1@ }) == (Equations { a: grid(a@), b: b@ }).step(
            i as int,
        ),
        (Equations { a: grid(r.0@), b: r.1@ }).square(b@.len() as int),
{
    let n: usize = b.len();
    let ghost was = Equations { a: grid(a@), b: b@ };
    proof {
        assert forall|k: int| 0 <= k < a@.len() implies (#[trigger] a@[k])@.len() == a@.len() by {
            assert(grid(a@)[k].len() == n);
        }
    }
    let p: usize = pivot(a, i);
    let ghost e = was.exchanged(i as int, p as int);
    assert(was.a[i as int] == a@[i as int]@);
    assert(was.a[p as int] == a@[p as int]@);
    let diag = a[p][i];
    assert(e.a[i as int] =~= a@[p as int]@);
    let skip: bool = diag.magnitude().below(T::ratio(1, 1_000_000_000_000_000));
    let row = scaled(&a[p], diag, i);
    let rhs = b[p].over(diag);
    let mut next_a: Vec<Vec<T>> = Vec::new();
    let mut next_b: Vec<T> = Vec::new();
    let ghost goal = was.step(i as int);
    assert(goal == if skip { e } else { e.cleared(i as int) });
    let mut r: usize = 0;
    while r < n
        invariant
            0 <= r <= n,
            i < n,
            i <= p < n,
            n == b@.len(),
            n == a@.len(),
            forall|k: int| 0 <= k < a@.len() ==> (#[trigger] a@[k])@.len() == n,
            e == (Equations { a: grid(a@), b: b@ }).exchanged(i as int, p as int),
            diag == a@[p as int]@[i as int],
            row@ == scaled_spec(a@[p as int]@, diag, i as int),
            rhs == b@[p as int].over_spec(diag),
            goal == (if skip {
                e
            } else {
                e.cleared(i as int)
            }),
            next_a@.len() == r,
            next_b@ == goal.b.take(r as int),
            forall|k: int| 0 <= k < r ==> (#[trigger] next_a@[k])@ == goal.a[k],
            forall|k: int| 0 <= k < r ==> (#[trigger] next_a@[k])@.len() == n,
        decreases n - r,
    {
        let from: usize = exchanged_from(r, i, p);
        proof {
            assert(e.a[r as int] =~= a@[from as int]@);
            assert(e.b[r as int] == b@[from as int]);
            assert(e.a[i as int] =~= a@[p as int]@);
            assert(e.b[i as int] == b@[p as int]);
            assert(goal.b.take(r + 1) =~= goal.b.take(r as int).push(goal.b[r as int]));
        }
        if skip {
            next_a.push(copied(&a[from]));
            next_b.push(b[from]);
        } else if r == i {
            next_a.push(copied(&row));
            next_b.push(rhs);
        } else {
            next_a.push(cleared_row(&a[from], &row, i));
            next_b.push(b[from].minus(a[from][i].times(rhs)));
        }
        r = r + 1;
    }
    proof {
        assert(goal.b.take(n as int) =~= goal.b);
        assert(grid(next_a@) =~= goal.a);
        assert forall|k: int| 0 <= k < n implies (#[trigger] grid(next_a@)[k]).len() == n by {
            assert(next_a@[k]@.len() == n);
        }
    }
    (next_a, next_b)
}

/// Solves equations by elimination, with the largest pivot of each column.
pub fn gauss<T: Real>(a: Vec<Vec<T>>, b: Vec<T>) -> (r: Vec<T>)
    requires
        (Equations { a: grid(a@), b: b@ }).square(b@.len() as int),
    ensures
        r@ == (Equations { a: grid(a@), b: b@ }).solution(),
        r@.len() == b@.len(),
{
    let n: usize = b.len();
    let ghost start = Equations { a: grid(a@), b: b@ };
    let mut a = a;
    let mut b = b;
    let mut i: usize = 0;
    while i < n
        invariant
            0 <= i <= n,
            b@.len() == n,
            start.b.len() == n,
            (Equations { a: grid(a@), b: b@ }) == start.steps(i as int),
            (Equations { a: grid(a@), b: b@ }).square(n as int),
        decreases n - i,
    {
        let (next_a, next_b) = solve_step(&a, &b, i);
        a = next_a;
        b = next_b;
        i = i + 1;
    }
    b
}

/// The places of the coefficients in use, in order.
pub open spec fn chosen(active: Seq<bool>) -> Seq<usize>
    decreases active.len(),
{
    if active.len() == 0 {
        Seq::empty()
    } else {
        let rest = chosen(active.drop_last());
        if active.last() {
            rest.push((active.len() - 1) as usize)
        } else {
            rest
        }
    }
}

/// What the coefficients are solved from: the products of the centred factors
/// with each other and with the outcomes.
#[verifier::ext_equal]
pub struct Moments<T> {
    pub xtx: Seq<Seq<T>>,
    pub xty: Seq<T>,
}

/// `c[k]` where that is in use, at its place among those in use; else zero.
pub open spec fn scattered<T: Real>(active: Seq<bool>, c: Seq<T>) -> Seq<T> {
    Seq::new(
        active.len(),
        |k: int|
            if active[k] {
                c[chosen(active.take(k)).len() as int]
            } else {
                zero_spec()
            },
    )
}

impl<T: Real> Moments<T> {
    /// The equations for the coefficients in use, drawn towards the prior.
    pub open spec fn equations(
        self,
        prior: Seq<T>,
        lambda: T,
        active: Seq<bool>,
    ) -> Equations<T> {
        let idx = chosen(active);
        Equations {
            a: Seq::new(
                idx.len(),
                |i: int|
                    Seq::new(
                        idx.len(),
                        |j: int|
                            if i == j {
                                self.xtx[idx[i] as int][idx[j] as int].plus_spec(lambda)
                            } else {
                                self.xtx[idx[i] as int][idx[j] as int]
                            },
                    ),
            ),
            b: Seq::new(
                idx.len(),
                |i: int|
                    self.xty[idx[i] as int].plus_spec(lambda.times_spec(prior[idx[i] as int])),
            ),
        }
    }

    /// The coefficients in use, solved for; the others are zero.
    pub open spec fn solved(self, prior: Seq<T>, lambda: T, active: Seq<bool>) -> Seq<T> {
        scattered(active, self.equations(prior, lambda, active).solution())
    }

    /// Coefficients in use that come out below zero are taken out of use, and
    /// the others solved for again, at most `rounds` times.
    pub open spec fn fitted(
        self,
        prior: Seq<T>,
        lambda: T,
        active: Seq<bool>,
        rounds: int,
    ) -> Seq<T>
        decreases rounds,
    {
        let beta = self.solved(prior, lambda, active);
        if rounds <= 1 || !some_dropped(active, beta) {
            without_dropped(active, beta)
        } else {
            self.fitted(prior, lambda, still_active(active, beta), rounds - 1)
        }
    }
}

/// Is coefficient `k` in use, but below zero?
pub open spec fn dropped<T: Real>(active: Seq<bool>, beta: Seq<T>, k: int) -> bool {
    active[k] && beta[k].below_spec(zero_spec())
}

pub open spec fn some_dropped<T: Real>(active: Seq<bool>, beta: Seq<T>) -> bool {
    exists|k: int| 0 <= k < active.len() && #[trigger] dropped(active, beta, k)
}

pub open spec fn still_active<T: Real>(active: Seq<bool>, beta: Seq<T>) -> Seq<bool> {
    Seq::new(active.len(), |k: int| active[k] && !dropped(active, beta, k))
}

pub open spec fn without_dropped<T: Real>(active: Seq<bool>, beta: Seq<T>) -> Seq<T> {
    Seq::new(
        active.len(),
        |k: int|
            if dropped(active, beta, k) {
                zero_spec()
            } else {
                beta[k]
            },
    )
}

proof fn lemma_chosen(active: Seq<bool>, k: int)
    requires
        0 <= k < active.len() <= usize::MAX,
        active[k],
    ensures
        chosen(active.take(k)).len() < chosen(active).len(),
    decreases active.len(),
{
    if k == active.len() - 1 {
        assert(active.take(k) =~= active.drop_last());
    } else {
        assert(active.drop_last().take(k) =~= active.take(k));
        lemma_chosen(active.drop_last(), k);
    }
}

/// The coefficients in use, solved for; the others are zero.
fn solve_active<T: Real>(
    xtx: &[[T; FEATURE_COUNT]; FEATURE_COUNT],
    xty: &[T; FEATURE_COUNT],
    prior: &[T; FEATURE_COUNT],
    lambda: T,
    active: &[bool; FEATURE_COUNT],
) -> (r: [T; FEATURE_COUNT])
    ensures
        r@ == moments_of(xtx@, xty@).solved(prior@, lambda, active@),
{
    let ghost goal = moments_of(xtx@, xty@).equations(prior@, lambda, active@);
    let mut idx: Vec<usize> = Vec::new();
    let mut k: usize = 0;
    assert(active@.take(0) =~= Seq::<bool>::empty());
    while k < FEATURE_COUNT
        invariant
            0 <= k <= FEATURE_COUNT,
            idx@ == chosen(active@.take(k as int)),
            forall|i: int| 0 <= i < idx@.len() ==> (#[trigger] idx@[i]) < FEATURE_COUNT,
        decreases FEATURE_COUNT - k,
    {
        assert(active@.take(k + 1).drop_last() =~= active@.take(k as int));
        assert(active@.take(k + 1).last() == active@[k as int]);
        if active[k] {
            idx.push(k);
        }
        k = k + 1;
    }
    assert(active@.take(FEATURE_COUNT as int) =~= active@);
    let m: usize = idx.len();
    let mut a: Vec<Vec<T>> = Vec::new();
    let mut b: Vec<T> = Vec::new();
    let mut i: usize = 0;
    while i < m
        invariant
            0 <= i <= m,
            m == idx@.len(),
            idx@ == chosen(active@),
            forall|j: int| 0 <= j < idx@.len() ==> (#[trigger] idx@[j]) < FEATURE_COUNT,
            goal == moments_of(xtx@, xty@).equations(prior@, lambda, active@),
            a@.len() == i,
            b@ == goal.b.take(i as int),
            forall|j: int| 0 <= j < i ==> (#[trigger] a@[j])@ == goal.a[j],
        decreases m - i,
    {
        let ii: usize = idx[i];
        let mut row: Vec<T> = Vec::new();
        let mut j: usize = 0;
        while j < m
            invariant
                0 <= j <= m,
                0 <= i < m,
                m == idx@.len(),
                idx@ == chosen(active@),
                ii == idx@[i as int],
                ii < FEATURE_COUNT,
                forall|c: int| 0 <= c < idx@.len() ==> (#[trigger] idx@[c]) < FEATURE_COUNT,
                goal == moments_of(xtx@, xty@).equations(prior@, lambda, active@),
                row@ == goal.a[i as int].take(j as int),
            decreases m - j,
        {
            assert(goal.a[i as int].take(j + 1) =~= goal.a[i as int].take(j as int).push(
                goal.a[i as int][j as int],
            ));
            let x = xtx[ii][idx[j]];
            if i == j {
                row.push(x.plus(lambda));
            } else {
                row.push(x);
            }
            j = j + 1;
        }
        assert(goal.a[i as int].take(m as int) =~= goal.a[i as int]);
        assert(goal.b.take(i + 1) =~= goal.b.take(i as int).push(goal.b[i as int]));
        a.push(row);
        b.push(xty[ii].plus(lambda.times(prior[ii])));
        i = i + 1;
    }
    proof {
        assert(goal.b.take(m as int) =~= goal.b);
        assert(grid(a@) =~= goal.a);
        assert forall|r: int| 0 <= r < m implies (#[trigger] grid(a@)[r]).len() == m by {
            assert(goal.a[r].len() == m);
        }
        assert((Equations { a: grid(a@), b: b@ }) =~= goal);
    }
    let sol = gauss(a, b);
    let mut beta = [zero::<T>(); FEATURE_COUNT];
    let mut at: usize = 0;
    let mut k: usize = 0;
    while k < FEATURE_COUNT
        invariant
            0 <= k <= FEATURE_COUNT,
            at == chosen(active@.take(k as int)).len(),
            at <= k,
            sol@ == goal.solution(),
            sol@.len() == chosen(active@).len(),
            forall|c: int|
                0 <= c < k ==> (#[trigger] beta@[c]) == scattered(active@, goal.solution())[c],
            forall|c: int| k <= c < FEATURE_COUNT ==> (#[trigger] beta@[c]) == zero_spec::<T>(),
        decreases FEATURE_COUNT - k,
    {
        assert(active@.take(k + 1).drop_last() =~= active@.take(k as int));
        assert(active@.take(k + 1).last() == active@[k as int]);
        if active[k] {
            proof {
                lemma_chosen(active@, k as int);
            }
            beta[k] = sol[at];
            at = at + 1;
        }
        k = k + 1;
    }
    assert(beta@ =~= scattered(active@, goal.solution()));
    beta
}

/// Moments that are held in arrays.
pub open spec fn moments_of<T: Real>(
    xtx: Seq<[T; FEATURE_COUNT]>,
    xty: Seq<T>,
) -> Moments<T> {
    Moments { xtx: xtx.map_values(|r: [T; FEATURE_COUNT]| r@), xty }
}

/// The samples that a fit is made from: factors and outcomes, pair by pair.
pub struct Samples<T> {
    pub xs: Seq<[T; FEATURE_COUNT]>,
    pub ys: Seq<T>,
}

/// `init - s[0] - s[1] - ..`, taken off from the left.
pub open spec fn reduced<T: Real>(init: T, s: Seq<T>) -> T
    decreases s.len(),
{
    if s.len() == 0 {
        init
    } else {
        reduced(init, s.drop_last()).minus_spec(s.last())
    }
}

impl<T: Real> Samples<T> {
    /// How many pairs there are.
    pub open spec fn pairs(self) -> nat {
        if self.xs.len() <= self.ys.len() {
            self.xs.len()
        } else {
            self.ys.len()
        }
    }

    /// The values of factor `k`.
    pub open spec fn factor(self, k: int) -> Seq<T> {
        Seq::new(self.pairs(), |i: int| self.xs[i]@[k])
    }

    /// The mean of factor `k`.
    pub open spec fn x_mean(self, k: int) -> T {
        accumulate(zero_spec(), self.factor(k)).over_spec(count_spec(self.xs.len() as int))
    }

    pub open spec fn x_means(self) -> Seq<T> {
        Seq::new(FEATURE_COUNT as nat, |k: int| self.x_mean(k))
    }

    /// The mean outcome.
    pub open spec fn y_mean(self) -> T {
        accumulate(zero_spec(), self.ys.take(self.pairs() as int)).over_spec(
            count_spec(self.xs.len() as int),
        )
    }

    /// How far factor `k` of pair `i` lies from its mean.
    pub open spec fn x_off(self, i: int, k: int) -> T {
        self.xs[i]@[k].minus_spec(self.x_mean(k))
    }

    /// How far the outcome of pair `i` lies from the mean.
    pub open spec fn y_off(self, i: int) -> T {
        self.ys[i].minus_spec(self.y_mean())
    }

    /// The products of the centred factors `k` and `j`.
    pub open spec fn cross(self, k: int, j: int) -> Seq<T> {
        Seq::new(self.pairs(), |i: int| self.x_off(i, k).times_spec(self.x_off(i, j)))
    }

    /// The products of the centred factor `k` with the centred outcome.
    pub open spec fn with_outcome(self, k: int) -> Seq<T> {
        Seq::new(self.pairs(), |i: int| self.x_off(i, k).times_spec(self.y_off(i)))
    }

    pub open spec fn moments(self) -> Moments<T> {
        Moments {
            xtx: Seq::new(
                FEATURE_COUNT as nat,
                |k: int|
                    Seq::new(
                        FEATURE_COUNT as nat,
                        |j: int| accumulate(zero_spec(), self.cross(k, j)),
                    ),
            ),
            xty: Seq::new(
                FEATURE_COUNT as nat,
                |k: int| accumulate(zero_spec(), self.with_outcome(k)),
            ),
        }
    }

    /// The coefficients: none below zero, and drawn towards the prior by `lambda`.
    pub open spec fn beta(self, prior: Seq<T>, lambda: T) -> Seq<T> {
        let fitted = self.moments().fitted(
            prior,
            lambda,
            Seq::new(FEATURE_COUNT as nat, |k: int| true),
            ROUNDS as int,
        );
        Seq::new(FEATURE_COUNT as nat, |k: int| larger_spec(fitted[k], zero_spec()))
    }

    /// The intercept: the mean outcome less what the mean factors predict.
    pub open spec fn intercept(self, beta: Seq<T>) -> T {
        reduced(self.y_mean(), products(beta, self.x_means()))
    }
}

/// `a[k] + b[k]` for each factor.
fn each_plus<T: Real>(a: &[T; FEATURE_COUNT], b: &[T; FEATURE_COUNT]) -> (r: [T; FEATURE_COUNT])
    ensures
        forall|k: int| 0 <= k < FEATURE_COUNT ==> (#[trigger] r@[k]) == a@[k].plus_spec(b@[k]),
{
    let mut r = *a;
    let mut k: usize = 0;
    while k < FEATURE_COUNT
        invariant
            0 <= k <= FEATURE_COUNT,
            forall|c: int| 0 <= c < k ==> (#[trigger] r@[c]) == a@[c].plus_spec(b@[c]),
            forall|c: int| k <= c < FEATURE_COUNT ==> (#[trigger] r@[c]) == a@[c],
        decreases FEATURE_COUNT - k,
    {
        r[k] = r[k].plus(b[k]);
        k = k + 1;
    }
    r
}

/// `a[k] + f * x[k]` for each factor.
fn each_plus_times<T: Real>(a: &[T; FEATURE_COUNT], f: T, x: &[T; FEATURE_COUNT]) -> (r: [T;
    FEATURE_COUNT])
    ensures
        forall|k: int|
            0 <= k < FEATURE_COUNT ==> (#[trigger] r@[k]) == a@[k].plus_spec(f.times_spec(x@[k])),
{
    let mut r = *a;
    let mut k: usize = 0;
    while k < FEATURE_COUNT
        invariant
            0 <= k <= FEATURE_COUNT,
            forall|c: int|
                0 <= c < k ==> (#[trigger] r@[c]) == a@[c].plus_spec(f.times_spec(x@[c])),
            forall|c: int| k <= c < FEATURE_COUNT ==> (#[trigger] r@[c]) == a@[c],
        decreases FEATURE_COUNT - k,
    {
        r[k] = r[k].plus(f.times(x[k]));
        k = k + 1;
    }
    r
}

/// The means of the factors and of the outcomes.
fn means<T: Real>(xs: &[[T; FEATURE_COUNT]], ys: &[T], m: usize) -> (r: ([T; FEATURE_COUNT], T))
    requires
        xs@.len() <= i64::MAX,
        m == (Samples { xs: xs@, ys: ys@ }).pairs(),
    ensures
        r.0@ == (Samples { xs: xs@, ys: ys@ }).x_means(),
        r.1 == (Samples { xs: xs@, ys: ys@ }).y_mean(),
{
    let ghost s = Samples { xs: xs@, ys: ys@ };
    let mut xbar = [zero::<T>(); FEATURE_COUNT];
    let mut ybar = zero::<T>();
    let mut i: usize = 0;
    proof {
        assert(s.ys.take(m as int).take(0) =~= Seq::<T>::empty());
        assert forall|k: int| 0 <= k < FEATURE_COUNT implies (#[trigger] xbar@[k]) == accumulate(
            zero_spec(),
            s.factor(k).take(0),
        ) by {
            assert(s.factor(k).take(0) =~= Seq::<T>::empty());
        }
    }
    while i < m
        invariant
            0 <= i <= m,
            m == s.pairs(),
            s == (Samples { xs: xs@, ys: ys@ }),
            ybar == accumulate(zero_spec(), s.ys.take(m as int).take(i as int)),
            forall|k: int|
                0 <= k < FEATURE_COUNT ==> (#[trigger] xbar@[k]) == accumulate(
                    zero_spec(),
                    s.factor(k).take(i as int),
                ),
        decreases m - i,
    {
        let ghost before = xbar@;
        ybar = ybar.plus(ys[i]);
        xbar = each_plus(&xbar, &xs[i]);
        proof {
            lemma_accumulate_step(zero_spec(), s.ys.take(m as int), i as int);
            assert forall|k: int| 0 <= k < FEATURE_COUNT implies (#[trigger] xbar@[k])
                == accumulate(zero_spec(), s.factor(k).take(i + 1)) by {
                assert(before[k] == accumulate(zero_spec(), s.factor(k).take(i as int)));
                lemma_accumulate_step(zero_spec(), s.factor(k), i as int);
            }
        }
        i = i + 1;
    }
    let n = count::<T>(xs.len() as i64);
    let ghost sums = xbar@;
    proof {
        assert(s.ys.take(m as int).take(m as int) =~= s.ys.take(m as int));
        assert forall|k: int| 0 <= k < FEATURE_COUNT implies (#[trigger] sums[k]) == accumulate(
            zero_spec(),
            s.factor(k),
        ) by {
            assert(s.factor(k).take(m as int) =~= s.factor(k));
        }
    }
    let mut k: usize = 0;
    while k < FEATURE_COUNT
        invariant
            0 <= k <= FEATURE_COUNT,
            forall|c: int| 0 <= c < k ==> (#[trigger] xbar@[c]) == sums[c].over_spec(n),
            forall|c: int| k <= c < FEATURE_COUNT ==> (#[trigger] xbar@[c]) == sums[c],
        decreases FEATURE_COUNT - k,
    {
        xbar[k] = xbar[k].over(n);
        k = k + 1;
    }
    assert(xbar@ =~= s.x_means());
    (xbar, ybar.over(n))
}

/// The moments of the centred pairs.
#[verifier::rlimit(40)]
fn moments<T: Real>(
    xs: &[[T; FEATURE_COUNT]],
    ys: &[T],
    m: usize,
    xbar: &[T; FEATURE_COUNT],
    ybar: T,
) -> (r: ([[T; FEATURE_COUNT]; FEATURE_COUNT], [T; FEATURE_COUNT]))
    requires
        m == (Samples { xs: xs@, ys: ys@ }).pairs(),
        xbar@ == (Samples { xs: xs@, ys: ys@ }).x_means(),
        ybar == (Samples { xs: xs@, ys: ys@ }).y_mean(),
    ensures
        moments_of(r.0@, r.1@) == (Samples { xs: xs@, ys: ys@ }).moments(),
{
    let ghost s = Samples { xs: xs@, ys: ys@ };
    let mut xtx = [[zero::<T>(); FEATURE_COUNT]; FEATURE_COUNT];
    let mut xty = [zero::<T>(); FEATURE_COUNT];
    let mut i: usize = 0;
    proof {
        assert forall|k: int| 0 <= k < FEATURE_COUNT implies (#[trigger] xty@[k]) == accumulate(
            zero_spec(),
            s.with_outcome(k).take(0),
        ) by {
            assert(s.with_outcome(k).take(0) =~= Seq::<T>::empty());
        }
        assert forall|k: int, j: int| 0 <= k < FEATURE_COUNT && 0 <= j < FEATURE_COUNT implies (
        #[trigger] xtx@[k]@[j]) == accumulate(zero_spec(), s.cross(k, j).take(0)) by {
            assert(s.cross(k, j).take(0) =~= Seq::<T>::empty());
        }
    }
    while i < m
        invariant
            0 <= i <= m,
            m == s.pairs(),
            s == (Samples { xs: xs@, ys: ys@ }),
            xbar@ == s.x_means(),
            ybar == s.y_mean(),
            forall|k: int|
                0 <= k < FEATURE_COUNT ==> (#[trigger] xty@[k]) == accumulate(
                    zero_spec(),
                    s.with_outcome(k).take(i as int),
                ),
            forall|k: int, j: int|
                0 <= k < FEATURE_COUNT && 0 <= j < FEATURE_COUNT ==> (#[trigger] xtx@[k]@[j])
                    == accumulate(zero_spec(), s.cross(k, j).take(i as int)),
        decreases m - i,
    {
        let ghost xtx0 = xtx@;
        let ghost xty0 = xty@;
        let xc = centred(&xs[i], xbar);
        let yc = ys[i].minus(ybar);
        proof {
            assert forall|k: int| 0 <= k < FEATURE_COUNT implies (#[trigger] xc@[k]) == s.x_off(
                i as int,
                k,
            ) by {
                assert(s.x_means()[k] == s.x_mean(k));
            }
        }
        let mut k: usize = 0;
        while k < FEATURE_COUNT
            invariant
                0 <= k <= FEATURE_COUNT,
                0 <= i < m,
                m == s.pairs(),
                yc == s.y_off(i as int),
                forall|c: int|
                    0 <= c < FEATURE_COUNT ==> (#[trigger] xc@[c]) == s.x_off(i as int, c),
                forall|c: int|
                    0 <= c < k ==> (#[trigger] xty@[c]) == xty0[c].plus_spec(
                        s.with_outcome(c)[i as int],
                    ),
                forall|c: int| k <= c < FEATURE_COUNT ==> (#[trigger] xty@[c]) == xty0[c],
                forall|c: int, j: int|
                    0 <= c < k && 0 <= j < FEATURE_COUNT ==> (#[trigger] xtx@[c]@[j])
                        == xtx0[c]@[j].plus_spec(s.cross(c, j)[i as int]),
                forall|c: int| k <= c < FEATURE_COUNT ==> (#[trigger] xtx@[c]) == xtx0[c],
            decreases FEATURE_COUNT - k,
        {
            xty[k] = xty[k].plus(xc[k].times(yc));
            let row = each_plus_times(&xtx[k], xc[k], &xc);
            xtx[k] = row;
            k = k + 1;
        }
        proof {
            assert forall|c: int| 0 <= c < FEATURE_COUNT implies (#[trigger] xty@[c])
                == accumulate(zero_spec(), s.with_outcome(c).take(i + 1)) by {
                lemma_accumulate_step(zero_spec(), s.with_outcome(c), i as int);
                assert(xty0[c] == accumulate(zero_spec(), s.with_outcome(c).take(i as int)));
            }
            assert forall|c: int, j: int|
                0 <= c < FEATURE_COUNT && 0 <= j < FEATURE_COUNT implies (#[trigger] xtx@[c]@[j])
                == accumulate(zero_spec(), s.cross(c, j).take(i + 1)) by {
                lemma_accumulate_step(zero_spec(), s.cross(c, j), i as int);
                assert(xtx0[c]@[j] == accumulate(zero_spec(), s.cross(c, j).take(i as int)));
            }
        }
        i = i + 1;
    }
    proof {
        let goal = s.moments();
        let got = moments_of(xtx@, xty@);
        assert forall|k: int| 0 <= k < FEATURE_COUNT implies (#[trigger] got.xty[k])
            == goal.xty[k] by {
            assert(xty@[k] == accumulate(zero_spec(), s.with_outcome(k).take(m as int)));
            assert(s.with_outcome(k).take(m as int) =~= s.with_outcome(k));
        }
        assert(got.xty =~= goal.xty);
        assert forall|k: int| 0 <= k < FEATURE_COUNT implies (#[trigger] got.xtx[k])
            =~= goal.xtx[k] by {
            assert forall|j: int| 0 <= j < FEATURE_COUNT implies (#[trigger] got.xtx[k][j])
                == goal.xtx[k][j] by {
                assert(xtx@[k]@[j] == accumulate(zero_spec(), s.cross(k, j).take(m as int)));
                assert(s.cross(k, j).take(m as int) =~= s.cross(k, j));
            }
        }
        assert(got.xtx =~= goal.xtx);
    }
    (xtx, xty)
}

/// `x[k] - xbar[k]` for each factor.
fn centred<T: Real>(x: &[T; FEATURE_COUNT], xbar: &[T; FEATURE_COUNT]) -> (r: [T; FEATURE_COUNT])
    ensures
        forall|k: int| 0 <= k < FEATURE_COUNT ==> (#[trigger] r@[k]) == x@[k].minus_spec(xbar@[k]),
{
    let mut r = *x;
    let mut k: usize = 0;
    while k < FEATURE_COUNT
        invariant
            0 <= k <= FEATURE_COUNT,
            forall|c: int| 0 <= c < k ==> (#[trigger] r@[c]) == x@[c].minus_spec(xbar@[c]),
            forall|c: int| k <= c < FEATURE_COUNT ==> (#[trigger] r@[c]) == x@[c],
        decreases FEATURE_COUNT - k,
    {
        r[k] = r[k].minus(xbar[k]);
        k = k + 1;
    }
    r
}

/// Solves for the coefficients until none that is in use is below zero.
fn fit_active<T: Real>(
    xtx: &[[T; FEATURE_COUNT]; FEATURE_COUNT],
    xty: &[T; FEATURE_COUNT],
    prior: &[T; FEATURE_COUNT],
    lambda: T,
    active: &[bool; FEATURE_COUNT],
    rounds: usize,
) -> (r: [T; FEATURE_COUNT])
    ensures
        r@ == moments_of(xtx@, xty@).fitted(prior@, lambda, active@, rounds as int),
    decreases rounds,
{
    let mut beta = solve_active(xtx, xty, prior, lambda, active);
    let ghost solved = beta@;
    let mut next = *active;
    let mut clipped: bool = false;
    let mut k: usize = 0;
    while k < FEATURE_COUNT
        invariant
            0 <= k <= FEATURE_COUNT,
            solved.len() == FEATURE_COUNT,
            clipped == exists|c: int| 0 <= c < k && #[trigger] dropped(active@, solved, c),
            forall|c: int|
                0 <= c < k ==> (#[trigger] beta@[c]) == without_dropped(active@, solved)[c],
            forall|c: int| k <= c < FEATURE_COUNT ==> (#[trigger] beta@[c]) == solved[c],
            forall|c: int|
                0 <= c < k ==> (#[trigger] next@[c]) == still_active(active@, solved)[c],
            forall|c: int| k <= c < FEATURE_COUNT ==> (#[trigger] next@[c]) == active@[c],
        decreases FEATURE_COUNT - k,
    {
        let ghost was = clipped;
        let drop: bool = active[k] && beta[k].below(zero());
        assert(drop == dropped(active@, solved, k as int));
        if drop {
            next[k] = false;
            beta[k] = zero();
            clipped = true;
        }
        k = k + 1;
    }
    assert(beta@ =~= without_dropped(active@, solved));
    assert(next@ =~= still_active(active@, solved));
    assert(clipped == some_dropped(active@, solved));
    if rounds <= 1 || !clipped {
        beta
    } else {
        fit_active(xtx, xty, prior, lambda, &next, rounds - 1)
    }
}

/// Fits coefficients that are not below zero to factors and outcomes. They
/// are drawn towards the prior by `lambda`; the prior intercept has no say.
pub fn nonneg_ridge<T: Real>(
    xs: &[[T; FEATURE_COUNT]],
    ys: &[T],
    prior: &[T; FEATURE_COUNT],
    _prior_intercept: T,
    lambda: T,
) -> (r: HorizonParams<T>)
    requires
        xs@.len() <= i64::MAX,
    ensures
        r.beta@ == (Samples { xs: xs@, ys: ys@ }).beta(prior@, lambda),
        r.intercept == (Samples { xs: xs@, ys: ys@ }).intercept(r.beta@),
{
    let ghost s = Samples { xs: xs@, ys: ys@ };
    let m: usize = if xs.len() <= ys.len() {
        xs.len()
    } else {
        ys.len()
    };
    let (xbar, ybar) = means(xs, ys, m);
    let (xtx, xty) = moments(xs, ys, m, &xbar, ybar);
    let all = [true; FEATURE_COUNT];
    assert(all@ =~= Seq::new(FEATURE_COUNT as nat, |k: int| true));
    let mut beta = fit_active(&xtx, &xty, prior, lambda, &all, ROUNDS);
    let ghost fitted = beta@;
    let mut k: usize = 0;
    while k < FEATURE_COUNT
        invariant
            0 <= k <= FEATURE_COUNT,
            forall|c: int|
                0 <= c < k ==> (#[trigger] beta@[c]) == larger_spec(fitted[c], zero_spec()),
            forall|c: int| k <= c < FEATURE_COUNT ==> (#[trigger] beta@[c]) == fitted[c],
        decreases FEATURE_COUNT - k,
    {
        beta[k] = larger(beta[k], zero());
        k = k + 1;
    }
    assert(beta@ =~= s.beta(prior@, lambda));
    let ghost terms = products(beta@, xbar@);
    let mut intercept = ybar;
    let mut k: usize = 0;
    assert(terms.take(0) =~= Seq::<T>::empty());
    while k < FEATURE_COUNT
        invariant
            0 <= k <= FEATURE_COUNT,
            terms == products(beta@, xbar@),
            intercept == reduced(ybar, terms.take(k as int)),
        decreases FEATURE_COUNT - k,
    {
        assert(terms.take(k + 1).drop_last() =~= terms.take(k as int));
        assert(terms.take(k + 1).last() == terms[k as int]);
        intercept = intercept.minus(beta[k].times(xbar[k]));
        k = k + 1;
    }
    assert(terms.take(FEATURE_COUNT as int) =~= terms);
    HorizonParams { intercept, beta }
}

/// No fitted coefficient is below zero, for numbers whose zero is a number and
/// not below itself.
pub proof fn lemma_beta_not_below_zero<T: Real>(
    s: Samples<T>,
    prior: Seq<T>,
    lambda: T,
    k: int,
)
    requires
        0 <= k < FEATURE_COUNT,
        !missing_spec(zero_spec::<T>()),
        !zero_spec::<T>().below_spec(zero_spec()),
    ensures
        !s.beta(prior, lambda)[k].below_spec(zero_spec()),
{
}

} // verus!
