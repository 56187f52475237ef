//! Distance-ordered enumeration of timestamp-delta pairs.
//!
//! Index `n` (one-based) maps in closed form to the `n`-th point of a square
//! spiral around the origin: ring `s` holds the `8s` points at Chebyshev
//! distance `s`, walked right side up, top right to left, left side down,
//! bottom left to right.  The closed form makes the sequence a pure function
//! of the index, so it can be split for parallel consumption and restarted at
//! any point without walking there.

use vstd::prelude::*;
use vstd::arithmetic::div_mod::lemma_fundamental_div_mod_converse;
use rayon::iter::{IntoParallelIterator, ParallelIterator};

verus! {

/// The integer square root: the greatest `r` with `r * r <= n`.
pub open spec fn spec_isqrt(n: nat) -> nat
    decreases n,
{
    if n == 0 {
        0
    } else {
        let r = spec_isqrt((n - 1) as nat);
        if (r + 1) * (r + 1) <= n {
            r + 1
        } else {
            r
        }
    }
}

/// The defining bounds of the integer square root.
pub proof fn lemma_isqrt_bounds(n: nat)
    ensures
        spec_isqrt(n) * spec_isqrt(n) <= n,
        n < (spec_isqrt(n) + 1) * (spec_isqrt(n) + 1),
    decreases n,
{
    if n > 0 {
        lemma_isqrt_bounds((n - 1) as nat);
        let r = spec_isqrt((n - 1) as nat);
        assert(r * r <= n - 1);
        assert(((n - 1) as nat) < (r + 1) * (r + 1));
        if (r + 1) * (r + 1) <= n {
            assert(spec_isqrt(n) == r + 1);
            assert(n == (r + 1) * (r + 1));
            assert((r + 1) * (r + 1) < (r + 2) * (r + 2)) by (nonlinear_arith);
            assert(spec_isqrt(n) * spec_isqrt(n) <= n);
            assert(n < (spec_isqrt(n) + 1) * (spec_isqrt(n) + 1));
        } else {
            assert(spec_isqrt(n) == r);
            assert(n < (r + 1) * (r + 1));
            assert(spec_isqrt(n) * spec_isqrt(n) <= n);
            assert(n < (spec_isqrt(n) + 1) * (spec_isqrt(n) + 1));
        }
    } else {
        assert(spec_isqrt(0) == 0);
        assert(n < (spec_isqrt(n) + 1) * (spec_isqrt(n) + 1)) by (nonlinear_arith)
            requires n == 0, spec_isqrt(n) == 0;
    }
}

/// Squaring is monotone on the naturals.
proof fn lemma_square_monotone(a: int, b: int)
    requires
        0 <= a <= b,
    ensures
        a * a <= b * b,
{
    assert(a * a <= b * b) by (nonlinear_arith)
        requires 0 <= a <= b;
}

/// Anything within the square-root bounds is the square root.
pub proof fn lemma_isqrt_unique(n: nat, r: nat)
    requires
        r * r <= n,
        n < (r + 1) * (r + 1),
    ensures
        r == spec_isqrt(n),
{
    lemma_isqrt_bounds(n);
    let q = spec_isqrt(n);
    if r < q {
        lemma_square_monotone(r as int + 1, q as int);
        assert(false);
    }
    if q < r {
        lemma_square_monotone(q as int + 1, r as int);
        assert(false);
    }
}

/// The ring (Chebyshev distance from the origin) that index `n` falls in.
pub open spec fn ring_of(n: int) -> int
    recommends
        n >= 1,
{
    (spec_isqrt(n as nat) + 1) as int / 2
}

/// Every index from one onward falls in a ring `s >= 1`, between the last
/// index of ring `s - 1` and the last index of ring `s`.
pub proof fn lemma_ring_bounds(n: int)
    requires
        n >= 1,
    ensures
        ring_of(n) >= 1,
        (2 * ring_of(n) - 1) * (2 * ring_of(n) - 1) <= n,
        n < (2 * ring_of(n) + 1) * (2 * ring_of(n) + 1),
{
    lemma_isqrt_bounds(n as nat);
    let q = spec_isqrt(n as nat) as int;
    let s = ring_of(n);
    assert(q >= 1) by {
        if q == 0 {
            assert((spec_isqrt(n as nat) + 1) * (spec_isqrt(n as nat) + 1) == 1)
                by (nonlinear_arith)
                requires spec_isqrt(n as nat) == 0;
        }
    }
    assert(s == (q + 1) / 2);
    assert(2 * s <= q + 1 < 2 * s + 2) by {
        lemma_fundamental_div_mod_converse(q + 1, 2, s, q + 1 - 2 * s);
        assert((q + 1) % 2 == q + 1 - 2 * ((q + 1) / 2));
    }
    assert(2 * s - 1 <= q);
    lemma_square_monotone(2 * s - 1, q);
    assert(q + 1 <= 2 * s + 1);
    lemma_square_monotone(q + 1, 2 * s + 1);
}

/// Ring bounds determine the ring.
pub proof fn lemma_ring_unique(n: int, s: int)
    requires
        s >= 1,
        (2 * s - 1) * (2 * s - 1) <= n,
        n < (2 * s + 1) * (2 * s + 1),
    ensures
        ring_of(n) == s,
{
    assert(n >= 1) by {
        assert((2 * s - 1) * (2 * s - 1) >= 1) by (nonlinear_arith)
            requires s >= 1;
    }
    lemma_ring_bounds(n);
    let t = ring_of(n);
    if t < s {
        lemma_square_monotone(2 * t + 1, 2 * s - 1);
        assert(false);
    }
    if s < t {
        lemma_square_monotone(2 * s + 1, 2 * t - 1);
        assert(false);
    }
}

/// The Chebyshev distance of a pair from the origin.
pub open spec fn cheb(x: int, y: int) -> int {
    let ax = if x < 0 { -x } else { x };
    let ay = if y < 0 { -y } else { y };
    if ax >= ay { ax } else { ay }
}

/// The pair at (one-based) index `n` of the spiral.
pub open spec fn spec_pair(n: int) -> (int, int)
    recommends
        n >= 1,
{
    let s = ring_of(n);
    let m = n - (2 * s - 1) * (2 * s - 1);
    let l = m / (2 * s);
    let e = m - 2 * s * l - s + 1;
    if l == 0 {
        (s, e)
    } else if l == 1 {
        (-e, s)
    } else if l == 2 {
        (-s, -e)
    } else {
        (e, -s)
    }
}

/// The index at which a pair (other than the origin) appears in the spiral.
pub open spec fn spec_index_of(x: int, y: int) -> int
    recommends
        !(x == 0 && y == 0),
{
    let s = cheb(x, y);
    let base = (2 * s - 1) * (2 * s - 1);
    if x == s && y != -s {
        base + (y + s - 1)
    } else if y == s {
        base + 2 * s + (-x + s - 1)
    } else if x == -s {
        base + 4 * s + (-y + s - 1)
    } else {
        base + 6 * s + (x + s - 1)
    }
}

/// Facts about the side and offset of index `n` within its ring.
proof fn lemma_side_decomposition(n: int)
    requires
        n >= 1,
    ensures
        ({
            let s = ring_of(n);
            let m = n - (2 * s - 1) * (2 * s - 1);
            let l = m / (2 * s);
            let e = m - 2 * s * l - s + 1;
            &&& 0 <= m < 8 * s
            &&& 0 <= l <= 3
            &&& 1 - s <= e <= s
            &&& m == 2 * s * l + (e + s - 1)
        }),
{
    lemma_ring_bounds(n);
    let s = ring_of(n);
    let m = n - (2 * s - 1) * (2 * s - 1);
    assert((2 * s + 1) * (2 * s + 1) - (2 * s - 1) * (2 * s - 1) == 8 * s) by (nonlinear_arith);
    assert(0 <= m < 8 * s);
    let l = m / (2 * s);
    let r = m % (2 * s);
    vstd::arithmetic::div_mod::lemma_fundamental_div_mod(m, 2 * s);
    assert(0 <= r < 2 * s) by {
        vstd::arithmetic::div_mod::lemma_mod_bound(m, 2 * s);
    }
    assert(m == 2 * s * l + r);
    assert(0 <= l <= 3) by (nonlinear_arith)
        requires m == 2 * s * l + r, 0 <= r < 2 * s, 0 <= m < 8 * s, s >= 1;
    let e = m - 2 * s * l - s + 1;
    assert(e == r - s + 1);
}

/// The pair at index `n` lies on ring `ring_of(n)`, and its index is `n`.
pub proof fn lemma_pair_index(n: int)
    requires
        n >= 1,
    ensures
        cheb(spec_pair(n).0, spec_pair(n).1) == ring_of(n),
        spec_index_of(spec_pair(n).0, spec_pair(n).1) == n,
        !(spec_pair(n).0 == 0 && spec_pair(n).1 == 0),
{
    lemma_ring_bounds(n);
    lemma_side_decomposition(n);
    let s = ring_of(n);
    let m = n - (2 * s - 1) * (2 * s - 1);
    let l = m / (2 * s);
    let e = m - 2 * s * l - s + 1;
    if l == 0 {
        assert(2 * s * l == 0) by (nonlinear_arith)
            requires l == 0;
        assert(m == e + s - 1);
        assert(spec_pair(n) == (s, e));
        assert(cheb(s, e) == s);
        assert(e != -s);
        assert(spec_index_of(s, e) == n);
    } else if l == 1 {
        assert(2 * s * l == 2 * s) by (nonlinear_arith)
            requires l == 1;
        assert(m == 2 * s + (e + s - 1));
        assert(spec_pair(n) == (-e, s));
        assert(cheb(-e, s) == s);
        assert(-e != s);
        assert(spec_index_of(-e, s) == n);
    } else if l == 2 {
        assert(2 * s * l == 4 * s) by (nonlinear_arith)
            requires l == 2;
        assert(m == 4 * s + (e + s - 1));
        assert(spec_pair(n) == (-s, -e));
        assert(cheb(-s, -e) == s);
        assert(-s != s && -e != s);
        assert(spec_index_of(-s, -e) == n);
    } else {
        assert(l == 3);
        assert(2 * s * l == 6 * s) by (nonlinear_arith)
            requires l == 3;
        assert(m == 6 * s + (e + s - 1));
        assert(spec_pair(n) == (e, -s));
        assert(cheb(e, -s) == s);
        assert(!(e == s && -s != -s));
        assert(e != -s);
        assert(spec_index_of(e, -s) == n);
    }
}

/// Every pair other than the origin appears in the spiral, at an index
/// within its ring's band.
pub proof fn lemma_index_pair(x: int, y: int)
    requires
        !(x == 0 && y == 0),
    ensures
        ({
            let s = cheb(x, y);
            let n = spec_index_of(x, y);
            &&& s >= 1
            &&& (2 * s - 1) * (2 * s - 1) <= n < (2 * s + 1) * (2 * s + 1)
            &&& spec_pair(n) == (x, y)
        }),
{
    let s = cheb(x, y);
    let n = spec_index_of(x, y);
    let base = (2 * s - 1) * (2 * s - 1);
    assert(s >= 1);
    let (l, off): (int, int) = if x == s && y != -s {
        (0int, y + s - 1)
    } else if y == s {
        (1int, -x + s - 1)
    } else if x == -s {
        (2int, -y + s - 1)
    } else {
        (3int, x + s - 1)
    };
    assert(0 <= off < 2 * s);
    assert(l == 0 ==> 2 * s * l == 0) by (nonlinear_arith);
    assert(l == 1 ==> 2 * s * l == 2 * s) by (nonlinear_arith);
    assert(l == 2 ==> 2 * s * l == 4 * s) by (nonlinear_arith);
    assert(l == 3 ==> 2 * s * l == 6 * s) by (nonlinear_arith);
    assert(n == base + 2 * s * l + off);
    assert(0 <= 2 * s * l + off < 8 * s) by (nonlinear_arith)
        requires 0 <= l <= 3, 0 <= off < 2 * s, s >= 1;
    assert((2 * s + 1) * (2 * s + 1) - (2 * s - 1) * (2 * s - 1) == 8 * s) by (nonlinear_arith);
    lemma_ring_unique(n, s);
    let m = n - base;
    assert(l * (2 * s) == 2 * s * l) by (nonlinear_arith);
    lemma_fundamental_div_mod_converse(m, 2 * s, l, off);
    assert(m / (2 * s) == l);
    let e = m - 2 * s * l - s + 1;
    assert(e == off - s + 1);
    if l == 0 {
        assert(spec_pair(n) == (s, e));
        assert(e == y);
    } else if l == 1 {
        assert(spec_pair(n) == (-e, s));
        assert(e == -x);
    } else if l == 2 {
        assert(spec_pair(n) == (-s, -e));
        assert(e == -y);
    } else {
        assert(spec_pair(n) == (e, -s));
        assert(e == x);
    }
}

/// Later indices never fall on an earlier ring.
pub proof fn lemma_ring_monotone(m: int, n: int)
    requires
        1 <= m <= n,
    ensures
        ring_of(m) <= ring_of(n),
{
    lemma_ring_bounds(m);
    lemma_ring_bounds(n);
    let sm = ring_of(m);
    let sn = ring_of(n);
    if sn < sm {
        lemma_square_monotone(2 * sn + 1, 2 * sm - 1);
        assert(false);
    }
}

/// An index inside the window of bound `v` lies on a ring between one and `v`.
pub proof fn lemma_pair_in_window(v: int, n: int)
    requires
        v >= 0,
        1 <= n <= (2 * v + 1) * (2 * v + 1) - 1,
    ensures
        1 <= ring_of(n) <= v,
{
    lemma_ring_bounds(n);
    let s = ring_of(n);
    if s > v {
        lemma_square_monotone(2 * v + 1, 2 * s - 1);
        assert(false);
    }
}

/// The full enumeration for bound `v`: the pairs at indices one through
/// `(2v+1)^2 - 1`.
pub open spec fn spiral_seq(v: int) -> Seq<(int, int)> {
    Seq::new(((2 * v + 1) * (2 * v + 1) - 1) as nat, |i: int| spec_pair(i + 1))
}

/// Law: the enumeration of bound `v >= 1` has exactly `(2v+1)^2 - 1` entries;
/// no pair repeats; every pair lies within Chebyshev distance `v` of the
/// origin and is not the origin; the ring index never decreases along the
/// sequence; and every non-origin pair within distance `v` occurs.
pub proof fn lemma_spiral_enumeration(v: int)
    requires
        v >= 1,
    ensures
        spiral_seq(v).len() == (2 * v + 1) * (2 * v + 1) - 1,
        forall|i: int, j: int|
            0 <= i < j < spiral_seq(v).len() ==> spiral_seq(v)[i] != spiral_seq(v)[j],
        forall|i: int|
            0 <= i < spiral_seq(v).len() ==> 1 <= cheb(
                (#[trigger] spiral_seq(v)[i]).0,
                spiral_seq(v)[i].1,
            ) <= v,
        forall|i: int, j: int|
            0 <= i <= j < spiral_seq(v).len() ==> cheb(
                (#[trigger] spiral_seq(v)[i]).0,
                spiral_seq(v)[i].1,
            ) <= cheb((#[trigger] spiral_seq(v)[j]).0, spiral_seq(v)[j].1),
        forall|x: int, y: int|
            !(x == 0 && y == 0) && cheb(x, y) <= v ==> #[trigger] spiral_seq(v).contains((x, y)),
{
    let len = (2 * v + 1) * (2 * v + 1) - 1;
    assert((2 * v + 1) * (2 * v + 1) - 1 >= 8) by (nonlinear_arith)
        requires v >= 1;
    assert(spiral_seq(v).len() == len);
    assert forall|i: int, j: int|
        0 <= i < j < spiral_seq(v).len() implies spiral_seq(v)[i] != spiral_seq(v)[j] by {
        lemma_pair_index(i + 1);
        lemma_pair_index(j + 1);
    }
    assert forall|i: int|
        0 <= i < spiral_seq(v).len() implies 1 <= cheb(
        (#[trigger] spiral_seq(v)[i]).0,
        spiral_seq(v)[i].1,
    ) <= v by {
        lemma_pair_index(i + 1);
        lemma_pair_in_window(v, i + 1);
    }
    assert forall|i: int, j: int|
        0 <= i <= j < spiral_seq(v).len() implies cheb(
        (#[trigger] spiral_seq(v)[i]).0,
        spiral_seq(v)[i].1,
    ) <= cheb((#[trigger] spiral_seq(v)[j]).0, spiral_seq(v)[j].1) by {
        lemma_pair_index(i + 1);
        lemma_pair_index(j + 1);
        lemma_ring_monotone(i + 1, j + 1);
    }
    assert forall|x: int, y: int|
        !(x == 0 && y == 0) && cheb(x, y) <= v implies #[trigger] spiral_seq(v).contains(
        (x, y),
    ) by {
        lemma_index_pair(x, y);
        let s = cheb(x, y);
        let n = spec_index_of(x, y);
        lemma_square_monotone(2 * s + 1, 2 * v + 1);
        assert(n <= len);
        assert(spiral_seq(v)[n - 1] == (x, y));
    }
}

/// The integer square root, by binary search.
fn isqrt64(n: u64) -> (r: u64)
    requires
        n < 0x4000_0000_0000_0000,
    ensures
        r as nat == spec_isqrt(n as nat),
{
    let mut lo: u64 = 0;
    let mut hi: u64 = 0x7fff_ffff;
    proof {
        assert((0x7fff_ffffu64 + 1) * (0x7fff_ffffu64 + 1) > n);
    }
    while lo < hi
        invariant
            0 <= lo <= hi <= 0x7fff_ffff,
            lo * lo <= n,
            n < (hi + 1) * (hi + 1),
        decreases hi - lo,
    {
        let mid = lo + (hi - lo + 1) / 2;
        proof {
            assert(lo < mid <= hi);
            assert(mid * mid <= 0x7fff_ffffu64 * 0x7fff_ffffu64) by (nonlinear_arith)
                requires 0 <= mid <= 0x7fff_ffffu64;
        }
        if mid * mid <= n {
            lo = mid;
        } else {
            hi = mid - 1;
            proof {
                assert(n < mid * mid);
            }
        }
    }
    proof {
        lemma_isqrt_unique(n as nat, lo as nat);
    }
    lo
}

/// The spiral over a maximum variance: the finite, distance-ordered sequence
/// of delta pairs bounded by `max` in Chebyshev distance.
pub struct Spiral {
    max: i64,
}

impl Spiral {
    /// The bound the spiral was made with.
    pub closed spec fn spec_max(&self) -> int {
        self.max as int
    }

    /// The bound is non-negative and small enough that every index fits.
    pub open spec fn wf(&self) -> bool {
        0 <= self.spec_max() <= 1_000_000_000
    }

    /// The number of pairs the spiral of bound `v` yields.
    pub open spec fn spec_count(v: int) -> int {
        (2 * v + 1) * (2 * v + 1) - 1
    }

    /// Creates a new Spiral which will produce pairs as far out as `max`.
    pub fn new(max: i64) -> (s: Spiral)
        requires
            0 <= max <= 1_000_000_000,
        ensures
            s.wf(),
            s.spec_max() == max,
    {
        Spiral { max }
    }

    /// How many pairs this spiral yields.
    pub fn count(&self) -> (c: i64)
        requires
            self.wf(),
        ensures
            c == Self::spec_count(self.spec_max()),
            0 <= c < 0x4000_0000_0000_0000,
    {
        proof {
            assert((2 * self.max + 1) * (2 * self.max + 1) - 1 < 0x4000_0000_0000_0000int
                && (2 * self.max + 1) * (2 * self.max + 1) >= 1) by (nonlinear_arith)
                requires 0 <= self.max as int <= 1_000_000_000;
        }
        let side = 2 * self.max + 1;
        side * side - 1
    }

    /// Calculates the coordinates at (one-based) index `n` of the spiral.
    pub fn pair(n: i64) -> (p: (i64, i64))
        requires
            1 <= n < 0x4000_0000_0000_0000,
        ensures
            p.0 == spec_pair(n as int).0,
            p.1 == spec_pair(n as int).1,
    {
        proof {
            lemma_ring_bounds(n as int);
            lemma_side_decomposition(n as int);
        }
        let q = isqrt64(n as u64);
        let ghost gs = ring_of(n as int);
        proof {
            lemma_isqrt_bounds(n as nat);
            assert(q as int * q as int <= n);
            assert(q as int <= 0x8000_0000) by (nonlinear_arith)
                requires
                    q as int * q as int <= n,
                    n < 0x4000_0000_0000_0000,
                    q as int >= 0;
        }
        let s = ((q + 1) / 2) as i64;
        proof {
            assert(s as int == gs);
            assert(1 <= gs);
            assert((2 * gs - 1) * (2 * gs - 1) <= n);
            assert(gs <= q as int) by (nonlinear_arith)
                requires 1 <= gs, (2 * gs - 1) * (2 * gs - 1) <= n, q as int * q as int <= n
                    < (q as int + 1) * (q as int + 1), q >= 0;
        }
        let m = n - (2 * s - 1) * (2 * s - 1);
        let l = m / (2 * s);
        let e = m - 2 * s * l - s + 1;
        proof {
            let gm = n as int - (2 * gs - 1) * (2 * gs - 1);
            assert(m == gm);
            assert(0 <= gm < 8 * gs);
            assert(l == gm / (2 * gs));
        }
        if l == 0 {
            (s, e)
        } else if l == 1 {
            (-e, s)
        } else if l == 2 {
            (-s, -e)
        } else {
            (e, -s)
        }
    }

    /// The whole sequence, in order.  Usable when the count fits in memory;
    /// the search itself walks indices instead.
    pub fn pairs(&self) -> (r: Vec<(i64, i64)>)
        requires
            self.wf(),
            Self::spec_count(self.spec_max()) <= 0x1000_0000,
        ensures
            r@.len() == Self::spec_count(self.spec_max()),
            forall|i: int|
                0 <= i < r@.len() ==> (#[trigger] r@[i]).0 == spec_pair(i + 1).0 && r@[i].1
                    == spec_pair(i + 1).1,
    {
        let top = self.count();
        let mut r: Vec<(i64, i64)> = Vec::new();
        let mut n: i64 = 1;
        while n <= top
            invariant
                1 <= n <= top + 1,
                0 <= top < 0x4000_0000_0000_0000,
                r@.len() == n - 1,
                forall|i: int|
                    0 <= i < r@.len() ==> (#[trigger] r@[i]).0 == spec_pair(i + 1).0 && r@[i].1
                        == spec_pair(i + 1).1,
            decreases top + 1 - n,
        {
            let p = Self::pair(n);
            r.push(p);
            n = n + 1;
        }
        r
    }

    /// The whole sequence, computed across the thread pool.
    ///
    /// Relies on rayon: `into_par_iter` over an integer range with `map` and
    /// `collect` into a `Vec` yields exactly the mapped items in the range's
    /// order, whatever the parallel split; the closure only calls the
    /// verified `Spiral::pair`.
    #[verifier::external_body]
    pub fn par_pairs(&self) -> (r: Vec<(i64, i64)>)
        requires
            self.wf(),
            Self::spec_count(self.spec_max()) <= 0x1000_0000,
        ensures
            r@.len() == Self::spec_count(self.spec_max()),
            forall|i: int|
                0 <= i < r@.len() ==> (#[trigger] r@[i]).0 == spec_pair(i + 1).0 && r@[i].1
                    == spec_pair(i + 1).1,
    {
        let top = self.count();
        (1i64..=top).into_par_iter().map(Self::pair).collect()
    }
}

} // verus!
