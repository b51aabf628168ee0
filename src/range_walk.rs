//! A full-period walk over a ring of residues that visits every value of an
//! interval exactly once, in an order that jumps around the interval.
//!
//! For an interval of `n` values the ring has `m` residues, `m` the smallest
//! power of two with `n <= m`. The walk follows `x -> (a * x + c) mod m` with
//! multiplier `a = 1` and an odd increment `c`; these meet the full-period
//! conditions (`c` prime to `m`, `a - 1` divisible by every prime factor of
//! `m` and by 4), so one turn of `m` steps meets every residue once. Residues
//! at or past `n` fill the ring up to a power of two and are skipped. Only the
//! current residue and the fixed parameters are kept from step to step.
use vstd::arithmetic::div_mod::{
    lemma_add_mod_noop, lemma_fundamental_div_mod, lemma_mod_multiples_basic,
    lemma_mod_pos_bound, lemma_mul_mod_noop, lemma_small_mod, lemma_sub_mod_noop,
};
use crate::rng::random_below;
use vstd::prelude::*;

verus! {

/// Two to the power `j`.
pub open spec fn pow_two(j: nat) -> nat
    decreases j,
{
    if j == 0 {
        1
    } else {
        2 * pow_two((j - 1) as nat)
    }
}

/// The smallest power of two that is at least `n`: the modulus of the walk.
pub open spec fn ring_len(n: nat) -> nat
    decreases n,
{
    if n <= 1 {
        1
    } else {
        2 * ring_len(((n + 1) / 2) as nat)
    }
}

proof fn lemma_ring_len_bounds(n: nat, j: nat)
    requires
        n <= pow_two(j),
    ensures
        n <= ring_len(n),
        ring_len(n) <= pow_two(j),
        ring_len(n) >= 1,
    decreases n,
{
    lemma_pow_two_pos(j);
    if n > 1 {
        let h = ((n + 1) / 2) as nat;
        assert(j > 0);
        lemma_ring_len_bounds(h, (j - 1) as nat);
    }
}

proof fn lemma_ring_len_pos(n: nat)
    ensures
        ring_len(n) >= 1,
    decreases n,
{
    if n > 1 {
        lemma_ring_len_pos(((n + 1) / 2) as nat);
    }
}

proof fn lemma_pow_two_pos(j: nat)
    ensures
        pow_two(j) >= 1,
    decreases j,
{
    if j > 0 {
        lemma_pow_two_pos((j - 1) as nat);
    }
}

/// Computes the modulus of the walk for an interval of `n` values.
pub fn ring_size(n: u32) -> (r: u32)
    requires
        n <= 65536,
    ensures
        r as nat == ring_len(n as nat),
        n <= r <= 65536,
    decreases n,
{
    proof {
        assert(pow_two(16) == 65536) by {
            reveal_with_fuel(pow_two, 17);
        }
        lemma_ring_len_bounds(n as nat, 16);
    }
    if n <= 1 {
        1
    } else {
        let h = (n + 1) / 2;
        let s = ring_size(h);
        proof {
            assert(pow_two(15) == 32768) by {
                reveal_with_fuel(pow_two, 16);
            }
            lemma_ring_len_bounds(h as nat, 15);
        }
        2 * s
    }
}

/// In a ring whose size is a power of two, an odd step is invertible: a
/// multiple `d * c` of an odd `c` vanishes only where `d` does.
pub proof fn lemma_odd_multiple_vanishes(n: nat, d: int, c: int)
    requires
        0 <= d,
        0 <= c,
        c % 2 == 1,
        (d * c) % (ring_len(n) as int) == 0,
    ensures
        d % (ring_len(n) as int) == 0,
    decreases n,
{
    if n > 1 {
        let h = ((n + 1) / 2) as nat;
        let p = ring_len(h) as int;
        lemma_ring_len_pos(h);
        assert(ring_len(n) == 2 * p);
        let q = (d * c) / (2 * p);
        lemma_fundamental_div_mod(d * c, 2 * p);
        assert(d * c == 2 * p * q);
        assert((d * c) % 2 == 0) by {
            assert(d * c == (p * q) * 2) by (nonlinear_arith)
                requires
                    d * c == 2 * p * q,
            ;
            lemma_mod_multiples_basic(p * q, 2);
        }
        assert(d % 2 == 0) by {
            lemma_mul_mod_noop(d, c, 2);
            if d % 2 == 1 {
                assert((d % 2) * (c % 2) == 1);
            }
        }
        let d2 = d / 2;
        lemma_fundamental_div_mod(d, 2);
        assert(d == 2 * d2);
        assert(d2 * c == p * q) by (nonlinear_arith)
            requires
                d == 2 * d2,
                d * c == 2 * p * q,
        ;
        assert((d2 * c) % p == 0) by {
            lemma_mod_multiples_basic(q, p);
            assert(q * p == p * q) by (nonlinear_arith);
        }
        lemma_odd_multiple_vanishes(h, d2, c);
        let t = d2 / p;
        lemma_fundamental_div_mod(d2, p);
        assert(d == t * (2 * p)) by (nonlinear_arith)
            requires
                d == 2 * d2,
                d2 == p * t,
        ;
        lemma_mod_multiples_basic(t, 2 * p);
    }
}

/// Increment of the walk: an odd residue taken from the middle half of the
/// ring, so that successive values land far apart.
pub open spec fn walk_step(m: int, stride: int) -> int {
    if m < 2 {
        1
    } else {
        let c = m / 4 + stride % (m / 2);
        if c % 2 == 0 {
            c + 1
        } else {
            c
        }
    }
}

/// Residue visited at step `i` of the walk that starts at `x0` and advances
/// by `c` in a ring of `m` residues.
pub open spec fn residue(m: int, x0: int, c: int, i: int) -> int {
    (x0 + i * c) % m
}

/// Values emitted by the first `k` steps of the walk over `[start, start + n)`:
/// each residue below `n` is shifted by `start`, the others are skipped.
pub open spec fn walk_prefix(start: int, n: int, m: int, x0: int, c: int, k: nat) -> Seq<u16>
    decreases k,
{
    if k == 0 {
        Seq::empty()
    } else {
        let prev = walk_prefix(start, n, m, x0, c, (k - 1) as nat);
        let x = residue(m, x0, c, k - 1);
        if x < n {
            prev.push((start + x) as u16)
        } else {
            prev
        }
    }
}

/// Number of ports in `[start, end]`.
pub open spec fn span_len(start: u16, end: u16) -> int {
    end - start + 1
}

/// The ports of `[start, end]` in ascending order.
pub open spec fn span_ports(start: u16, end: u16) -> Seq<u16> {
    Seq::new(span_len(start, end) as nat, |i: int| (start + i) as u16)
}

/// The order in which the walk over `[start, end]` visits its ports: one full
/// turn of the ring from the residue `seed % m`.
pub open spec fn walk_ports(start: u16, end: u16, seed: u32, stride: u32) -> Seq<u16> {
    let n = span_len(start, end);
    let m = ring_len(n as nat) as int;
    walk_prefix(start as int, n, m, (seed as int) % m, walk_step(m, stride as int), m as nat)
}

proof fn lemma_residue_distinct(n: nat, x0: int, c: int, i: int, j: int)
    requires
        0 <= x0,
        0 <= c,
        c % 2 == 1,
        0 <= i < j < ring_len(n),
    ensures
        residue(ring_len(n) as int, x0, c, i) != residue(ring_len(n) as int, x0, c, j),
{
    let m = ring_len(n) as int;
    lemma_ring_len_pos(n);
    if residue(m, x0, c, i) == residue(m, x0, c, j) {
        lemma_sub_mod_noop(x0 + j * c, x0 + i * c, m);
        assert((x0 + j * c) - (x0 + i * c) == (j - i) * c) by (nonlinear_arith);
        let a = x0 + j * c;
        let b = x0 + i * c;
        assert(a % m - b % m == 0);
        assert((a - b) % m == 0);
        assert(((j - i) * c) % m == 0);
        lemma_odd_multiple_vanishes(n, j - i, c);
        lemma_small_mod((j - i) as nat, m as nat);
    }
}

proof fn lemma_walk_elements(start: int, n: int, m: int, x0: int, c: int, k: nat)
    requires
        0 <= start,
        start + n <= 65536,
        0 < m,
        0 <= x0,
        0 <= c,
    ensures
        forall|t: int|
            #![trigger walk_prefix(start, n, m, x0, c, k)[t]]
            0 <= t < walk_prefix(start, n, m, x0, c, k).len() ==> exists|i: int|
                0 <= i < k && residue(m, x0, c, i) < n && walk_prefix(start, n, m, x0, c, k)[t]
                    == start + #[trigger] residue(m, x0, c, i),
        forall|i: int|
            0 <= i < k && residue(m, x0, c, i) < n ==> walk_prefix(start, n, m, x0, c, k).contains(
                (start + #[trigger] residue(m, x0, c, i)) as u16,
            ),
    decreases k,
{
    if k > 0 {
        let k1 = (k - 1) as nat;
        lemma_walk_elements(start, n, m, x0, c, k1);
        let prev = walk_prefix(start, n, m, x0, c, k1);
        let cur = walk_prefix(start, n, m, x0, c, k);
        let x = residue(m, x0, c, k1 as int);
        lemma_mod_pos_bound(x0 + k1 * c, m);
        assert forall|t: int| #![trigger cur[t]] 0 <= t < cur.len() implies exists|i: int|
            0 <= i < k && residue(m, x0, c, i) < n && cur[t] == start + #[trigger] residue(
                m,
                x0,
                c,
                i,
            ) by {
            if t < prev.len() {
                assert(cur[t] == prev[t]);
            } else {
                assert(cur[t] == (start + x) as u16);
            }
        }
        assert forall|i: int| 0 <= i < k && residue(m, x0, c, i) < n implies cur.contains(
            (start + #[trigger] residue(m, x0, c, i)) as u16,
        ) by {
            if i < k1 {
                let t = choose|t: int| 0 <= t < prev.len() && prev[t] == (start + residue(m, x0, c, i)) as u16;
                assert(cur[t] == prev[t]);
            } else {
                assert(cur[cur.len() - 1] == (start + x) as u16);
            }
        }
    }
}

proof fn lemma_walk_no_dup(start: int, n: nat, x0: int, c: int, k: nat)
    requires
        0 <= start,
        start + n <= 65536,
        0 <= x0,
        0 <= c,
        c % 2 == 1,
        k <= ring_len(n),
    ensures
        walk_prefix(start, n as int, ring_len(n) as int, x0, c, k).no_duplicates(),
    decreases k,
{
    let m = ring_len(n) as int;
    lemma_ring_len_pos(n);
    if k > 0 {
        let k1 = (k - 1) as nat;
        lemma_walk_no_dup(start, n, x0, c, k1);
        let prev = walk_prefix(start, n as int, m, x0, c, k1);
        let x = residue(m, x0, c, k1 as int);
        lemma_mod_pos_bound(x0 + k1 * c, m);
        if x < n {
            lemma_walk_elements(start, n as int, m, x0, c, k1);
            assert forall|t: int| 0 <= t < prev.len() implies prev[t] != (start + x) as u16 by {
                let i = choose|i: int|
                    0 <= i < k1 && residue(m, x0, c, i) < n && prev[t] == start + #[trigger] residue(
                        m,
                        x0,
                        c,
                        i,
                    );
                lemma_residue_distinct(n, x0, c, i, k1 as int);
            }
            let cur = prev.push((start + x) as u16);
            assert forall|a: int, b: int| 0 <= a < cur.len() && 0 <= b < cur.len() && a != b implies cur[a]
                != cur[b] by {
                if a < prev.len() && b < prev.len() {
                    assert(cur[a] == prev[a] && cur[b] == prev[b]);
                } else if a < prev.len() {
                    assert(cur[a] == prev[a]);
                } else {
                    assert(cur[b] == prev[b]);
                }
            }
        }
    }
}

proof fn lemma_walk_prefix_grows(start: int, n: int, m: int, x0: int, c: int, k1: nat, k2: nat)
    requires
        k1 <= k2,
    ensures
        walk_prefix(start, n, m, x0, c, k1).len() <= walk_prefix(start, n, m, x0, c, k2).len(),
        walk_prefix(start, n, m, x0, c, k2).subrange(
            0,
            walk_prefix(start, n, m, x0, c, k1).len() as int,
        ) =~= walk_prefix(start, n, m, x0, c, k1),
    decreases k2,
{
    if k1 < k2 {
        lemma_walk_prefix_grows(start, n, m, x0, c, k1, (k2 - 1) as nat);
    }
}

/// Two sequences without repeats that hold the same values are permutations
/// of each other.
pub proof fn lemma_same_values_same_multiset(a: Seq<u16>, b: Seq<u16>)
    requires
        a.no_duplicates(),
        b.no_duplicates(),
        forall|p: u16| a.contains(p) <==> b.contains(p),
    ensures
        a.to_multiset() == b.to_multiset(),
{
    broadcast use vstd::seq_lib::group_to_multiset_ensures;

    a.lemma_multiset_has_no_duplicates();
    b.lemma_multiset_has_no_duplicates();
    assert(a.to_multiset() =~= b.to_multiset());
}

/// The ascending sweep of `[start, end]` holds each of its ports once.
pub proof fn lemma_span_ports(start: u16, end: u16)
    requires
        start <= end,
    ensures
        span_ports(start, end).no_duplicates(),
        span_ports(start, end).len() == span_len(start, end),
        forall|p: u16| span_ports(start, end).contains(p) <==> start <= p <= end,
{
    let s = span_ports(start, end);
    assert forall|p: u16| start <= p <= end implies s.contains(p) by {
        assert(s[p - start] == p);
    }
}

/// The walk over `[start, end]` visits every port of the interval exactly
/// once and nothing else, whatever the seed and the stride: it is a
/// permutation of the ascending sweep.
pub proof fn lemma_walk_covers_span(start: u16, end: u16, seed: u32, stride: u32)
    requires
        start <= end,
    ensures
        walk_ports(start, end, seed, stride).no_duplicates(),
        walk_ports(start, end, seed, stride).len() == span_len(start, end),
        forall|p: u16| walk_ports(start, end, seed, stride).contains(p) <==> start <= p <= end,
        walk_ports(start, end, seed, stride).to_multiset() == span_ports(start, end).to_multiset(),
{
    broadcast use vstd::seq_lib::group_to_multiset_ensures;

    let n = span_len(start, end);
    let m = ring_len(n as nat) as int;
    assert(pow_two(16) == 65536) by {
        reveal_with_fuel(pow_two, 17);
    }
    lemma_ring_len_bounds(n as nat, 16);
    let x0 = (seed as int) % m;
    let c = walk_step(m, stride as int);
    lemma_mod_pos_bound(seed as int, m);
    if m >= 2 {
        lemma_mod_pos_bound(stride as int, m / 2);
    }
    let w = walk_ports(start, end, seed, stride);
    lemma_walk_no_dup(start as int, n as nat, x0, c, m as nat);
    lemma_walk_elements(start as int, n, m, x0, c, m as nat);
    let r = Seq::new(m as nat, |i: int| residue(m, x0, c, i));
    assert forall|i: int, j: int| 0 <= i < r.len() && 0 <= j < r.len() && i != j implies r[i]
        != r[j] by {
        if i < j {
            lemma_residue_distinct(n as nat, x0, c, i, j);
        } else {
            lemma_residue_distinct(n as nat, x0, c, j, i);
        }
    }
    r.unique_seq_to_set();
    vstd::set_lib::lemma_int_range(0, m);
    let full = vstd::set_lib::set_int_range(0, m);
    assert forall|v: int| r.to_set().contains(v) implies full.contains(v) by {
        let i = choose|i: int| 0 <= i < r.len() && r[i] == v;
        lemma_mod_pos_bound(x0 + i * c, m);
    }
    vstd::set_lib::lemma_subset_equality(r.to_set(), full);
    assert forall|p: u16| start <= p <= end implies w.contains(p) by {
        let v = p - start;
        assert(full.contains(v));
        assert(r.to_set().contains(v));
        let i = choose|i: int| 0 <= i < r.len() && r[i] == v;
        assert(residue(m, x0, c, i) == v);
    }
    assert forall|p: u16| w.contains(p) implies start <= p <= end by {
        let t = choose|t: int| 0 <= t < w.len() && w[t] == p;
        let i = choose|i: int|
            0 <= i < m && residue(m, x0, c, i) < n && w[t] == start + #[trigger] residue(
                m,
                x0,
                c,
                i,
            );
        lemma_mod_pos_bound(x0 + i * c, m);
    }
    lemma_span_ports(start, end);
    lemma_same_values_same_multiset(w, span_ports(start, end));
    assert(w.len() == w.to_multiset().len());
    assert(span_ports(start, end).len() == span_ports(start, end).to_multiset().len());
}

/// Computes the increment of the walk in a ring of `m` residues.
pub fn walk_increment(m: u32, stride: u32) -> (c: u32)
    ensures
        c as int == walk_step(m as int, stride as int),
        c % 2 == 1,
        m >= 2 ==> c < m,
{
    if m < 2 {
        1
    } else {
        let c = m / 4 + stride % (m / 2);
        if c % 2 == 0 {
            c + 1
        } else {
            c
        }
    }
}

/// State of one walk over `[start, end]`: the current residue, the number of
/// steps taken and of ports emitted, and the fixed modulus and increment.
pub struct RangeWalk {
    start: u16,
    end: u16,
    n: u32,
    m: u32,
    c: u32,
    x: u32,
    steps: u32,
    count: u32,
    seed: Ghost<u32>,
    stride: Ghost<u32>,
}

impl RangeWalk {
    /// The whole order in which this walk emits the ports.
    pub closed spec fn order(&self) -> Seq<u16> {
        walk_ports(self.start, self.end, self.seed@, self.stride@)
    }

    /// How many ports the walk has emitted so far.
    pub closed spec fn emitted(&self) -> nat {
        self.count as nat
    }

    /// The walk's state agrees with its parameters: the residue is the one
    /// reached after `steps` steps, and the ports emitted so far are the
    /// first `count` of its order.
    pub closed spec fn wf(&self) -> bool {
        &&& self.start <= self.end
        &&& self.n as int == span_len(self.start, self.end)
        &&& self.m as nat == ring_len(self.n as nat)
        &&& self.n <= self.m <= 65536
        &&& self.c as int == walk_step(self.m as int, self.stride@ as int)
        &&& self.c % 2 == 1
        &&& (self.m >= 2 ==> self.c < self.m)
        &&& self.steps <= self.m
        &&& self.x as int == residue(
            self.m as int,
            self.seed@ as int % self.m as int,
            self.c as int,
            self.steps as int,
        )
        &&& self.x < self.m
        &&& self.prefix().len() == self.count
        &&& self.order().subrange(0, self.count as int) == self.prefix()
        &&& self.order().len() == self.n
    }

    spec fn prefix(&self) -> Seq<u16> {
        walk_prefix(
            self.start as int,
            self.n as int,
            self.m as int,
            self.seed@ as int % self.m as int,
            self.c as int,
            self.steps as nat,
        )
    }

    proof fn lemma_prefix_of_order(&self, k: nat)
        requires
            self.start <= self.end,
            self.n as int == span_len(self.start, self.end),
            self.m as nat == ring_len(self.n as nat),
            self.c as int == walk_step(self.m as int, self.stride@ as int),
            k <= self.m,
        ensures
            ({
                let w = walk_prefix(
                    self.start as int,
                    self.n as int,
                    self.m as int,
                    self.seed@ as int % self.m as int,
                    self.c as int,
                    k,
                );
                &&& w.len() <= self.order().len()
                &&& self.order().subrange(0, w.len() as int) == w
            }),
    {
        lemma_walk_prefix_grows(
            self.start as int,
            self.n as int,
            self.m as int,
            self.seed@ as int % self.m as int,
            self.c as int,
            k,
            self.m as nat,
        );
    }

    /// Sets up the walk over `[start, end]` that starts at the residue
    /// `seed % m` and advances by the increment drawn from `stride`.
    pub fn new(start: u16, end: u16, seed: u32, stride: u32) -> (r: Self)
        requires
            start <= end,
        ensures
            r.wf(),
            r.order() == walk_ports(start, end, seed, stride),
            r.emitted() == 0,
    {
        proof {
            lemma_walk_covers_span(start, end, seed, stride);
        }
        let n: u32 = end as u32 - start as u32 + 1;
        let m = ring_size(n);
        let c = walk_increment(m, stride);
        let x0 = seed % m;
        proof {
            lemma_mod_pos_bound(seed as int, m as int);
            lemma_small_mod(x0 as nat, m as nat);
            assert(x0 + 0 * c == x0);
        }
        let r = RangeWalk {
            start,
            end,
            n,
            m,
            c,
            x: x0,
            steps: 0,
            count: 0,
            seed: Ghost(seed),
            stride: Ghost(stride),
        };
        proof {
            assert(r.order().subrange(0, 0) =~= r.prefix());
        }
        r
    }

    /// Emits the next port of the walk, skipping the residues that lie past
    /// the interval; `None` once every port has been emitted.
    pub fn next(&mut self) -> (r: Option<u16>)
        requires
            old(self).wf(),
        ensures
            final(self).wf(),
            final(self).order() == old(self).order(),
            old(self).emitted() < old(self).order().len() ==> r == Some(
                old(self).order()[old(self).emitted() as int],
            ) && final(self).emitted() == old(self).emitted() + 1,
            old(self).emitted() == old(self).order().len() ==> r is None && final(self).emitted()
                == old(self).emitted(),
    {
        if self.count >= self.n {
            return None;
        }
        let ghost x0 = self.seed@ as int % self.m as int;
        let ghost m_i = self.m as int;
        let ghost n_i = self.n as int;
        let ghost start_i = self.start as int;
        let ghost c_i = self.c as int;
        let ghost order = self.order();
        let ghost count0 = self.count;
        proof {
            lemma_mod_pos_bound(self.seed@ as int, m_i);
            if self.steps == self.m {
                assert(self.order().subrange(0, self.count as int) =~= self.order());
            }
        }
        while self.x >= self.n
            invariant
                self.wf(),
                self.count < self.n,
                self.count == count0,
                self.steps < self.m,
                self.order() == order,
                x0 == self.seed@ as int % self.m as int,
                0 <= x0 < m_i,
                m_i == self.m,
                n_i == self.n,
                start_i == self.start,
                c_i == self.c,
            decreases self.m - self.steps,
        {
            proof {
                lemma_add_mod_noop(x0 + self.steps * c_i, c_i, m_i);
                lemma_small_mod(self.c as nat, self.m as nat);
                assert(x0 + (self.steps + 1) * c_i == (x0 + self.steps * c_i) + c_i)
                    by (nonlinear_arith);
            }
            self.x = (self.x + self.c) % self.m;
            self.steps = self.steps + 1;
            proof {
                lemma_mod_pos_bound(x0 + self.steps * c_i, m_i);
                if self.steps == self.m {
                    assert(self.order().subrange(0, self.count as int) =~= self.order());
                }
            }
        }
        let p = (self.start as u32 + self.x) as u16;
        proof {
            lemma_add_mod_noop(x0 + self.steps * c_i, c_i, m_i);
            if self.m >= 2 {
                lemma_small_mod(self.c as nat, self.m as nat);
            }
            assert(x0 + (self.steps + 1) * c_i == (x0 + self.steps * c_i) + c_i)
                by (nonlinear_arith);
            self.lemma_prefix_of_order((self.steps + 1) as nat);
        }
        self.x = (self.x + self.c) % self.m;
        self.steps = self.steps + 1;
        self.count = self.count + 1;
        proof {
            lemma_mod_pos_bound(x0 + self.steps * c_i, m_i);
            let w = self.prefix();
            assert(w[w.len() - 1] == p);
            assert(w.len() == self.count);
            assert(order.subrange(0, self.count as int) == w);
            assert(order.subrange(0, w.len() as int)[w.len() - 1] == order[w.len() - 1]);
            assert(order[self.count - 1] == p);
        }
        Some(p)
    }
}

/// Runs the walk over `[start, end]` from the residue `seed % m` with the
/// increment drawn from `stride`, and collects the ports in the order met.
pub fn permute_range(start: u16, end: u16, seed: u32, stride: u32) -> (r: Vec<u16>)
    requires
        start <= end,
    ensures
        r@ == walk_ports(start, end, seed, stride),
        r@.to_multiset() == span_ports(start, end).to_multiset(),
{
    proof {
        lemma_walk_covers_span(start, end, seed, stride);
    }
    let mut walk = RangeWalk::new(start, end, seed, stride);
    let mut out: Vec<u16> = Vec::new();
    loop
        invariant
            walk.wf(),
            walk.order() == walk_ports(start, end, seed, stride),
            out@ == walk.order().take(walk.emitted() as int),
            walk.emitted() <= walk.order().len(),
        ensures
            out@ == walk_ports(start, end, seed, stride),
        decreases walk.order().len() - walk.emitted(),
    {
        match walk.next() {
            Some(p) => {
                out.push(p);
                proof {
                    assert(out@ =~= walk.order().take(walk.emitted() as int));
                }
            },
            None => {
                proof {
                    assert(out@ =~= walk.order());
                }
                break ;
            },
        }
    }
    out
}

/// Visits `[start, end]` in a pseudo-random order: the walk starts from a
/// random residue and advances by an increment drawn at random.
pub fn random_permutation(start: u16, end: u16) -> (r: Vec<u16>)
    requires
        start <= end,
    ensures
        exists|seed: u32, stride: u32| r@ == walk_ports(start, end, seed, stride),
        r@.to_multiset() == span_ports(start, end).to_multiset(),
{
    let n: u32 = end as u32 - start as u32 + 1;
    let m = ring_size(n);
    let seed = random_below(m);
    let stride = random_below(m);
    permute_range(start, end, seed, stride)
}

} // verus!
