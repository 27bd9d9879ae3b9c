//! The integer tables of Perlin noise: three random permutations of the
//! lattice coordinates modulo 256, and the hash that picks a gradient for
//! each lattice point.

use vstd::prelude::*;

verus! {

/// Number of lattice positions per axis before the pattern repeats, and of
/// gradient vectors.
pub const PERM_SIZE: usize = 256;

/// `p` holds each of `0 .. n` exactly once.
pub open spec fn is_permutation(p: Seq<i32>, n: int) -> bool {
    &&& p.len() == n
    &&& forall|i: int| 0 <= i < n ==> 0 <= #[trigger] p[i] < n
    &&& forall|i: int, j: int| 0 <= i < j < n ==> p[i] != p[j]
}

/// `s` with the entries at `a` and `b` exchanged.
pub open spec fn swapped(s: Seq<i32>, a: int, b: int) -> Seq<i32> {
    s.update(a, s[b]).update(b, s[a])
}

/// Each target is at most its own position, as a Fisher-Yates shuffle draws.
pub open spec fn valid_targets(targets: Seq<usize>) -> bool {
    forall|i: int| 0 <= i < targets.len() ==> #[trigger] targets[i] <= i
}

/// The Fisher-Yates shuffle of `s` for the first `n` positions: position
/// `n - 1` is exchanged with its target first, then `n - 2`, down to `0`.
pub open spec fn fisher_yates(s: Seq<i32>, targets: Seq<usize>, n: nat) -> Seq<i32>
    decreases n,
{
    if n == 0 {
        s
    } else {
        fisher_yates(swapped(s, n - 1, targets[n - 1] as int), targets, (n - 1) as nat)
    }
}

proof fn lemma_swap_keeps_contents(s: Seq<i32>, a: int, b: int)
    requires
        0 <= a < s.len(),
        0 <= b < s.len(),
    ensures
        swapped(s, a, b).to_multiset() == s.to_multiset(),
        swapped(s, a, b).len() == s.len(),
        is_permutation(s, s.len() as int) ==> is_permutation(swapped(s, a, b), s.len() as int),
{
    broadcast use vstd::seq_lib::to_multiset_update;
    broadcast use vstd::multiset::group_multiset_axioms;

    let t = s.update(a, s[b]);
    assert(t.to_multiset() == s.to_multiset().insert(s[b]).remove(s[a]));
    assert(t.update(b, s[a]).to_multiset() == t.to_multiset().insert(s[a]).remove(t[b]));
    if a == b {
        assert(swapped(s, a, b) =~= s);
    } else {
        assert(t[b] == s[b]);
        let m = s.to_multiset();
        assert(m.count(s[a]) > 0) by {
            broadcast use vstd::seq_lib::to_multiset_contains;

            assert(s.contains(s[a]));
        }
        assert forall|v: i32| #[trigger] m.insert(s[b]).remove(s[a]).insert(s[a]).remove(s[b]).count(v)
            == m.count(v) by {
            if v == s[a] && v == s[b] {
            } else if v == s[a] {
            } else if v == s[b] {
            } else {
            }
        }
        assert(m.insert(s[b]).remove(s[a]).insert(s[a]).remove(s[b]) =~= m);
    }
    let r = swapped(s, a, b);
    if is_permutation(s, s.len() as int) {
        assert forall|i: int, j: int| 0 <= i < j < s.len() implies r[i] != r[j] by {
            let si = if i == b { a } else if i == a { b } else { i };
            let sj = if j == b { a } else if j == a { b } else { j };
            assert(r[i] == s[si]);
            assert(r[j] == s[sj]);
            if si < sj {
            } else {
                assert(si != sj);
            }
        }
    }
}

/// A Fisher-Yates shuffle only rearranges: it keeps every entry as often as
/// it occurs, and so turns a permutation into a permutation.
pub proof fn lemma_fisher_yates_rearranges(s: Seq<i32>, targets: Seq<usize>, n: nat)
    requires
        n <= s.len(),
        n <= targets.len(),
        valid_targets(targets),
    ensures
        fisher_yates(s, targets, n).to_multiset() == s.to_multiset(),
        fisher_yates(s, targets, n).len() == s.len(),
        is_permutation(s, s.len() as int) ==> is_permutation(
            fisher_yates(s, targets, n),
            s.len() as int,
        ),
    decreases n,
{
    if n > 0 {
        let t = swapped(s, n - 1, targets[n - 1] as int);
        assert(targets[n - 1] <= n - 1);
        lemma_swap_keeps_contents(s, n - 1, targets[n - 1] as int);
        lemma_fisher_yates_rearranges(t, targets, (n - 1) as nat);
    }
}

/// Shuffles `p` by exchanging each position, from the last down to the
/// first, with the position that `targets` gives for it.
pub fn shuffle_with(p: &mut Vec<i32>, targets: &Vec<usize>)
    requires
        targets@.len() == old(p)@.len(),
        valid_targets(targets@),
    ensures
        final(p)@ == fisher_yates(old(p)@, targets@, old(p)@.len()),
{
    let n = p.len();
    let mut i: usize = n;
    while i > 0
        invariant
            i <= n,
            n == p@.len(),
            targets@.len() == n,
            valid_targets(targets@),
            fisher_yates(p@, targets@, i as nat) == fisher_yates(old(p)@, targets@, n as nat),
        decreases i,
    {
        i = i - 1;
        let t = targets[i];
        assert(t <= i);
        let a = p[i];
        let b = p[t];
        p.set(i, b);
        p.set(t, a);
    }
}

/// Relies on `rand::distributions::Range::new(0, bound)` sampled with
/// `rand::thread_rng()`: a value in `[0, bound)`; `Range::new` panics unless
/// `0 < bound`.
#[verifier::external_body]
fn random_below(bound: usize) -> (r: usize)
    requires
        0 < bound,
    ensures
        r < bound,
{
    let range = rand::distributions::Range::new(0, bound);
    rand::distributions::IndependentSample::ind_sample(&range, &mut rand::thread_rng())
}

/// Shuffles `p` at random: each position, from the last down to the first,
/// is exchanged with a position drawn uniformly at or below it.
pub fn permute(p: &mut Vec<i32>)
    ensures
        final(p)@.len() == old(p)@.len(),
        final(p)@.to_multiset() == old(p)@.to_multiset(),
        is_permutation(old(p)@, old(p)@.len() as int) ==> is_permutation(
            final(p)@,
            old(p)@.len() as int,
        ),
{
    let n = p.len();
    let mut targets: Vec<usize> = Vec::new();
    let mut k: usize = 0;
    while k < n
        invariant
            k <= n,
            targets@.len() == k,
            valid_targets(targets@),
        decreases n - k,
    {
        targets.push(0);
        k = k + 1;
    }
    let mut i: usize = n;
    while i > 0
        invariant
            i <= n,
            targets@.len() == n,
            valid_targets(targets@),
        decreases i,
    {
        i = i - 1;
        let t = random_below(i + 1);
        targets.set(i, t);
    }
    proof {
        lemma_fisher_yates_rearranges(p@, targets@, n as nat);
    }
    shuffle_with(p, &targets);
}

/// A random permutation of `0 .. PERM_SIZE`.
pub fn generate_perm() -> (r: Vec<i32>)
    ensures
        is_permutation(r@, PERM_SIZE as int),
{
    let mut p: Vec<i32> = Vec::new();
    let mut i: usize = 0;
    while i < PERM_SIZE
        invariant
            i <= PERM_SIZE,
            p@.len() == i,
            forall|k: int| 0 <= k < i ==> p@[k] == k,
        decreases PERM_SIZE - i,
    {
        p.push(i as i32);
        i = i + 1;
    }
    permute(&mut p);
    p
}

/// Whether `p` holds each of `0 .. n` exactly once.
pub fn check_permutation(p: &Vec<i32>, n: usize) -> (r: bool)
    ensures
        r == is_permutation(p@, n as int),
{
    if p.len() != n {
        return false;
    }
    let mut seen: Vec<bool> = Vec::new();
    let mut k: usize = 0;
    while k < n
        invariant
            k <= n,
            seen@.len() == k,
            forall|v: int| 0 <= v < k ==> !seen@[v],
        decreases n - k,
    {
        seen.push(false);
        k = k + 1;
    }
    let mut i: usize = 0;
    while i < n
        invariant
            i <= n,
            p@.len() == n,
            seen@.len() == n,
            forall|a: int| 0 <= a < i ==> 0 <= #[trigger] p@[a] < n,
            forall|a: int, b: int| 0 <= a < b < i ==> p@[a] != p@[b],
            forall|v: int|
                0 <= v < n ==> (#[trigger] seen@[v] <==> exists|a: int|
                    0 <= a < i && p@[a] == v),
        decreases n - i,
    {
        let v = p[i];
        if v < 0 || v as usize >= n {
            return false;
        }
        if seen[v as usize] {
            assert(exists|a: int| 0 <= a < i && p@[a] == v);
            return false;
        }
        seen.set(v as usize, true);
        i = i + 1;
        assert forall|a: int, b: int| 0 <= a < b < i implies p@[a] != p@[b] by {
            if b == i - 1 {
                if p@[a] == p@[b] {
                    assert(exists|c: int| 0 <= c < i - 1 && p@[c] == v);
                }
            }
        }
        assert forall|w: int| 0 <= w < n implies (#[trigger] seen@[w] <==> exists|a: int|
            0 <= a < i && p@[a] == w) by {
            if w == v {
                assert(p@[i - 1] == w);
            } else if seen@[w] {
                let a = choose|a: int| 0 <= a < i - 1 && p@[a] == w;
                assert(0 <= a < i && p@[a] == w);
            }
        }
    }
    true
}

/// Lattice position of coordinate `i` within the tables: `i` modulo 256.
pub open spec fn wrap(i: int) -> int {
    i % 256
}

/// Index of the gradient at lattice point `(i, j, k)`: the exclusive or of
/// the three tables' entries at the point's wrapped coordinates.
pub open spec fn lattice_hash(
    perm_x: Seq<i32>,
    perm_y: Seq<i32>,
    perm_z: Seq<i32>,
    i: int,
    j: int,
    k: int,
) -> int {
    ((perm_x[wrap(i)] as u32) ^ (perm_y[wrap(j)] as u32) ^ (perm_z[wrap(k)] as u32)) as int
}

/// Position of coordinate `i` within the tables.
fn wrap_coordinate(i: i32) -> (r: usize)
    ensures
        r == wrap(i as int),
        r < PERM_SIZE,
{
    if i >= 0 {
        (i % 256) as usize
    } else {
        let j = -(i + 1);
        assert(255 - j % 256 == (i as int) % 256) by {
            assert(i as int == -(j as int) - 1);
        }
        (255 - j % 256) as usize
    }
}

/// The permutation tables of a Perlin noise lattice.
#[derive(Debug, Clone)]
pub struct Lattice {
    pub perm_x: Vec<i32>,
    pub perm_y: Vec<i32>,
    pub perm_z: Vec<i32>,
}

impl Lattice {
    /// Each table is a permutation of `0 .. PERM_SIZE`.
    pub open spec fn wf(&self) -> bool {
        &&& is_permutation(self.perm_x@, PERM_SIZE as int)
        &&& is_permutation(self.perm_y@, PERM_SIZE as int)
        &&& is_permutation(self.perm_z@, PERM_SIZE as int)
    }

    /// A lattice with three independent random permutations.
    pub fn new() -> (r: Lattice)
        ensures
            r.wf(),
    {
        let perm_x = generate_perm();
        let perm_y = generate_perm();
        let perm_z = generate_perm();
        Lattice { perm_x, perm_y, perm_z }
    }

    /// A lattice with the given tables, if each is a permutation of
    /// `0 .. PERM_SIZE`.
    pub fn from_tables(perm_x: Vec<i32>, perm_y: Vec<i32>, perm_z: Vec<i32>) -> (r: Option<
        Lattice,
    >)
        ensures
            r is Some <==> (is_permutation(perm_x@, PERM_SIZE as int) && is_permutation(
                perm_y@,
                PERM_SIZE as int,
            ) && is_permutation(perm_z@, PERM_SIZE as int)),
            r matches Some(l) ==> l.perm_x == perm_x && l.perm_y == perm_y && l.perm_z == perm_z,
    {
        if check_permutation(&perm_x, PERM_SIZE) && check_permutation(&perm_y, PERM_SIZE)
            && check_permutation(&perm_z, PERM_SIZE) {
            Some(Lattice { perm_x, perm_y, perm_z })
        } else {
            None
        }
    }

    /// Index of the gradient vector at lattice point `(i, j, k)`.
    pub fn index(&self, i: i32, j: i32, k: i32) -> (r: usize)
        requires
            self.wf(),
        ensures
            r == lattice_hash(
                self.perm_x@,
                self.perm_y@,
                self.perm_z@,
                i as int,
                j as int,
                k as int,
            ),
            r < PERM_SIZE,
    {
        let a = self.perm_x[wrap_coordinate(i)] as u32;
        let b = self.perm_y[wrap_coordinate(j)] as u32;
        let c = self.perm_z[wrap_coordinate(k)] as u32;
        assert(a ^ b ^ c < 256u32) by (bit_vector)
            requires
                a < 256u32,
                b < 256u32,
                c < 256u32,
        ;
        (a ^ b ^ c) as usize
    }
}

} // verus!
