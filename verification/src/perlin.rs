//! A lattice of random values, looked up through three random permutations.

use rand::rngs::ThreadRng;
use vstd::prelude::*;

use crate::random::{random_below, thread_generator};
use crate::vec3::{Vec3, ONE};

verus! {

/// The number of lattice points along each axis.
pub const POINT_COUNT: usize = 256;

/// The numbers from zero up to, not including, `n`, in order.
pub open spec fn counting(n: nat) -> Seq<i32> {
    Seq::new(n, |k: int| k as i32)
}

/// Whether `p` holds each of the numbers below its length exactly once.
pub open spec fn is_permutation(p: Seq<i32>) -> bool {
    p.to_multiset() == counting(p.len()).to_multiset()
}

/// Exchanging two entries of a list keeps its entries.
pub proof fn lemma_exchange_keeps_entries(s: Seq<i32>, i: int, j: int)
    requires
        0 <= i < s.len(),
        0 <= j < s.len(),
    ensures
        s.update(i, s[j]).update(j, s[i]).to_multiset() == s.to_multiset(),
{
    broadcast use {vstd::seq_lib::to_multiset_update, vstd::seq_lib::to_multiset_contains};

    let mid = s.update(i, s[j]);
    assert(s.contains(s[i]));
    assert(s.contains(s[j]));
    assert(mid.to_multiset() == s.to_multiset().insert(s[j]).remove(s[i]));
    assert(mid.update(j, s[i]).to_multiset() == mid.to_multiset().insert(s[i]).remove(mid[j]));
    assert(mid.update(j, s[i]).to_multiset() =~= s.to_multiset());
}

/// Every entry of a permutation is one of the numbers below its length.
pub proof fn lemma_permutation_in_range(p: Seq<i32>, k: int)
    requires
        is_permutation(p),
        0 <= k < p.len(),
        p.len() <= i32::MAX,
    ensures
        0 <= p[k] < p.len(),
{
    broadcast use vstd::seq_lib::to_multiset_contains;

    assert(p.contains(p[k]));
    assert(counting(p.len()).to_multiset().count(p[k]) > 0);
    assert(counting(p.len()).contains(p[k]));
    let j = choose|j: int| 0 <= j < p.len() && counting(p.len())[j] == p[k];
    assert(p[k] == j as i32);
}

/// A random permutation of the numbers below 256: counting down from the
/// `point_count`-th entry, each entry is exchanged with a random one before
/// it.
fn perlin_generate_perm(rng: &mut ThreadRng, point_count: usize) -> (p: Vec<i32>)
    requires
        point_count <= POINT_COUNT,
    ensures
        p@.len() == POINT_COUNT,
        is_permutation(p@),
{
    let mut p: Vec<i32> = Vec::new();
    let mut k: usize = 0;
    while k < POINT_COUNT
        invariant
            k <= POINT_COUNT,
            p@ == counting(k as nat),
        decreases POINT_COUNT - k,
    {
        p.push(k as i32);
        assert(p@ == counting((k + 1) as nat));
        k += 1;
    }
    let mut i: usize = point_count;
    while i > 1
        invariant
            i <= POINT_COUNT,
            p@.len() == POINT_COUNT,
            is_permutation(p@),
        decreases i,
    {
        i -= 1;
        let target = random_below(rng, i);
        let at_i = p[i];
        let at_target = p[target];
        proof {
            lemma_exchange_keeps_entries(p@, i as int, target as int);
        }
        p.set(i, at_target);
        p.set(target, at_i);
    }
    p
}

/// The lattice: 256 random values and one random permutation for each axis.
pub struct Perlin {
    point_count: usize,
    ranfloat: Vec<i32>,
    perm_x: Vec<i32>,
    perm_y: Vec<i32>,
    perm_z: Vec<i32>,
}

/// The lattice cell of a coordinate: four cells to the unit, the cell
/// rounded towards zero and counted modulo 256.
pub open spec fn cell(c: i32) -> int {
    let cells = if c >= 0 {
        (4 * c) / (ONE as int)
    } else {
        -((-4 * c) / (ONE as int))
    };
    cells % 256
}

fn cell_of(c: i32) -> (k: usize)
    ensures
        k == cell(c),
        k < 256,
{
    if c >= 0 {
        let cells: i64 = (4 * (c as i64)) / 65536;
        assert(cells == (4 * c) / (ONE as int));
        (cells % 256) as usize
    } else {
        let cells: i64 = (4 * (-(c as i64))) / 65536;
        assert(cells == (-4 * c) / (ONE as int));
        ((256 - cells % 256) % 256) as usize
    }
}

impl Perlin {
    #[verifier::type_invariant]
    spec fn wf(self) -> bool {
        &&& self.ranfloat@.len() == POINT_COUNT
        &&& self.perm_x@.len() == POINT_COUNT
        &&& self.perm_y@.len() == POINT_COUNT
        &&& self.perm_z@.len() == POINT_COUNT
        &&& is_permutation(self.perm_x@)
        &&& is_permutation(self.perm_y@)
        &&& is_permutation(self.perm_z@)
        &&& forall|k: int| 0 <= k < POINT_COUNT ==> 0 <= #[trigger] self.ranfloat@[k] < ONE
    }

    /// The values at the lattice points.
    pub closed spec fn values(self) -> Seq<i32> {
        self.ranfloat@
    }

    /// The permutations for the three axes.
    pub closed spec fn permutations(self) -> (Seq<i32>, Seq<i32>, Seq<i32>) {
        (self.perm_x@, self.perm_y@, self.perm_z@)
    }

    /// The value of the lattice at `p`: the value at the point that the
    /// permuted cells of the three coordinates, combined bit by bit, name.
    pub open spec fn noise_at(self, p: Vec3) -> i32 {
        let (px, py, pz) = self.permutations();
        self.values()[((px[cell(p.x)] as u8) ^ (py[cell(p.y)] as u8) ^ (pz[cell(p.z)] as u8)) as int]
    }

    /// A lattice of fresh random values, each at least nothing and less
    /// than one, with fresh random permutations.
    pub fn new() -> (perlin: Self)
        ensures
            perlin.values().len() == POINT_COUNT,
            forall|k: int| 0 <= k < POINT_COUNT ==> 0 <= #[trigger] perlin.values()[k] < ONE,
            is_permutation(perlin.permutations().0),
            is_permutation(perlin.permutations().1),
            is_permutation(perlin.permutations().2),
    {
        let point_count: usize = 256;
        let mut rng = thread_generator();
        let mut ranfloat: Vec<i32> = Vec::new();
        let mut k: usize = 0;
        while k < POINT_COUNT
            invariant
                k <= POINT_COUNT,
                ranfloat@.len() == k,
                forall|j: int| 0 <= j < k ==> 0 <= #[trigger] ranfloat@[j] < ONE,
            decreases POINT_COUNT - k,
        {
            let drawn = random_below(&mut rng, 65536);
            ranfloat.push(drawn as i32);
            k += 1;
        }
        let perm_x = perlin_generate_perm(&mut rng, point_count);
        let perm_y = perlin_generate_perm(&mut rng, point_count);
        let perm_z = perlin_generate_perm(&mut rng, point_count);
        Self { point_count, ranfloat, perm_x, perm_y, perm_z }
    }

    /// The value of the lattice at `p`.
    pub fn noise(&self, p: Vec3) -> (n: i32)
        ensures
            n == self.noise_at(p),
            0 <= n < ONE,
    {
        proof {
            use_type_invariant(self);
        }
        let i = cell_of(p.x);
        let j = cell_of(p.y);
        let k = cell_of(p.z);
        proof {
            lemma_permutation_in_range(self.perm_x@, i as int);
            lemma_permutation_in_range(self.perm_y@, j as int);
            lemma_permutation_in_range(self.perm_z@, k as int);
        }
        let x = self.perm_x[i] as u8;
        let y = self.perm_y[j] as u8;
        let z = self.perm_z[k] as u8;
        self.ranfloat[(x ^ y ^ z) as usize]
    }
}

} // verus!
