use vstd::prelude::*;

use super::bitvector::{
    lemma_popcount_or, lemma_popcount_or_ge, lemma_popcount_zero, popcount, BitVector,
};

verus! {

/// Side of the code space along each axis.
pub const CODE_SPACE_DIM: usize = 10;

/// Side of the seed lattice along the two axes that do not wrap.
pub const SEEDS_SIDE: usize = 12;

/// Number of seeds: `CODE_SPACE_DIM × SEEDS_SIDE × SEEDS_SIDE`.
pub const SEEDS_COUNT: usize = 1440;

/// Number of codes: `CODE_SPACE_DIM³`.
pub const CODES_COUNT: usize = 1000;

/// Seeds combined into one code: a 3 × 3 × 3 neighbourhood.
pub const NEIGHBOURHOOD_SIZE: usize = 27;

/// The seed at `(a, y, x)` of a seed lattice stored row-major.
pub open spec fn seed_at(seeds: Seq<BitVector>, a: int, y: int, x: int) -> u128 {
    seeds[(a * SEEDS_SIDE + y) * SEEDS_SIDE + x].0
}

/// Seed `n` (of 27) of the neighbourhood of code `(a, y, x)`: slices
/// `a - 1`, `a`, `a + 1` modulo 10, rows `y .. y + 3` and columns
/// `x .. x + 3` of the padded seed lattice, which is centred on
/// `(a, y + 1, x + 1)`.
pub open spec fn neighbourhood_seed(seeds: Seq<BitVector>, a: int, y: int, x: int, n: int) -> u128 {
    seed_at(
        seeds,
        (a + CODE_SPACE_DIM - 1 + n / 9) % CODE_SPACE_DIM as int,
        y + (n % 9) / 3,
        x + n % 3,
    )
}

/// OR of the first `n` seeds of the neighbourhood of code `(a, y, x)`.
pub open spec fn neighbourhood_or(seeds: Seq<BitVector>, a: int, y: int, x: int, n: int) -> u128
    decreases n,
{
    if n <= 0 {
        0
    } else {
        neighbourhood_or(seeds, a, y, x, n - 1) | neighbourhood_seed(seeds, a, y, x, n - 1)
    }
}

/// The code at `(a, y, x)` built from a seed lattice.
pub open spec fn code_at(seeds: Seq<BitVector>, a: int, y: int, x: int) -> u128 {
    neighbourhood_or(seeds, a, y, x, NEIGHBOURHOOD_SIZE as int)
}

/// Each seed of the lattice has at most one set bit.
pub open spec fn sparse_seeds(seeds: Seq<BitVector>) -> bool {
    forall|i: int| 0 <= i < seeds.len() ==> popcount(#[trigger] seeds[i].0) <= 1
}

/// A code combines at most as many set bits as it has seeds.
pub proof fn lemma_neighbourhood_popcount(seeds: Seq<BitVector>, a: int, y: int, x: int, n: int)
    requires
        seeds.len() == SEEDS_COUNT,
        sparse_seeds(seeds),
        0 <= a < CODE_SPACE_DIM,
        0 <= y < CODE_SPACE_DIM,
        0 <= x < CODE_SPACE_DIM,
        0 <= n <= NEIGHBOURHOOD_SIZE,
    ensures
        popcount(neighbourhood_or(seeds, a, y, x, n)) <= n,
    decreases n,
{
    if n == 0 {
        lemma_popcount_zero(128);
    } else {
        lemma_neighbourhood_popcount(seeds, a, y, x, n - 1);
        let slice = (a + CODE_SPACE_DIM - 1 + (n - 1) / 9) % CODE_SPACE_DIM as int;
        let index = (slice * SEEDS_SIDE + y + ((n - 1) % 9) / 3) * SEEDS_SIDE + x + (n - 1) % 3;
        assert(0 <= index < SEEDS_COUNT);
        lemma_popcount_or(
            neighbourhood_or(seeds, a, y, x, n - 1),
            neighbourhood_seed(seeds, a, y, x, n - 1),
            128,
        );
    }
}

/// Each seed of the lattice has a set bit.
pub open spec fn seeds_set(seeds: Seq<BitVector>) -> bool {
    forall|i: int| 0 <= i < seeds.len() ==> popcount(#[trigger] seeds[i].0) >= 1
}

/// A code of seeds that each have a set bit has a set bit.
pub proof fn lemma_neighbourhood_not_empty(seeds: Seq<BitVector>, a: int, y: int, x: int)
    requires
        seeds.len() == SEEDS_COUNT,
        seeds_set(seeds),
        0 <= a < CODE_SPACE_DIM,
        0 <= y < CODE_SPACE_DIM,
        0 <= x < CODE_SPACE_DIM,
    ensures
        popcount(code_at(seeds, a, y, x)) >= 1,
{
    let n = NEIGHBOURHOOD_SIZE as int;
    let slice = (a + CODE_SPACE_DIM - 1 + (n - 1) / 9) % CODE_SPACE_DIM as int;
    let index = (slice * SEEDS_SIDE + y + ((n - 1) % 9) / 3) * SEEDS_SIDE + x + (n - 1) % 3;
    assert(0 <= index < SEEDS_COUNT);
    lemma_popcount_or_ge(
        neighbourhood_or(seeds, a, y, x, n - 1),
        neighbourhood_seed(seeds, a, y, x, n - 1),
        128,
    );
}

/// A `10 × 10 × 10` lattice of codes indexed by `(a, y, x)`, held in an
/// `ndarray::Array3`.
#[verifier::external_body]
pub struct CodeSpace {
    codes: ndarray::Array3<BitVector>,
}

/// The codes of a code space, by slice, row and column.
pub uninterp spec fn code_space_codes(c: CodeSpace) -> Seq<Seq<Seq<u128>>>;

impl CodeSpace {
    pub open spec fn codes(self) -> Seq<Seq<Seq<u128>>> {
        code_space_codes(self)
    }

    /// Relies on `ndarray::Array3::from_shape_vec`, which lays the vector out
    /// in row-major order over a `10 × 10 × 10` shape of exactly that size.
    #[verifier::external_body]
    fn from_codes(codes: Vec<BitVector>) -> (r: CodeSpace)
        requires
            codes@.len() == CODES_COUNT,
        ensures
            code_space_codes(r).len() == CODE_SPACE_DIM,
            forall|a: int|
                0 <= a < CODE_SPACE_DIM ==> (#[trigger] code_space_codes(r)[a]).len()
                    == CODE_SPACE_DIM,
            forall|a: int, y: int|
                0 <= a < CODE_SPACE_DIM && 0 <= y < CODE_SPACE_DIM ==> (
                #[trigger] code_space_codes(r)[a][y]).len() == CODE_SPACE_DIM,
            forall|a: int, y: int, x: int|
                0 <= a < CODE_SPACE_DIM && 0 <= y < CODE_SPACE_DIM && 0 <= x < CODE_SPACE_DIM
                    ==> #[trigger] code_space_codes(r)[a][y][x] == codes@[(a * CODE_SPACE_DIM + y)
                    * CODE_SPACE_DIM + x].0,
    {
        let dim = CODE_SPACE_DIM;
        CodeSpace { codes: ndarray::Array3::from_shape_vec((dim, dim, dim), codes).unwrap() }
    }

    /// Relies on indexing an `ndarray::Array3` by `[slice, row, column]`.
    #[verifier::external_body]
    fn code_at_index(&self, a: usize, y: usize, x: usize) -> (r: BitVector)
        requires
            a < code_space_codes(*self).len(),
            y < code_space_codes(*self)[a as int].len(),
            x < code_space_codes(*self)[a as int][y as int].len(),
        ensures
            r.0 == code_space_codes(*self)[a as int][y as int][x as int],
    {
        self.codes[[a, y, x]]
    }

    /// The code at `(a, y, x)`.
    pub fn get(&self, a: usize, y: usize, x: usize) -> (r: BitVector)
        requires
            a < self.codes().len(),
            y < self.codes()[a as int].len(),
            x < self.codes()[a as int][y as int].len(),
        ensures
            r.0 == self.codes()[a as int][y as int][x as int],
    {
        self.code_at_index(a, y, x)
    }
}

/// OR of the 27 seeds around the code at `(a, y, x)`.
fn combine_neighbourhood(seeds: &Vec<BitVector>, a: usize, y: usize, x: usize) -> (r: BitVector)
    requires
        seeds@.len() == SEEDS_COUNT,
        a < CODE_SPACE_DIM,
        y < CODE_SPACE_DIM,
        x < CODE_SPACE_DIM,
    ensures
        r.0 == code_at(seeds@, a as int, y as int, x as int),
{
    let mut acc = BitVector(0);
    let mut n: usize = 0;
    while n < NEIGHBOURHOOD_SIZE
        invariant
            seeds@.len() == SEEDS_COUNT,
            a < CODE_SPACE_DIM,
            y < CODE_SPACE_DIM,
            x < CODE_SPACE_DIM,
            n <= NEIGHBOURHOOD_SIZE,
            acc.0 == neighbourhood_or(seeds@, a as int, y as int, x as int, n as int),
        decreases NEIGHBOURHOOD_SIZE - n,
    {
        let slice = (a + CODE_SPACE_DIM - 1 + n / 9) % CODE_SPACE_DIM;
        let row = y + (n % 9) / 3;
        let col = x + n % 3;
        let seed = seeds[(slice * SEEDS_SIDE + row) * SEEDS_SIDE + col];
        acc = acc.or(&seed);
        n = n + 1;
    }
    acc
}

/// The code space built from a seed lattice of `10 × 12 × 12` words stored
/// row-major: the code at `(a, y, x)` is the OR of the seeds in slices
/// `a - 1`, `a`, `a + 1` (modulo 10), rows `y .. y + 3` and columns
/// `x .. x + 3`. Neighbouring codes share most of their seeds, so the space
/// changes smoothly, and the first axis wraps around.
pub fn code_space_from_seeds(seeds: &Vec<BitVector>) -> (r: CodeSpace)
    requires
        seeds@.len() == SEEDS_COUNT,
    ensures
        r.codes().len() == CODE_SPACE_DIM,
        forall|a: int| 0 <= a < CODE_SPACE_DIM ==> (#[trigger] r.codes()[a]).len() == CODE_SPACE_DIM,
        forall|a: int, y: int|
            0 <= a < CODE_SPACE_DIM && 0 <= y < CODE_SPACE_DIM ==> (#[trigger] r.codes()[a][y]).len()
                == CODE_SPACE_DIM,
        forall|a: int, y: int, x: int|
            0 <= a < CODE_SPACE_DIM && 0 <= y < CODE_SPACE_DIM && 0 <= x < CODE_SPACE_DIM
                ==> #[trigger] r.codes()[a][y][x] == code_at(seeds@, a, y, x),
        sparse_seeds(seeds@) ==> forall|a: int, y: int, x: int|
            0 <= a < CODE_SPACE_DIM && 0 <= y < CODE_SPACE_DIM && 0 <= x < CODE_SPACE_DIM
                ==> popcount(#[trigger] r.codes()[a][y][x]) <= NEIGHBOURHOOD_SIZE,
        seeds_set(seeds@) ==> forall|a: int, y: int, x: int|
            0 <= a < CODE_SPACE_DIM && 0 <= y < CODE_SPACE_DIM && 0 <= x < CODE_SPACE_DIM
                ==> popcount(#[trigger] r.codes()[a][y][x]) >= 1,
{
    let mut codes: Vec<BitVector> = Vec::new();
    let mut a: usize = 0;
    while a < CODE_SPACE_DIM
        invariant
            seeds@.len() == SEEDS_COUNT,
            a <= CODE_SPACE_DIM,
            codes@.len() == a * 100,
            forall|aa: int, yy: int, xx: int|
                0 <= aa < a && 0 <= yy < CODE_SPACE_DIM && 0 <= xx < CODE_SPACE_DIM ==> codes@[(aa
                    * 10 + yy) * 10 + xx].0 == code_at(seeds@, aa, yy, xx),
        decreases CODE_SPACE_DIM - a,
    {
        let mut y: usize = 0;
        while y < CODE_SPACE_DIM
            invariant
                seeds@.len() == SEEDS_COUNT,
                a < CODE_SPACE_DIM,
                y <= CODE_SPACE_DIM,
                codes@.len() == a * 100 + y * 10,
                forall|aa: int, yy: int, xx: int|
                    0 <= aa < a && 0 <= yy < CODE_SPACE_DIM && 0 <= xx < CODE_SPACE_DIM
                        ==> codes@[(aa * 10 + yy) * 10 + xx].0 == code_at(seeds@, aa, yy, xx),
                forall|yy: int, xx: int|
                    0 <= yy < y && 0 <= xx < CODE_SPACE_DIM ==> codes@[(a * 10 + yy) * 10 + xx].0
                        == code_at(seeds@, a as int, yy, xx),
            decreases CODE_SPACE_DIM - y,
        {
            let mut x: usize = 0;
            while x < CODE_SPACE_DIM
                invariant
                    seeds@.len() == SEEDS_COUNT,
                    a < CODE_SPACE_DIM,
                    y < CODE_SPACE_DIM,
                    x <= CODE_SPACE_DIM,
                    codes@.len() == a * 100 + y * 10 + x,
                    forall|aa: int, yy: int, xx: int|
                        0 <= aa < a && 0 <= yy < CODE_SPACE_DIM && 0 <= xx < CODE_SPACE_DIM
                            ==> codes@[(aa * 10 + yy) * 10 + xx].0 == code_at(seeds@, aa, yy, xx),
                    forall|yy: int, xx: int|
                        0 <= yy < y && 0 <= xx < CODE_SPACE_DIM ==> codes@[(a * 10 + yy) * 10
                            + xx].0 == code_at(seeds@, a as int, yy, xx),
                    forall|xx: int|
                        0 <= xx < x ==> codes@[(a * 10 + y) * 10 + xx].0 == code_at(
                            seeds@,
                            a as int,
                            y as int,
                            xx,
                        ),
                decreases CODE_SPACE_DIM - x,
            {
                let code = combine_neighbourhood(seeds, a, y, x);
                codes.push(code);
                x = x + 1;
            }
            y = y + 1;
        }
        a = a + 1;
    }
    let ghost all = codes@;
    let r = CodeSpace::from_codes(codes);
    proof {
        if sparse_seeds(seeds@) {
            assert forall|a: int, y: int, x: int|
                0 <= a < CODE_SPACE_DIM && 0 <= y < CODE_SPACE_DIM && 0 <= x < CODE_SPACE_DIM
                    implies popcount(#[trigger] r.codes()[a][y][x]) <= NEIGHBOURHOOD_SIZE by {
                assert(r.codes()[a][y][x] == all[(a * 10 + y) * 10 + x].0);
                assert(r.codes()[a][y][x] == code_at(seeds@, a, y, x));
                lemma_neighbourhood_popcount(seeds@, a, y, x, NEIGHBOURHOOD_SIZE as int);
            }
        }
        if seeds_set(seeds@) {
            assert forall|a: int, y: int, x: int|
                0 <= a < CODE_SPACE_DIM && 0 <= y < CODE_SPACE_DIM && 0 <= x < CODE_SPACE_DIM
                    implies popcount(#[trigger] r.codes()[a][y][x]) >= 1 by {
                assert(r.codes()[a][y][x] == all[(a * 10 + y) * 10 + x].0);
                assert(r.codes()[a][y][x] == code_at(seeds@, a, y, x));
                lemma_neighbourhood_not_empty(seeds@, a, y, x);
            }
        }
    }
    r
}

/// Generates a code space from a fresh lattice of seeds, each a word with
/// one bit set at a uniformly drawn position.
pub fn generate_code_space() -> (r: CodeSpace)
    ensures
        exists|seeds: Seq<BitVector>|
            {
                &&& seeds.len() == SEEDS_COUNT
                &&& forall|i: int| 0 <= i < SEEDS_COUNT ==> popcount(#[trigger] seeds[i].0) == 1
                &&& forall|a: int, y: int, x: int|
                    0 <= a < CODE_SPACE_DIM && 0 <= y < CODE_SPACE_DIM && 0 <= x < CODE_SPACE_DIM
                        ==> #[trigger] r.codes()[a][y][x] == code_at(seeds, a, y, x)
            },
        r.codes().len() == CODE_SPACE_DIM,
        forall|a: int| 0 <= a < CODE_SPACE_DIM ==> (#[trigger] r.codes()[a]).len() == CODE_SPACE_DIM,
        forall|a: int, y: int|
            0 <= a < CODE_SPACE_DIM && 0 <= y < CODE_SPACE_DIM ==> (#[trigger] r.codes()[a][y]).len()
                == CODE_SPACE_DIM,
        forall|a: int, y: int, x: int|
            0 <= a < CODE_SPACE_DIM && 0 <= y < CODE_SPACE_DIM && 0 <= x < CODE_SPACE_DIM
                ==> 1 <= popcount(#[trigger] r.codes()[a][y][x]) <= NEIGHBOURHOOD_SIZE,
{
    let mut seeds: Vec<BitVector> = Vec::new();
    let mut i: usize = 0;
    while i < SEEDS_COUNT
        invariant
            i <= SEEDS_COUNT,
            seeds@.len() == i,
            forall|j: int| 0 <= j < i ==> popcount(#[trigger] seeds@[j].0) == 1,
        decreases SEEDS_COUNT - i,
    {
        seeds.push(BitVector::random(1));
        i = i + 1;
    }
    code_space_from_seeds(&seeds)
}

} // verus!
