//! Tensor shapes and the layout of a tensor in the table of a polynomial.
//!
//! Every dimension is padded to a power of two and takes as many index bits as that needs, the
//! first dimension the lowest ones.
use crate::arith::{ceil_log, lemma_num_vars_take, log2_ceil, num_vars};
use crate::field::{CryptoField, Fr};
use crate::math::two_to;
use crate::select::places_in;
use vstd::arithmetic::power2::pow2;
use vstd::prelude::*;

verus! {

/// The coordinate along dimension `i` of the table entry `p`.
pub open spec fn coordinate(shape: Seq<usize>, p: int, i: int) -> int {
    (p / pow2(num_vars(shape.take(i))) as int) % pow2(ceil_log(shape[i] as int)) as int
}

/// The table entry `p` belongs to the tensor itself, not to its padding.
pub open spec fn inside(shape: Seq<usize>, p: int) -> bool {
    forall|i: int| 0 <= i < shape.len() ==> #[trigger] coordinate(shape, p, i) < shape[i]
}

/// `v` inside the tensor and zero in its padding.
pub open spec fn constant_table(shape: Seq<usize>, v: int) -> Seq<int> {
    Seq::new(
        pow2(num_vars(shape)),
        |p: int|
            if inside(shape, p) {
                v
            } else {
                0
            },
    )
}

/// Whether a table entry belongs to the tensor itself.
pub fn is_inside(shape: &[usize], p: usize) -> (r: bool)
    requires
        num_vars(shape@) < usize::BITS,
    ensures
        r == inside(shape@, p as int),
{
    let mut rest = p;
    let mut i: usize = 0;
    proof {
        assert(shape@.take(0) =~= Seq::<usize>::empty());
        crate::math::lemma_pow2_small();
        assert(p as int / 1 == p);
    }
    while i < shape.len()
        invariant
            i <= shape@.len(),
            num_vars(shape@) < usize::BITS,
            rest == p as int / pow2(num_vars(shape@.take(i as int))) as int,
            forall|j: int| 0 <= j < i ==> #[trigger] coordinate(shape@, p as int, j) < shape@[j],
        decreases shape.len() - i,
    {
        proof {
            lemma_num_vars_take(shape@, i as int);
            lemma_num_vars_take(shape@, i + 1);
        }
        let size = two_to(log2_ceil(shape[i]));
        let along = rest % size;
        assert(along == coordinate(shape@, p as int, i as int));
        if along >= shape[i] {
            return false;
        }
        proof {
            let before = num_vars(shape@.take(i as int));
            let l = ceil_log(shape@[i as int] as int);
            vstd::arithmetic::power2::lemma_pow2_adds(before, l);
            vstd::arithmetic::power2::lemma_pow2_pos(before);
            vstd::arithmetic::div_mod::lemma_div_denominator(
                p as int,
                pow2(before) as int,
                pow2(l) as int,
            );
        }
        rest = rest / size;
        i += 1;
    }
    true
}

/// The table of a tensor with one value everywhere.
pub fn padded_constant(shape: &[usize], v: Fr) -> (r: Vec<Fr>)
    requires
        num_vars(shape@) < usize::BITS,
    ensures
        crate::field::vals(r@) =~= constant_table(shape@, v@),
{
    let size = two_to(crate::arith::get_n(shape));
    let zero = Fr::zero();
    let mut r: Vec<Fr> = Vec::with_capacity(size);
    let mut p: usize = 0;
    while p < size
        invariant
            p <= size,
            size == pow2(num_vars(shape@)),
            num_vars(shape@) < usize::BITS,
            zero@ == 0,
            r@.len() == p,
            forall|q: int| 0 <= q < p ==> (#[trigger] r@[q])@ == constant_table(shape@, v@)[q],
        decreases size - p,
    {
        if is_inside(shape, p) {
            r.push(v);
        } else {
            r.push(zero);
        }
        p += 1;
    }
    r
}

/// The dimension of a shape at place `i` of a shape with `rank` dimensions, the last dimensions
/// aligned; one where it has none.
pub open spec fn dim_at(shape: Seq<usize>, rank: int, i: int) -> usize {
    if i < rank - shape.len() {
        1
    } else {
        shape[i - (rank - shape.len())]
    }
}

pub open spec fn larger(a: nat, b: nat) -> nat {
    if a < b {
        b
    } else {
        a
    }
}

/// Aligned at the end, the two shapes agree wherever neither dimension is one.
pub open spec fn compatible(a: Seq<usize>, b: Seq<usize>) -> bool {
    let rank = larger(a.len(), b.len()) as int;
    forall|i: int|
        #![trigger dim_at(a, rank, i)]
        0 <= i < rank ==> dim_at(a, rank, i) == dim_at(b, rank, i) || dim_at(a, rank, i) == 1
            || dim_at(b, rank, i) == 1
}

/// The shape that two compatible shapes are broadcast to.
pub open spec fn broadcasted(a: Seq<usize>, b: Seq<usize>) -> Seq<usize> {
    let rank = larger(a.len(), b.len());
    Seq::new(
        rank,
        |i: int|
            if dim_at(a, rank as int, i) == 1 {
                dim_at(b, rank as int, i)
            } else {
                dim_at(a, rank as int, i)
            },
    )
}

fn dimension_at(shape: &[usize], rank: usize, i: usize) -> (r: usize)
    requires
        shape@.len() <= rank,
        i < rank,
    ensures
        r == dim_at(shape@, rank as int, i as int),
{
    if i < rank - shape.len() {
        1
    } else {
        shape[i - (rank - shape.len())]
    }
}

/// The shape that two shapes are broadcast to, if they are compatible.
pub fn broadcast_shape(a: &[usize], b: &[usize]) -> (r: Option<Vec<usize>>)
    ensures
        r is Some <==> compatible(a@, b@),
        r matches Some(v) ==> v@ == broadcasted(a@, b@),
{
    let rank = if a.len() < b.len() {
        b.len()
    } else {
        a.len()
    };
    let mut r: Vec<usize> = Vec::with_capacity(rank);
    let mut i: usize = 0;
    while i < rank
        invariant
            i <= rank,
            rank == larger(a@.len(), b@.len()),
            r@ == broadcasted(a@, b@).take(i as int),
            forall|j: int|
                #![trigger dim_at(a@, rank as int, j)]
                0 <= j < i ==> dim_at(a@, rank as int, j) == dim_at(b@, rank as int, j) || dim_at(
                    a@,
                    rank as int,
                    j,
                ) == 1 || dim_at(b@, rank as int, j) == 1,
        decreases rank - i,
    {
        let x = dimension_at(a, rank, i);
        let y = dimension_at(b, rank, i);
        if x != y && x != 1 && y != 1 {
            assert(dim_at(a@, rank as int, i as int) == x);
            return None;
        }
        r.push(
            if x == 1 {
                y
            } else {
                x
            },
        );
        i += 1;
    }
    assert(broadcasted(a@, b@).take(rank as int) =~= broadcasted(a@, b@));
    Some(r)
}

/// The tensor shape `a` can be broadcast to the shape `c`.
pub open spec fn broadcasts_to(a: Seq<usize>, c: Seq<usize>) -> bool {
    &&& a.len() <= c.len()
    &&& forall|i: int|
        #![trigger dim_at(a, c.len() as int, i)]
        0 <= i < c.len() ==> dim_at(a, c.len() as int, i) == c[i] || dim_at(a, c.len() as int, i)
            == 1
}

/// Two compatible shapes can both be broadcast to their common shape.
pub proof fn lemma_broadcasted(a: Seq<usize>, b: Seq<usize>)
    requires
        compatible(a, b),
    ensures
        broadcasts_to(a, broadcasted(a, b)),
        broadcasts_to(b, broadcasted(a, b)),
{
    let rank = larger(a.len(), b.len()) as int;
    let c = broadcasted(a, b);
    assert forall|i: int| 0 <= i < rank implies ((#[trigger] dim_at(a, rank, i)) == c[i] || dim_at(
        a,
        rank,
        i,
    ) == 1) && (dim_at(b, rank, i) == c[i] || dim_at(b, rank, i) == 1) by {}
    assert forall|i: int| 0 <= i < rank implies ((#[trigger] dim_at(b, rank, i)) == c[i] || dim_at(
        b,
        rank,
        i,
    ) == 1) by {
        assert(dim_at(a, rank, i) == dim_at(a, rank, i));
    }
}

/// Of the first `k` dimensions of `c`, those that `a` has too.
pub open spec fn matched_below(a: Seq<usize>, c: Seq<usize>, k: nat) -> Seq<usize>
    decreases k,
{
    if k == 0 {
        seq![]
    } else {
        let before = matched_below(a, c, (k - 1) as nat);
        if k - 1 >= c.len() - a.len() && dim_at(a, c.len() as int, k - 1) == c[k - 1] {
            before.push((k - 1) as usize)
        } else {
            before
        }
    }
}

/// The dimensions of `c` that `a` has too.
pub open spec fn matched(a: Seq<usize>, c: Seq<usize>) -> Seq<usize> {
    matched_below(a, c, c.len())
}

/// The dimensions of `c` that `a` has too, where `a` can be broadcast to `c`.
pub fn matched_axes(a: &[usize], c: &[usize]) -> (r: Option<Vec<usize>>)
    ensures
        r is Some <==> broadcasts_to(a@, c@),
        r matches Some(v) ==> v@ == matched(a@, c@),
{
    if a.len() > c.len() {
        return None;
    }
    let rank = c.len();
    let mut r: Vec<usize> = Vec::new();
    let mut i: usize = 0;
    while i < rank
        invariant
            i <= rank,
            rank == c@.len(),
            a@.len() <= rank,
            r@ == matched_below(a@, c@, i as nat),
            forall|j: int|
                #![trigger dim_at(a@, rank as int, j)]
                0 <= j < i ==> dim_at(a@, rank as int, j) == c@[j] || dim_at(a@, rank as int, j)
                    == 1,
        decreases rank - i,
    {
        let x = dimension_at(a, rank, i);
        if x != c[i] && x != 1 {
            assert(dim_at(a@, rank as int, i as int) == x);
            return None;
        }
        if i >= rank - a.len() && x == c[i] {
            r.push(i);
        }
        i += 1;
    }
    Some(r)
}

/// Where the index bits of each dimension begin.
pub open spec fn bit_offsets(shape: Seq<usize>) -> Seq<usize> {
    Seq::new(shape.len(), |i: int| num_vars(shape.take(i)) as usize)
}

/// The index bits of the given dimensions, one dimension after the other.
pub open spec fn places(dims: Seq<usize>, shape: Seq<usize>, offsets: Seq<usize>) -> Seq<int>
    decreases dims.len(),
{
    if dims.len() == 0 {
        seq![]
    } else {
        let m = dims.last() as int;
        places(dims.drop_last(), shape, offsets) + Seq::new(
            ceil_log(shape[m] as int),
            |k: int| offsets[m] + k,
        )
    }
}

/// The index bits that a tensor of shape `a` shares with one of shape `c` that it is broadcast to.
pub open spec fn shared_places(a: Seq<usize>, c: Seq<usize>) -> Seq<int> {
    places(matched(a, c), c, bit_offsets(c))
}

/// The shared index bits are increasing, and there are as many as `a` has.
pub proof fn lemma_shared_places(a: Seq<usize>, c: Seq<usize>)
    requires
        broadcasts_to(a, c),
        num_vars(c) <= usize::MAX,
        c.len() <= usize::MAX,
    ensures
        places_in(shared_places(a, c), num_vars(c)),
        shared_places(a, c).len() == num_vars(a),
{
    lemma_shared_below(a, c, c.len());
    assert(c.take(c.len() as int) =~= c);
    assert(a.take(a.len() as int) =~= a);
}

proof fn lemma_shared_below(a: Seq<usize>, c: Seq<usize>, k: nat)
    requires
        broadcasts_to(a, c),
        num_vars(c) <= usize::MAX,
        c.len() <= usize::MAX,
        k <= c.len(),
    ensures
        places_in(
            places(matched_below(a, c, k), c, bit_offsets(c)),
            num_vars(c.take(k as int)),
        ),
        places(matched_below(a, c, k), c, bit_offsets(c)).len() == num_vars(
            a.take(
                if k < c.len() - a.len() {
                    0
                } else {
                    k - (c.len() - a.len())
                },
            ),
        ),
    decreases k,
{
    let off = c.len() - a.len();
    if k == 0 {
        assert(a.take(0) =~= Seq::<usize>::empty());
    } else {
        let j = (k - 1) as nat;
        lemma_shared_below(a, c, j);
        lemma_num_vars_take(c, j as int);
        lemma_num_vars_take(c, k as int);
        let before = matched_below(a, c, j);
        let now = matched_below(a, c, k);
        let bp = places(before, c, bit_offsets(c));
        let np = places(now, c, bit_offsets(c));
        assert(dim_at(a, c.len() as int, j as int) == c[j as int] || dim_at(
            a,
            c.len() as int,
            j as int,
        ) == 1);
        if j >= off {
            lemma_num_vars_take(a, j - off);
            assert(ceil_log(1) == 0);
        } else {
            assert(a.take(0) =~= Seq::<usize>::empty());
        }
        if j >= off && dim_at(a, c.len() as int, j as int) == c[j as int] {
            assert(now.drop_last() =~= before);
            assert(now.last() == j as usize);
            let start = num_vars(c.take(j as int)) as int;
            assert(bit_offsets(c)[j as int] == start);
            assert forall|i: int| 0 <= i < np.len() implies 0 <= #[trigger] np[i] < num_vars(
                c.take(k as int),
            ) by {
                if i < bp.len() {
                    assert(np[i] == bp[i]);
                } else {
                    assert(np[i] == start + (i - bp.len()));
                }
            }
            assert forall|x: int, y: int| 0 <= x < y < np.len() implies #[trigger] np[x]
                < #[trigger] np[y] by {
                if y < bp.len() {
                    assert(np[x] == bp[x] && np[y] == bp[y]);
                } else if x < bp.len() {
                    assert(np[x] == bp[x]);
                    assert(np[y] == start + (y - bp.len()));
                } else {
                    assert(np[x] == start + (x - bp.len()));
                    assert(np[y] == start + (y - bp.len()));
                }
            }
        }
    }
}

} // verus!
