//! The entries of tensors by their coordinates, and sums of products of them.
use crate::arith::{ceil_log, lemma_ceil_log, lemma_num_vars_take, num_vars};
use crate::dag::equation::{dim_of, input_symbols, output_symbols, symbol_dims};
use crate::math::{lemma_div_mod, lemma_div_mod_unique, lemma_pow2_small, product_to};
use crate::shape::{coordinate, inside};
use vstd::arithmetic::power2::pow2;
use vstd::prelude::*;

verus! {

/// A tensor: its shape, its fractional bits, and the integers of its table, in which every
/// dimension is padded to a power of two and the first one is innermost.
#[verifier::ext_equal]
pub ghost struct Tensor {
    pub shape: Seq<usize>,
    pub sf: usize,
    pub table: Seq<int>,
}

/// A dimension padded to a power of two.
pub open spec fn padded(d: usize) -> int {
    pow2(ceil_log(d as int)) as int
}

/// Where in the table of a shape the entry with the given coordinates stands.
pub open spec fn place(shape: Seq<usize>, c: Seq<int>) -> int
    decreases shape.len(),
{
    if shape.len() == 0 {
        0
    } else {
        place(shape.drop_last(), c.drop_last()) + c.last() * pow2(num_vars(shape.drop_last()))
    }
}

/// There is a coordinate for each dimension, inside the padded dimension.
pub open spec fn addresses(shape: Seq<usize>, c: Seq<int>) -> bool {
    &&& c.len() == shape.len()
    &&& forall|i: int| 0 <= i < shape.len() ==> 0 <= #[trigger] c[i] < padded(shape[i])
}

/// There is a coordinate for each dimension, inside the dimension itself.
pub open spec fn interior(shape: Seq<usize>, c: Seq<int>) -> bool {
    &&& c.len() == shape.len()
    &&& forall|i: int| 0 <= i < shape.len() ==> 0 <= #[trigger] c[i] < shape[i]
}

/// The coordinates of a table entry.
pub open spec fn address_of(shape: Seq<usize>, p: int) -> Seq<int>
    decreases shape.len(),
{
    if shape.len() == 0 {
        seq![]
    } else {
        let m = pow2(num_vars(shape.drop_last())) as int;
        address_of(shape.drop_last(), p % m).push(p / m)
    }
}

impl Tensor {
    /// The entry with the given coordinates.
    pub open spec fn get(self, c: Seq<int>) -> int {
        self.table[place(self.shape, c)]
    }

    /// The table has an entry for every place of the padded shape.
    pub open spec fn full(self) -> bool {
        self.table.len() == pow2(num_vars(self.shape))
    }

    /// The same integers under another shape.
    pub open spec fn reshaped(self, shape: Seq<usize>) -> Tensor {
        Tensor { shape, ..self }
    }
}

/// The coordinates of an entry are those that give its place.
pub proof fn lemma_place(shape: Seq<usize>, c: Seq<int>)
    requires
        addresses(shape, c),
    ensures
        0 <= place(shape, c) < pow2(num_vars(shape)),
        forall|i: int|
            0 <= i < shape.len() ==> #[trigger] coordinate(shape, place(shape, c), i) == c[i],
    decreases shape.len(),
{
    lemma_pow2_small();
    if shape.len() > 0 {
        let (before, cut) = (shape.drop_last(), c.drop_last());
        let last = shape.len() - 1;
        assert forall|i: int| 0 <= i < before.len() implies 0 <= #[trigger] cut[i] < padded(
            before[i],
        ) by {
            assert(0 <= c[i] < padded(shape[i]));
        }
        lemma_place(before, cut);
        let (n, l) = (num_vars(before), ceil_log(shape.last() as int));
        vstd::arithmetic::power2::lemma_pow2_adds(n, l);
        let (p, q, m, k) = (place(shape, c), place(before, cut), pow2(n) as int, c.last());
        assert(0 <= c[last] < padded(shape[last]));
        assert(0 <= q + k * m < m * pow2(l)) by (nonlinear_arith)
            requires
                0 <= q < m,
                0 <= k,
                k + 1 <= pow2(l),
        ;
        assert forall|i: int| 0 <= i < shape.len() implies #[trigger] coordinate(shape, p, i)
            == c[i] by {
            if i == last {
                assert(shape.take(i) =~= before);
                lemma_div_mod_unique(p, m, k, q);
                vstd::arithmetic::div_mod::lemma_small_mod(k as nat, pow2(l));
            } else {
                assert(shape.take(i) =~= before.take(i));
                assert(coordinate(before, q, i) == cut[i]);
                lemma_num_vars_take(before, i);
                lemma_num_vars_take(before, i + 1);
                let (a, b) = (num_vars(before.take(i)), ceil_log(shape[i] as int));
                let rest = (n - a - b) as nat;
                vstd::arithmetic::power2::lemma_pow2_pos(a);
                vstd::arithmetic::power2::lemma_pow2_pos(b);
                vstd::arithmetic::power2::lemma_pow2_adds(a, b);
                vstd::arithmetic::power2::lemma_pow2_adds(a + b, rest);
                lemma_low_part(q, k, pow2(a) as int, pow2(b) as int, pow2(rest) as int);
            }
        }
    }
}

/// What stands above some bits does not change them.
proof fn lemma_low_part(q: int, k: int, x: int, y: int, z: int)
    requires
        x > 0,
        y > 0,
    ensures
        ((q + k * ((x * y) * z)) / x) % y == (q / x) % y,
{
    lemma_div_mod(q, x);
    let (u, r) = (q / x, q % x);
    let t = u + (k * z) * y;
    assert(q + k * ((x * y) * z) == t * x + r) by (nonlinear_arith)
        requires
            q == u * x + r,
            t == u + (k * z) * y,
    ;
    lemma_div_mod_unique(q + k * ((x * y) * z), x, t, r);
    vstd::arithmetic::div_mod::lemma_mod_multiples_vanish(k * z, u, y);
    assert(y * (k * z) + u == t) by (nonlinear_arith)
        requires
            t == u + (k * z) * y,
    ;
}

/// Every table entry has coordinates.
pub proof fn lemma_address(shape: Seq<usize>, p: int)
    requires
        0 <= p < pow2(num_vars(shape)),
    ensures
        addresses(shape, address_of(shape, p)),
        place(shape, address_of(shape, p)) == p,
    decreases shape.len(),
{
    lemma_pow2_small();
    if shape.len() > 0 {
        let before = shape.drop_last();
        let (n, l) = (num_vars(before), ceil_log(shape.last() as int));
        vstd::arithmetic::power2::lemma_pow2_adds(n, l);
        vstd::arithmetic::power2::lemma_pow2_pos(n);
        let m = pow2(n) as int;
        lemma_div_mod(p, m);
        lemma_address(before, p % m);
        let c = address_of(shape, p);
        let q = p / m;
        assert(0 <= q < pow2(l)) by (nonlinear_arith)
            requires
                0 <= p < m * pow2(l),
                p == q * m + p % m,
                0 <= p % m < m,
        ;
        assert(c.drop_last() =~= address_of(before, p % m));
        assert forall|i: int| 0 <= i < shape.len() implies 0 <= #[trigger] c[i] < padded(
            shape[i],
        ) by {
            if i < before.len() {
                assert(0 <= address_of(before, p % m)[i] < padded(before[i]));
            }
        }
    }
}

/// An entry stands inside the tensor where its coordinates do.
pub proof fn lemma_interior(shape: Seq<usize>, c: Seq<int>)
    requires
        addresses(shape, c),
    ensures
        inside(shape, place(shape, c)) == interior(shape, c),
{
    lemma_place(shape, c);
    let p = place(shape, c);
    if inside(shape, p) {
        assert forall|i: int| 0 <= i < shape.len() implies 0 <= #[trigger] c[i] < shape[i] by {
            assert(coordinate(shape, p, i) < shape[i]);
            assert(0 <= c[i] < padded(shape[i]));
        }
    }
    if interior(shape, c) {
        assert forall|i: int| 0 <= i < shape.len() implies #[trigger] coordinate(shape, p, i)
            < shape[i] by {
            assert(c[i] < shape[i]);
        }
    }
}

/// Coordinates inside a tensor are coordinates of its table.
pub proof fn lemma_interior_addresses(shape: Seq<usize>, c: Seq<int>)
    requires
        interior(shape, c),
    ensures
        addresses(shape, c),
{
    assert forall|i: int| 0 <= i < shape.len() implies 0 <= #[trigger] c[i] < padded(shape[i]) by {
        assert(0 <= c[i] < shape[i]);
        lemma_ceil_log(shape[i] as int);
    }
}

/// The places of entries of up to four coordinates.
pub proof fn lemma_places(s: Seq<usize>, c: Seq<int>)
    requires
        s.len() == c.len(),
    ensures
        s.len() == 1 ==> place(s, c) == c[0],
        s.len() == 2 ==> place(s, c) == c[0] + c[1] * padded(s[0]),
        s.len() == 3 ==> place(s, c) == c[0] + c[1] * padded(s[0]) + c[2] * (padded(s[0])
            * padded(s[1])),
        s.len() == 4 ==> place(s, c) == c[0] + c[1] * padded(s[0]) + c[2] * (padded(s[0])
            * padded(s[1])) + c[3] * (padded(s[0]) * padded(s[1]) * padded(s[2])),
{
    lemma_pow2_small();
    let n = s.len();
    if 1 <= n <= 4 {
        reveal_with_fuel(place, 5);
        reveal_with_fuel(num_vars, 5);
        let (s1, c1) = (s.drop_last(), c.drop_last());
        if n == 1 {
            assert(c.last() * 1 == c[0]);
        }
        if n >= 2 {
            lemma_pow2_product(s1);
            let (s2, c2) = (s1.drop_last(), c1.drop_last());
            if n == 2 {
                assert(c1.last() * 1 == c[0]);
            }
            if n >= 3 {
                lemma_pow2_product(s2);
                if n == 3 {
                    assert(c2.last() * 1 == c[0]);
                }
                if n == 4 {
                    let (s3, c3) = (s2.drop_last(), c2.drop_last());
                    lemma_pow2_product(s3);
                    assert(c3.last() * 1 == c[0]);
                }
            }
        }
    }
}

proof fn lemma_pow2_product(s: Seq<usize>)
    requires
        s.len() >= 1,
    ensures
        pow2(num_vars(s)) == pow2(num_vars(s.drop_last())) * padded(s.last()),
{
    vstd::arithmetic::power2::lemma_pow2_adds(num_vars(s.drop_last()), ceil_log(s.last() as int));
}

/// The coordinates that an assignment gives to some symbols.
pub open spec fn address(symbols: Seq<char>, a: spec_fn(char) -> int) -> Seq<int> {
    symbols.map_values(|s: char| a(s))
}

/// The assignment with another value for one symbol.
pub open spec fn assigned(a: spec_fn(char) -> int, s: char, v: int) -> spec_fn(char) -> int {
    |x: char|
        if x == s {
            v
        } else {
            a(x)
        }
}

/// The product of the entries of some tensors at an assignment of their symbols.
pub open spec fn entry_product(
    tensors: Seq<Tensor>,
    symbols: Seq<Seq<char>>,
    a: spec_fn(char) -> int,
) -> int {
    product_to(|i: int| tensors[i].get(address(symbols[i], a)), symbols.len() as int)
}

/// The sum of the products over all values of some symbols.
pub open spec fn entry_sum(
    tensors: Seq<Tensor>,
    symbols: Seq<Seq<char>>,
    sizes: spec_fn(char) -> int,
    summed: Seq<char>,
    a: spec_fn(char) -> int,
) -> int
    decreases summed.len(), sizes(summed.last()) + 2,
{
    if summed.len() == 0 {
        entry_product(tensors, symbols, a)
    } else {
        let n = sizes(summed.last());
        if n <= 0 {
            0
        } else {
            entry_sum_to(tensors, symbols, sizes, summed, a, n as nat)
        }
    }
}

/// The sum of the products over the first `n` values of the last of some symbols and all values of
/// the others.
pub open spec fn entry_sum_to(
    tensors: Seq<Tensor>,
    symbols: Seq<Seq<char>>,
    sizes: spec_fn(char) -> int,
    summed: Seq<char>,
    a: spec_fn(char) -> int,
    n: nat,
) -> int
    decreases summed.len(), n + 1,
{
    if n == 0 || summed.len() == 0 {
        0
    } else {
        entry_sum_to(tensors, symbols, sizes, summed, a, (n - 1) as nat) + entry_sum(
            tensors,
            symbols,
            sizes,
            summed.drop_last(),
            assigned(a, summed.last(), n - 1),
        )
    }
}

/// A symbol of one of the inputs.
pub open spec fn occurs(symbols: Seq<Seq<char>>, s: char) -> bool {
    exists|i: int| 0 <= i < symbols.len() && (#[trigger] symbols[i]).contains(s)
}

/// The symbols that are summed over: those of the inputs that the output does not have.
pub open spec fn is_summed(symbols: Seq<Seq<char>>, out: Seq<char>, summed: Seq<char>) -> bool {
    &&& summed.no_duplicates()
    &&& forall|s: char| #[trigger]
        summed.contains(s) <==> occurs(symbols, s) && !out.contains(s)
}

/// The padded dimension of a symbol of an equation.
pub open spec fn symbol_size(equation: Seq<char>, shapes: Seq<Seq<usize>>, s: char) -> int {
    padded(dim_of(symbol_dims(input_symbols(equation), shapes), s)->0)
}

/// The output holds the sums of products that an equation says: for every assignment of the symbols
/// of the output, the sum over the symbols that it does not have.
pub open spec fn contracted(equation: Seq<char>, ins: Seq<Tensor>, out: Tensor) -> bool {
    let symbols = input_symbols(equation);
    let shapes = ins.map_values(|t: Tensor| t.shape);
    let sizes = |s: char| symbol_size(equation, shapes, s);
    &&& out.full()
    &&& forall|summed: Seq<char>, a: spec_fn(char) -> int|
        #![trigger is_summed(symbols, output_symbols(equation), summed), address(
            output_symbols(equation),
            a,
        )]
        is_summed(symbols, output_symbols(equation), summed) && addresses(
            out.shape,
            address(output_symbols(equation), a),
        ) ==> out.get(address(output_symbols(equation), a)) == entry_sum(
            ins,
            symbols,
            sizes,
            summed,
            a,
        )
}

} // verus!
