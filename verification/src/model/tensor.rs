//! Row-major numbers and the padded tables of tensors.
use crate::arith::{
    ceil_log, f_to_int, is_small, lemma_ceil_log, lemma_signed, log2_ceil, num_vars, signed,
};
use crate::field::{modulus, vals, CryptoField, Fr};
use crate::math::two_to;
use crate::witness::Witness;
use vstd::arithmetic::power2::pow2;
use vstd::prelude::*;

verus! {

/// The field element of a signed integer.
pub fn i64_to_field(v: i64) -> (r: Fr)
    ensures
        r@ == v as int % modulus(),
{
    Fr::from_i128(v as i128)
}

/// The numbers as field elements, and zeros up to `n_pad` entries.
pub open spec fn padded_row(data: Seq<i64>, n_pad: nat) -> Seq<int> {
    Seq::new(
        if data.len() < n_pad {
            n_pad
        } else {
            data.len()
        },
        |p: int|
            if p < data.len() {
                data[p] as int % modulus()
            } else {
                0
            },
    )
}

/// Pads a vector of `n` numbers with zeros.
pub fn pad_1d(data: &[i64], n: usize, n_pad: usize) -> (r: Vec<Fr>)
    requires
        data@.len() == n,
    ensures
        vals(r@) =~= padded_row(data@, n_pad as nat),
{
    let mut r: Vec<Fr> = Vec::with_capacity(n_pad);
    let zero = Fr::zero();
    let mut i: usize = 0;
    while i < n
        invariant
            i <= n,
            n == data@.len(),
            r@.len() == i,
            forall|p: int| 0 <= p < i ==> (#[trigger] r@[p])@ == data@[p] as int % modulus(),
        decreases n - i,
    {
        r.push(i64_to_field(data[i]));
        i += 1;
    }
    while i < n_pad
        invariant
            n <= i,
            i <= n_pad || i == n,
            n == data@.len(),
            zero@ == 0,
            r@.len() == i,
            forall|p: int|
                0 <= p < i ==> (#[trigger] r@[p])@ == padded_row(data@, i as nat)[p],
        decreases n_pad - i,
    {
        r.push(zero);
        i += 1;
    }
    r
}

/// The entry of a padded matrix: entry `(r, c)` stands at `r + c rows_pad`.
pub open spec fn matrix_entry(data: Seq<i64>, rows: int, cols: int, rows_pad: int, p: int) -> int {
    let (r, c) = (p % rows_pad, p / rows_pad);
    if r < rows && c < cols {
        data[r * cols + c] as int % modulus()
    } else {
        0
    }
}

/// A row-major matrix in columns, each padded with zeros, and zero columns after them.
pub open spec fn padded_matrix(
    data: Seq<i64>,
    rows: nat,
    cols: nat,
    rows_pad: nat,
    cols_pad: nat,
) -> Seq<int> {
    Seq::new(
        rows_pad * cols_pad,
        |p: int| matrix_entry(data, rows as int, cols as int, rows_pad as int, p),
    )
}

/// Pads a row-major matrix of `rows` rows and `cols` columns, and stores it by columns.
pub fn pad_2d_col_major(
    data: &[i64],
    rows: usize,
    cols: usize,
    rows_pad: usize,
    cols_pad: usize,
) -> (r: Vec<Fr>)
    requires
        data@.len() == rows * cols,
        rows <= rows_pad,
        cols <= cols_pad,
        rows_pad * cols_pad <= usize::MAX,
    ensures
        vals(r@) =~= padded_matrix(
            data@,
            rows as nat,
            cols as nat,
            rows_pad as nat,
            cols_pad as nat,
        ),
{
    let size = rows_pad * cols_pad;
    let zero = Fr::zero();
    let mut r: Vec<Fr> = Vec::with_capacity(size);
    let mut p: usize = 0;
    while p < size
        invariant
            p <= size,
            size == rows_pad * cols_pad,
            data@.len() == rows * cols,
            zero@ == 0,
            r@.len() == p,
            forall|q: int|
                0 <= q < p ==> (#[trigger] r@[q])@ == matrix_entry(
                    data@,
                    rows as int,
                    cols as int,
                    rows_pad as int,
                    q,
                ),
        decreases size - p,
    {
        assert(rows_pad > 0) by (nonlinear_arith)
            requires
                p < rows_pad * cols_pad,
                p >= 0,
        ;
        let row = p % rows_pad;
        let col = p / rows_pad;
        if row < rows && col < cols {
            proof {
                assert(row * cols + col < rows * cols && row * cols >= 0) by (nonlinear_arith)
                    requires
                        0 <= row,
                        row + 1 <= rows,
                        0 <= col < cols,
                ;
                assert(data.len() == data@.len());
            }
            r.push(i64_to_field(data[row * cols + col]));
        } else {
            r.push(zero);
        }
        p += 1;
    }
    r
}

/// The entry of a padded tensor of three dimensions: entry `(i, j, k)` stands at
/// `i + j b_pad + k b_pad s_pad`.
pub open spec fn cube_entry(
    data: Seq<i64>,
    dims: (int, int, int),
    b_pad: int,
    s_pad: int,
    p: int,
) -> int {
    let (i, j, k) = (p % b_pad, (p / b_pad) % s_pad, (p / b_pad) / s_pad);
    if i < dims.0 && j < dims.1 && k < dims.2 {
        data[(i * dims.1 + j) * dims.2 + k] as int % modulus()
    } else {
        0
    }
}

/// A row-major tensor of three dimensions with its first dimension innermost, all padded with zeros.
pub open spec fn padded_cube(
    data: Seq<i64>,
    dims: (int, int, int),
    pads: (nat, nat, nat),
) -> Seq<int> {
    Seq::new(
        pads.0 * pads.1 * pads.2,
        |p: int| cube_entry(data, dims, pads.0 as int, pads.1 as int, p),
    )
}

/// Pads a row-major tensor of shape `(b, s, d)`, and stores it with its first dimension innermost.
pub fn pad_3d_col_major(
    data: &[i64],
    b: usize,
    s: usize,
    d: usize,
    b_pad: usize,
    s_pad: usize,
    d_pad: usize,
) -> (r: Vec<Fr>)
    requires
        data@.len() == b * s * d,
        b <= b_pad,
        s <= s_pad,
        d <= d_pad,
        b_pad * s_pad <= usize::MAX,
        b_pad * s_pad * d_pad <= usize::MAX,
    ensures
        vals(r@) =~= padded_cube(
            data@,
            (b as int, s as int, d as int),
            (b_pad as nat, s_pad as nat, d_pad as nat),
        ),
{
    let size = b_pad * s_pad * d_pad;
    let zero = Fr::zero();
    let mut r: Vec<Fr> = Vec::with_capacity(size);
    let mut p: usize = 0;
    while p < size
        invariant
            p <= size,
            size == b_pad * s_pad * d_pad,
            data@.len() == b * s * d,
            zero@ == 0,
            r@.len() == p,
            forall|q: int|
                0 <= q < p ==> (#[trigger] r@[q])@ == cube_entry(
                    data@,
                    (b as int, s as int, d as int),
                    b_pad as int,
                    s_pad as int,
                    q,
                ),
        decreases size - p,
    {
        assert(b_pad > 0 && s_pad > 0) by (nonlinear_arith)
            requires
                p < b_pad * s_pad * d_pad,
                p >= 0,
                b_pad >= 0,
                s_pad >= 0,
                d_pad >= 0,
        ;
        let i = p % b_pad;
        let rest = p / b_pad;
        let j = rest % s_pad;
        let k = rest / s_pad;
        if i < b && j < s && k < d {
            proof {
                let (x, y) = (i * s + j, b * s);
                assert(0 <= x < y && i * s >= 0) by (nonlinear_arith)
                    requires
                        0 <= i,
                        i + 1 <= b,
                        0 <= j < s,
                        x == i * s + j,
                        y == b * s,
                ;
                assert(x * d + k < y * d && x * d >= 0) by (nonlinear_arith)
                    requires
                        0 <= x,
                        x + 1 <= y,
                        0 <= k < d,
                ;
                assert(x <= x * d) by (nonlinear_arith)
                    requires
                        x >= 0,
                        d >= 1,
                ;
                assert(data.len() == data@.len());
            }
            r.push(i64_to_field(data[(i * s + j) * d + k]));
        } else {
            r.push(zero);
        }
        p += 1;
    }
    r
}

/// The number of entries of a tensor.
pub open spec fn entry_count(shape: Seq<usize>) -> nat
    decreases shape.len(),
{
    if shape.len() == 0 {
        1
    } else {
        entry_count(shape.drop_last()) * shape.last() as nat
    }
}

/// Where in the padded table the entry stands that is the `q`th in row-major order.
pub open spec fn table_place(shape: Seq<usize>, q: int) -> int
    decreases shape.len(),
{
    if shape.len() == 0 {
        0
    } else {
        let d = shape.last() as int;
        table_place(shape.drop_last(), q / d) + (q % d) * pow2(num_vars(shape.drop_last()))
    }
}

/// An entry of a tensor stands inside its padded table.
pub proof fn lemma_table_place(shape: Seq<usize>, q: int)
    requires
        0 <= q < entry_count(shape),
    ensures
        0 <= table_place(shape, q) < pow2(num_vars(shape)),
    decreases shape.len(),
{
    if shape.len() == 0 {
        crate::math::lemma_pow2_small();
    } else {
        let d = shape.last() as int;
        let before = shape.drop_last();
        let count = entry_count(before) as int;
        assert(d > 0) by (nonlinear_arith)
            requires
                0 <= q < count * d,
                d >= 0,
        ;
        assert(0 <= q / d < count) by (nonlinear_arith)
            requires
                0 <= q < count * d,
                d > 0,
        ;
        lemma_table_place(before, q / d);
        lemma_ceil_log(d);
        let (a, l) = (num_vars(before), ceil_log(d));
        vstd::arithmetic::power2::lemma_pow2_adds(a, l);
        let (x, y, s, t) = (table_place(before, q / d), q % d, pow2(a) as int, pow2(l) as int);
        assert(0 <= x + y * s < s * t) by (nonlinear_arith)
            requires
                0 <= x < s,
                0 <= y,
                y + 1 <= t,
        ;
    }
}

/// The number of entries of a tensor is at most the size of its padded table.
proof fn lemma_entry_count(shape: Seq<usize>)
    ensures
        entry_count(shape) <= pow2(num_vars(shape)),
    decreases shape.len(),
{
    if shape.len() == 0 {
        crate::math::lemma_pow2_small();
    } else {
        let before = shape.drop_last();
        lemma_entry_count(before);
        let d = shape.last() as int;
        lemma_ceil_log(d);
        let (a, l) = (num_vars(before), ceil_log(d));
        vstd::arithmetic::power2::lemma_pow2_adds(a, l);
        let (x, s, t) = (entry_count(before) as int, pow2(a) as int, pow2(l) as int);
        assert(x * d <= s * t) by (nonlinear_arith)
            requires
                0 <= x <= s,
                0 <= d <= t,
        ;
    }
}

/// Where the `q`th entry in row-major order stands.
fn place_of(shape: &Vec<usize>, q: usize) -> (r: usize)
    requires
        num_vars(shape@) < usize::BITS,
        q < entry_count(shape@),
    ensures
        r == table_place(shape@, q as int),
        r < pow2(num_vars(shape@)),
{
    proof {
        lemma_table_place(shape@, q as int);
        assert(shape@.take(shape@.len() as int) =~= shape@);
    }
    let mut bits = crate::arith::get_n(shape.as_slice());
    let limit = two_to(bits);
    let ghost goal = table_place(shape@, q as int);
    let mut place: usize = 0;
    let mut rest = q;
    let mut i = shape.len();
    while i > 0
        invariant
            i <= shape@.len(),
            num_vars(shape@) < usize::BITS,
            bits == num_vars(shape@.take(i as int)),
            bits <= num_vars(shape@),
            goal < limit,
            limit <= usize::MAX,
            goal == table_place(shape@.take(i as int), rest as int) + place,
            rest < entry_count(shape@.take(i as int)),
            table_place(shape@.take(i as int), rest as int) >= 0,
        decreases i,
    {
        proof {
            crate::arith::lemma_num_vars_take(shape@, i - 1);
            assert(shape@.take(i as int).drop_last() =~= shape@.take(i - 1));
            assert(shape@.take(i as int).last() == shape@[i - 1]);
            let count = entry_count(shape@.take(i - 1)) as int;
            let d = shape@[i - 1] as int;
            assert(d > 0) by (nonlinear_arith)
                requires
                    0 <= rest < count * d,
                    d >= 0,
            ;
            assert(rest as int / d < count) by (nonlinear_arith)
                requires
                    0 <= rest < count * d,
                    d > 0,
            ;
            lemma_table_place(shape@.take(i - 1), rest as int / d);
        }
        let d = shape[i - 1];
        bits = bits - log2_ceil(d);
        let step = two_to(bits);
        let along = rest % d;
        place = place + along * step;
        rest = rest / d;
        i -= 1;
    }
    place
}

/// The numbers are the low 64 bits of the signed entries of a tensor, without its padding, in
/// row-major order.
pub open spec fn row_major(w: Witness, numbers: Seq<i64>) -> bool {
    &&& numbers.len() == entry_count(w.shape@)
    &&& forall|q: int|
        0 <= q < entry_count(w.shape@) ==> #[trigger] numbers[q] == signed(
            w.values()[table_place(w.shape@, q)],
        ) as i128 as i64
}

/// The signed entries of a tensor, without its padding, in row-major order. The low 64 bits of each
/// are kept.
pub fn witness_to_row_major_i64(w: &Witness) -> (r: Vec<i64>)
    requires
        w.filled(),
        forall|q: int|
            0 <= q < entry_count(w.shape@) ==> is_small(
                #[trigger] w.values()[table_place(w.shape@, q)],
            ),
    ensures
        row_major(*w, r@),
{
    let poly = w.data.as_ref().unwrap();
    let mut count: usize = 1;
    let mut i: usize = 0;
    proof {
        lemma_entry_count(w.shape@);
        assert(w.shape@.take(0) =~= Seq::<usize>::empty());
    }
    let limit = two_to(crate::arith::get_n(w.shape.as_slice()));
    while i < w.shape.len()
        invariant
            i <= w.shape@.len(),
            num_vars(w.shape@) < usize::BITS,
            limit == pow2(num_vars(w.shape@)),
            count == entry_count(w.shape@.take(i as int)),
        decreases w.shape.len() - i,
    {
        proof {
            assert(w.shape@.take(i + 1).drop_last() =~= w.shape@.take(i as int));
            lemma_entry_count(w.shape@.take(i + 1));
            crate::arith::lemma_num_vars_take(w.shape@, i + 1);
            crate::math::lemma_pow2_mono(num_vars(w.shape@.take(i + 1)), num_vars(w.shape@));
        }
        count = count * w.shape[i];
        i += 1;
    }
    assert(w.shape@.take(i as int) =~= w.shape@);
    let mut r: Vec<i64> = Vec::with_capacity(count);
    let mut q: usize = 0;
    while q < count
        invariant
            q <= count,
            count == entry_count(w.shape@),
            w.filled(),
            *poly == w.data->0,
            forall|q: int|
                0 <= q < entry_count(w.shape@) ==> is_small(
                    #[trigger] w.values()[table_place(w.shape@, q)],
                ),
            r@.len() == q,
            forall|k: int|
                0 <= k < q ==> #[trigger] r@[k] == signed(
                    w.values()[table_place(w.shape@, k)],
                ) as i128 as i64,
        decreases count - q,
    {
        let place = place_of(&w.shape, q);
        let x = poly.index(place);
        assert(x@ == w.values()[table_place(w.shape@, q as int)]);
        r.push(f_to_int(x) as i64);
        q += 1;
    }
    r
}

/// Padding a tensor of three dimensions and reading it back in row-major order gives the numbers
/// that were put in.
pub proof fn lemma_cube_round_trip(data: Seq<i64>, w: Witness, back: Seq<i64>)
    requires
        w.filled(),
        w.shape@.len() == 3,
        data.len() == w.shape@[0] * w.shape@[1] * w.shape@[2],
        w.values() == padded_cube(
            data,
            (w.shape@[0] as int, w.shape@[1] as int, w.shape@[2] as int),
            (
                pow2(ceil_log(w.shape@[0] as int)),
                pow2(ceil_log(w.shape@[1] as int)),
                pow2(ceil_log(w.shape@[2] as int)),
            ),
        ),
    ensures
        forall|q: int|
            0 <= q < entry_count(w.shape@) ==> is_small(
                #[trigger] w.values()[table_place(w.shape@, q)],
            ),
        row_major(w, back) ==> back == data,
{
    let shape = w.shape@;
    let (b, s, d) = (shape[0] as int, shape[1] as int, shape[2] as int);
    let two = shape.drop_last();
    let one = two.drop_last();
    let none = one.drop_last();
    assert(none =~= Seq::<usize>::empty());
    let (lb, ls, ld) = (ceil_log(b), ceil_log(s), ceil_log(d));
    let (bp, sp) = (pow2(lb) as int, pow2(ls) as int);
    assert(num_vars(none) == 0);
    assert(num_vars(one) == lb);
    assert(num_vars(two) == lb + ls);
    assert(num_vars(shape) == lb + ls + ld);
    crate::math::lemma_pow2_small();
    vstd::arithmetic::power2::lemma_pow2_adds(lb, ls);
    vstd::arithmetic::power2::lemma_pow2_adds(lb + ls, ld);
    assert(entry_count(one) == entry_count(none) * b);
    assert(entry_count(two) == entry_count(one) * s);
    assert(entry_count(shape) == b * s * d) by (nonlinear_arith)
        requires
            entry_count(none) == 1,
            entry_count(one) == entry_count(none) * b,
            entry_count(two) == entry_count(one) * s,
            entry_count(shape) == entry_count(two) * d,
    ;
    assert forall|q: int| 0 <= q < entry_count(shape) implies (#[trigger] w.values()[table_place(
        shape,
        q,
    )]) == data[q] as int % modulus() by {
        lemma_table_place(shape, q);
        let (u, k) = (q / d, q % d);
        let (i, j) = (u / s, u % s);
        lemma_row_major(b, s, d, q);
        lemma_ceil_log(b);
        lemma_ceil_log(s);
        assert(i / b == 0 && i % b == i) by {
            crate::math::lemma_div_mod_unique(i, b, 0, i);
        }
        let place = table_place(shape, q);
        assert(place == table_place(two, u) + k * pow2(lb + ls));
        assert(table_place(two, u) == table_place(one, i) + j * bp);
        assert(table_place(one, i) == table_place(none, 0) + i * 1);
        let rest = j + k * sp;
        assert(place == i + rest * bp) by (nonlinear_arith)
            requires
                place == i + j * bp + k * (bp * sp),
                rest == j + k * sp,
        ;
        crate::math::lemma_div_mod_unique(place, bp, rest, i);
        crate::math::lemma_div_mod_unique(rest, sp, k, j);
    }
    assert forall|q: int| 0 <= q < entry_count(shape) implies is_small(
        #[trigger] w.values()[table_place(shape, q)],
    ) && signed(w.values()[table_place(shape, q)]) == data[q] by {
        lemma_signed(data[q] as int);
    }
    if row_major(w, back) {
        assert forall|q: int| 0 <= q < back.len() implies back[q] == data[q] by {
            assert(signed(w.values()[table_place(shape, q)]) == data[q]);
            let v = data[q];
            assert((v as int) as i128 as i64 == v);
        }
        assert(back =~= data);
    }
}

/// Padding a matrix and reading it back in row-major order gives the numbers that were put in.
pub proof fn lemma_matrix_round_trip(data: Seq<i64>, w: Witness, back: Seq<i64>)
    requires
        w.filled(),
        w.shape@.len() == 2,
        data.len() == w.shape@[0] * w.shape@[1],
        w.values() == padded_matrix(
            data,
            w.shape@[0] as nat,
            w.shape@[1] as nat,
            pow2(ceil_log(w.shape@[0] as int)),
            pow2(ceil_log(w.shape@[1] as int)),
        ),
    ensures
        forall|q: int|
            0 <= q < entry_count(w.shape@) ==> is_small(
                #[trigger] w.values()[table_place(w.shape@, q)],
            ),
        row_major(w, back) ==> back == data,
{
    let shape = w.shape@;
    let (rows, cols) = (shape[0] as int, shape[1] as int);
    let one = shape.drop_last();
    let none = one.drop_last();
    assert(none =~= Seq::<usize>::empty());
    let (lr, lc) = (ceil_log(rows), ceil_log(cols));
    let rp = pow2(lr) as int;
    assert(num_vars(none) == 0);
    assert(num_vars(one) == lr);
    assert(num_vars(shape) == lr + lc);
    crate::math::lemma_pow2_small();
    vstd::arithmetic::power2::lemma_pow2_adds(lr, lc);
    assert(entry_count(one) == entry_count(none) * rows);
    assert(entry_count(shape) == rows * cols) by (nonlinear_arith)
        requires
            entry_count(none) == 1,
            entry_count(one) == entry_count(none) * rows,
            entry_count(shape) == entry_count(one) * cols,
    ;
    assert forall|q: int| 0 <= q < entry_count(shape) implies (#[trigger] w.values()[table_place(
        shape,
        q,
    )]) == data[q] as int % modulus() by {
        lemma_table_place(shape, q);
        let (i, j) = (q / cols, q % cols);
        assert(rows * 1 * cols == rows * cols) by (nonlinear_arith);
        lemma_row_major(rows, 1, cols, q);
        assert(i / 1 == i && i % 1 == 0);
        lemma_ceil_log(rows);
        crate::math::lemma_div_mod_unique(i, rows, 0, i);
        let place = table_place(shape, q);
        assert(place == table_place(one, i) + j * rp);
        assert(table_place(one, i) == table_place(none, 0) + i * 1);
        crate::math::lemma_div_mod_unique(place, rp, j, i);
    }
    assert forall|q: int| 0 <= q < entry_count(shape) implies is_small(
        #[trigger] w.values()[table_place(shape, q)],
    ) && signed(w.values()[table_place(shape, q)]) == data[q] by {
        lemma_signed(data[q] as int);
    }
    if row_major(w, back) {
        assert forall|q: int| 0 <= q < back.len() implies back[q] == data[q] by {
            assert(signed(w.values()[table_place(shape, q)]) == data[q]);
            let v = data[q];
            assert((v as int) as i128 as i64 == v);
        }
        assert(back =~= data);
    }
}

/// The coordinates of an entry in row-major order.
proof fn lemma_row_major(b: int, s: int, d: int, q: int)
    requires
        0 <= q < b * s * d,
        0 <= b,
        0 <= s,
        0 <= d,
    ensures
        0 <= q % d < d,
        0 <= (q / d) % s < s,
        0 <= (q / d) / s < b,
        ((q / d) / s * s + (q / d) % s) * d + q % d == q,
{
    assert(d > 0) by (nonlinear_arith)
        requires
            0 <= q < b * s * d,
            0 <= d,
    ;
    let (u, k) = (q / d, q % d);
    crate::math::lemma_div_mod(q, d);
    assert(0 <= u < b * s) by (nonlinear_arith)
        requires
            0 <= q < (b * s) * d,
            q == u * d + k,
            0 <= k < d,
    ;
    assert(s > 0) by (nonlinear_arith)
        requires
            0 <= u < b * s,
            0 <= s,
    ;
    crate::math::lemma_div_mod(u, s);
    let (i, j) = (u / s, u % s);
    assert(0 <= i < b) by (nonlinear_arith)
        requires
            0 <= u < b * s,
            u == i * s + j,
            0 <= j < s,
    ;
}

} // verus!
