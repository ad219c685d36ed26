//! The operations of a graph do what a run says of them.
use crate::arith::{
    ceil_log, lemma_nearest, lemma_num_vars_take, lemma_signed, lemma_signed_cong, ln2_at, nearest,
    num_vars, signed,
};
use crate::basicblock::add::{difference_table, spread_to, sum_table, Add, Sub};
use crate::basicblock::clamp::ClampLower;
use crate::basicblock::exp::{power_table, step_count, step_place, ExpHelper, TwoPow, K_BITS};
use crate::basicblock::llama::{divided, largest, reciprocal_of, DivConst, Reciprocal, SoftmaxConst};
use crate::basicblock::scale::{
    lemma_scaled_down, rounding_rest, scale_up_place, scaled_down, ScaleDown, ScaleUp,
};
use crate::basicblock::shape::ChangeShape;
use crate::basicblock::{entries_below, entry_selection, selects, BasicBlock};
use crate::dag::entries::{
    addresses, interior, lemma_interior_addresses, lemma_place, padded, place, Tensor,
};
use crate::dag::graph::{content_table, Op};
use crate::dag::run::{
    aligned, at_least, combined, exponent_place, exponent_rest, lemma_maximum, maximum, row_of, Run,
};
use crate::dag::sums::lemma_padded_one;
use crate::math::{lemma_cong_add, lemma_cong_sub, lemma_pow2_small, lemma_pow2_step};
use crate::mle::{bits, lemma_bits_len};
use crate::select::{from_bits, lemma_bit, lemma_from_bits_push, pick};
use crate::shape::{
    bit_offsets, broadcasts_to, coordinate, dim_at, lemma_broadcasted, matched_below, places,
};
use crate::witness::{Value, Witness};
use crate::field::modulus;
use vstd::arithmetic::power2::pow2;
use vstd::prelude::*;

verus! {

/// The integers that one sequence of bits after another stands for.
proof fn lemma_from_bits_join(x: Seq<int>, y: Seq<int>)
    ensures
        from_bits(x + y) == from_bits(x) + from_bits(y) * pow2(x.len()),
    decreases y.len(),
{
    if y.len() == 0 {
        assert(x + y =~= x);
        assert(0 * pow2(x.len()) == 0);
    } else {
        let rest = y.drop_last();
        lemma_from_bits_join(x, rest);
        assert(x + y =~= (x + rest).push(y.last()));
        assert(y =~= rest.push(y.last()));
        lemma_from_bits_push(x + rest, y.last());
        lemma_from_bits_push(rest, y.last());
        vstd::arithmetic::power2::lemma_pow2_adds(x.len(), rest.len());
        let (a, b, c, d) = (
            from_bits(rest),
            y.last(),
            pow2(x.len()) as int,
            pow2(rest.len()) as int,
        );
        assert((a + b * d) * c == a * c + b * (c * d)) by (nonlinear_arith);
    }
}

/// The integer that consecutive bits of an index stand for.
proof fn lemma_bit_run(p: int, n: nat, start: nat, b: nat)
    requires
        0 <= p < pow2(n),
        start + b <= n,
    ensures
        from_bits(Seq::new(b, |k: int| bits(p, n)[start + k])) == (p / pow2(start) as int) % (pow2(
            b,
        ) as int),
    decreases b,
{
    let all = Seq::new(b, |k: int| bits(p, n)[start + k]);
    let d = p / pow2(start) as int;
    lemma_pow2_small();
    vstd::arithmetic::power2::lemma_pow2_pos(start);
    if b > 0 {
        let j = (b - 1) as nat;
        let rest = Seq::new(j, |k: int| bits(p, n)[start + k]);
        lemma_bit_run(p, n, start, j);
        let bit = bits(p, n)[(start + j) as int];
        assert(all =~= rest.push(bit));
        lemma_from_bits_push(rest, bit);
        lemma_bit(p, n, (start + j) as int);
        vstd::arithmetic::power2::lemma_pow2_adds(start, j);
        vstd::arithmetic::power2::lemma_pow2_pos(j);
        vstd::arithmetic::div_mod::lemma_div_denominator(
            p,
            pow2(start) as int,
            pow2(j) as int,
        );
        lemma_pow2_step(j);
        assert(d >= 0) by {
            vstd::arithmetic::div_mod::lemma_div_pos_is_pos(p, pow2(start) as int);
        }
        vstd::arithmetic::div_mod::lemma_mod_breakdown(d, pow2(j) as int, 2);
        assert(pow2(j) as int * 2 == pow2(b));
        let q = pow2(j) as int;
        assert(bit * q == q * bit) by (nonlinear_arith);
    } else {
        assert(all =~= seq![]);
        assert(d % 1 == 0);
    }
}

/// How many dimensions of `a` are among the first `k` of `c`.
spec fn shared_dims(a: Seq<usize>, c: Seq<usize>, k: int) -> int {
    if k < c.len() - a.len() {
        0
    } else {
        k - (c.len() - a.len())
    }
}

/// The bits of the first dimensions.
proof fn lemma_projected_below(a: Seq<usize>, c: Seq<usize>, q: Seq<int>, k: nat)
    requires
        broadcasts_to(a, c),
        c.len() <= usize::MAX,
        num_vars(c) <= usize::MAX,
        addresses(c, q),
        k <= c.len(),
    ensures
        ({
            let p = place(c, q);
            let m = shared_dims(a, c, k as int);
            &&& from_bits(
                pick(bits(p, num_vars(c)), places(matched_below(a, c, k), c, bit_offsets(c))),
            ) == place(a.take(m), aligned(a, q).take(m))
            &&& places(matched_below(a, c, k), c, bit_offsets(c)).len() == num_vars(a.take(m))
        }),
    decreases k,
{
    let p = place(c, q);
    let n = num_vars(c);
    let all = bits(p, n);
    let al = aligned(a, q);
    let off = c.len() - a.len();
    lemma_place(c, q);
    lemma_bits_len(p, n);
    if k == 0 {
        assert(a.take(0) =~= Seq::<usize>::empty());
        assert(pick(all, places(matched_below(a, c, k), c, bit_offsets(c))) =~= seq![]);
    } else {
        let j = (k - 1) as nat;
        lemma_projected_below(a, c, q, j);
        let before = matched_below(a, c, j);
        let now = matched_below(a, c, k);
        let bp = places(before, c, bit_offsets(c));
        let np = places(now, c, bit_offsets(c));
        let dim = dim_at(a, c.len() as int, j as int);
        assert(dim == c[j as int] || dim == 1);
        if j >= off {
            let m = j - off;
            assert(a.take(m + 1).drop_last() =~= a.take(m));
            assert(al.take(m + 1).drop_last() =~= al.take(m));
            assert(a.take(m + 1).last() == dim && al.take(m + 1).last() == al[m]);
            assert(al[m] == if dim == 1 {
                0
            } else {
                q[j as int]
            });
            let size = pow2(num_vars(a.take(m))) as int;
            assert(place(a.take(m + 1), al.take(m + 1)) == place(a.take(m), al.take(m)) + al[m]
                * size);
            assert(ceil_log(1) == 0);
            if dim == c[j as int] {
                assert(now.drop_last() =~= before);
                lemma_num_vars_take(c, j as int);
                lemma_num_vars_take(c, k as int);
                let start = num_vars(c.take(j as int));
                let b = ceil_log(c[j as int] as int);
                let new = Seq::new(b, |i: int| bit_offsets(c)[j as int] + i);
                assert(np =~= bp + new);
                assert(pick(all, np) =~= pick(all, bp) + pick(all, new));
                lemma_from_bits_join(pick(all, bp), pick(all, new));
                assert(c.take(k as int).drop_last() =~= c.take(j as int));
                assert(num_vars(c.take(k as int)) == start + b);
                lemma_bit_run(p, n, start, b);
                assert(pick(all, new) =~= Seq::new(b, |i: int| all[start + i]));
                assert(coordinate(c, p, j as int) == q[j as int]);
                if dim == 1 {
                    lemma_padded_one();
                    assert(q[j as int] == 0);
                }
            } else {
                assert(0 * size == 0);
            }
        } else {
            assert(a.take(0) =~= Seq::<usize>::empty());
        }
    }
}

/// A broadcast tensor has at each place the entry with the same coordinates, those along dimensions
/// of one left out.
pub proof fn lemma_broadcast_entry(a: &Witness, c: Seq<usize>, q: Seq<int>)
    requires
        broadcasts_to(a.shape@, c),
        c.len() <= usize::MAX,
        num_vars(c) <= usize::MAX,
        addresses(c, q),
    ensures
        spread_to(a, c)[place(c, q)] == a.values()[place(a.shape@, aligned(a.shape@, q))],
{
    let s = a.shape@;
    lemma_projected_below(s, c, q, c.len());
    lemma_place(c, q);
    assert(s.take(s.len() as int) =~= s);
    assert(aligned(s, q).take(s.len() as int) =~= aligned(s, q));
}

/// The tensor of a value.
pub open spec fn value_tensor(v: Value) -> Tensor {
    Tensor {
        shape: v.shape,
        sf: v.sf,
        table: content_table(v.data->0).map_values(|x: int| signed(x)),
    }
}

/// The tensor of a witness.
pub open spec fn witness_tensor(w: &Witness) -> Tensor {
    Tensor {
        shape: w.shape@,
        sf: w.sf,
        table: w.values().map_values(|x: int| signed(x)),
    }
}

/// A sum or difference of field elements stands for that of their integers where these are small.
proof fn lemma_signed_combined(a: int, b: int, difference: bool)
    requires
        -0x1000_0000_0000_0000_0000_0000_0000_0000 < signed(a)
            < 0x1000_0000_0000_0000_0000_0000_0000_0000,
        -0x1000_0000_0000_0000_0000_0000_0000_0000 < signed(b)
            < 0x1000_0000_0000_0000_0000_0000_0000_0000,
    ensures
        signed((a + b) % modulus()) == signed(a) + signed(b),
        signed((a - b) % modulus()) == signed(a) - signed(b),
{
    lemma_signed_cong(a);
    lemma_signed_cong(b);
    lemma_cong_add(signed(a), a, signed(b), b);
    lemma_cong_sub(signed(a), a, signed(b), b);
    lemma_signed(signed(a) + signed(b));
    lemma_signed(signed(a) - signed(b));
}

/// The sum and the difference of two tensors are those of their broadcast entries.
pub proof fn lemma_combined_table(a: &Witness, b: &Witness, out: Tensor, difference: bool)
    requires
        a.filled(),
        b.filled(),
        broadcasts_to(a.shape@, out.shape),
        broadcasts_to(b.shape@, out.shape),
        out.shape.len() <= usize::MAX,
        num_vars(out.shape) <= usize::MAX,
        entries_below(a.values(), 0x1000_0000_0000_0000_0000_0000_0000_0000),
        entries_below(b.values(), 0x1000_0000_0000_0000_0000_0000_0000_0000),
        difference ==> out.table == difference_table(a, b, out.shape).map_values(
            |x: int| signed(x),
        ),
        !difference ==> out.table == sum_table(a, b, out.shape).map_values(|x: int| signed(x)),
    ensures
        combined(witness_tensor(a), witness_tensor(b), out, difference),
{
    let (x, y) = (witness_tensor(a), witness_tensor(b));
    assert forall|c: Seq<int>| #[trigger] addresses(out.shape, c) implies out.get(c)
        == if difference {
        x.get(aligned(x.shape, c)) - y.get(aligned(y.shape, c))
    } else {
        x.get(aligned(x.shape, c)) + y.get(aligned(y.shape, c))
    } by {
        lemma_place(out.shape, c);
        lemma_broadcast_entry(a, out.shape, c);
        lemma_broadcast_entry(b, out.shape, c);
        lemma_aligned_addresses(a.shape@, out.shape, c);
        lemma_aligned_addresses(b.shape@, out.shape, c);
        lemma_filled_len(a);
        lemma_filled_len(b);
        let p = place(a.shape@, aligned(a.shape@, c));
        let q = place(b.shape@, aligned(b.shape@, c));
        lemma_place(a.shape@, aligned(a.shape@, c));
        lemma_place(b.shape@, aligned(b.shape@, c));
        lemma_signed_combined(a.values()[p], b.values()[q], difference);
    }
}

/// There is an entry for every place.
proof fn lemma_filled_len(a: &Witness)
    requires
        a.filled(),
    ensures
        a.values().len() == pow2(num_vars(a.shape@)),
{
}

/// Aligned coordinates are those of an entry.
proof fn lemma_aligned_addresses(a: Seq<usize>, c: Seq<usize>, q: Seq<int>)
    requires
        broadcasts_to(a, c),
        addresses(c, q),
    ensures
        addresses(a, aligned(a, q)),
{
    lemma_padded_one();
    let off = c.len() - a.len();
    assert forall|i: int| 0 <= i < a.len() implies 0 <= #[trigger] aligned(a, q)[i] < padded(
        a[i],
    ) by {
        assert(dim_at(a, c.len() as int, i + off) == a[i]);
        assert(0 <= q[i + off] < padded(c[i + off]));
    }
}

/// What the sum does is what a run says of it.
pub proof fn lemma_add_performed(
    inputs: Seq<&Witness>,
    advice: Seq<i128>,
    outputs: Seq<Witness>,
    run: Run,
)
    requires
        Add.can_run(inputs, advice),
        Add.ran(inputs, advice, outputs),
        outputs[0].shape@.len() <= usize::MAX,
        entries_below(inputs[0].values(), 0x1000_0000_0000_0000_0000_0000_0000_0000),
        entries_below(inputs[1].values(), 0x1000_0000_0000_0000_0000_0000_0000_0000),
    ensures
        run.performed(
            Op::Add,
            seq![witness_tensor(inputs[0]), witness_tensor(inputs[1])],
            seq![value_tensor(outputs[0]@)],
        ),
{
    lemma_broadcasted(inputs[0].shape@, inputs[1].shape@);
    lemma_combined_table(inputs[0], inputs[1], value_tensor(outputs[0]@), false);
}

/// What the difference does is what a run says of it.
pub proof fn lemma_sub_performed(
    inputs: Seq<&Witness>,
    advice: Seq<i128>,
    outputs: Seq<Witness>,
    run: Run,
)
    requires
        Sub.can_run(inputs, advice),
        Sub.ran(inputs, advice, outputs),
        outputs[0].shape@.len() <= usize::MAX,
        entries_below(inputs[0].values(), 0x1000_0000_0000_0000_0000_0000_0000_0000),
        entries_below(inputs[1].values(), 0x1000_0000_0000_0000_0000_0000_0000_0000),
    ensures
        run.performed(
            Op::Sub,
            seq![witness_tensor(inputs[0]), witness_tensor(inputs[1])],
            seq![value_tensor(outputs[0]@)],
        ),
{
    lemma_broadcasted(inputs[0].shape@, inputs[1].shape@);
    lemma_combined_table(inputs[0], inputs[1], value_tensor(outputs[0]@), true);
}

/// What clamping does is what a run says of it.
pub proof fn lemma_clamp_performed(
    block: ClampLower,
    inputs: Seq<&Witness>,
    advice: Seq<i128>,
    outputs: Seq<Witness>,
    run: Run,
)
    requires
        block.can_run(inputs, advice),
        block.ran(inputs, advice, outputs),
    ensures
        run.performed(
            Op::ClampLower(block.c),
            seq![witness_tensor(inputs[0])],
            seq![value_tensor(outputs[0]@)],
        ),
{
    let (x, y) = (witness_tensor(inputs[0]), value_tensor(outputs[0]@));
    lemma_filled_len(inputs[0]);
    lemma_signed(-(block.c as int));
    assert(y.table =~= x.table.map_values(|v: int| at_least(v, block.c as int)));
}

/// What a change of shape does is what a run says of it.
pub proof fn lemma_change_shape_performed(
    block: ChangeShape,
    inputs: Seq<&Witness>,
    advice: Seq<i128>,
    outputs: Seq<Witness>,
    run: Run,
)
    requires
        block.can_run(inputs, advice),
        block.ran(inputs, advice, outputs),
    ensures
        run.performed(
            Op::ChangeShape(block.new_shape@),
            seq![value_tensor(inputs[0]@)],
            seq![value_tensor(outputs[0]@)],
        ),
{
}

/// What a reciprocal does is what a run says of it.
pub proof fn lemma_reciprocal_performed(
    inputs: Seq<&Witness>,
    advice: Seq<i128>,
    outputs: Seq<Witness>,
    run: Run,
)
    requires
        Reciprocal.can_run(inputs, advice),
        Reciprocal.ran(inputs, advice, outputs),
    ensures
        run.performed(
            Op::Reciprocal,
            seq![witness_tensor(inputs[0])],
            seq![value_tensor(outputs[0]@)],
        ),
{
    let (x, y) = (witness_tensor(inputs[0]), value_tensor(outputs[0]@));
    let sf = x.sf as nat;
    lemma_filled_len(inputs[0]);
    assert forall|v: int| signed(#[trigger] reciprocal_of(v, sf) % modulus()) == reciprocal_of(
        v,
        sf,
    ) by {
        lemma_reciprocal_bound(v, sf);
        lemma_signed(reciprocal_of(v, sf));
    }
    assert(y.table =~= x.table.map_values(|v: int| reciprocal_of(v, sf)));
}

/// A reciprocal is at most the square of the unit.
proof fn lemma_reciprocal_bound(v: int, sf: nat)
    requires
        sf <= 60,
    ensures
        -0x8000_0000_0000_0000_0000_0000_0000_0000 < reciprocal_of(v, sf)
            < 0x8000_0000_0000_0000_0000_0000_0000_0000,
{
    let a = if v > 0 {
        v
    } else {
        -v
    };
    let t = pow2(2 * sf) as int;
    crate::math::lemma_pow2_mono(2 * sf, 120);
    vstd::arithmetic::power2::lemma2_to64_rest();
    vstd::arithmetic::power2::lemma_pow2_adds(60, 60);
    if v != 0 {
        crate::arith::lemma_nearest(t, a);
        let r = crate::arith::nearest(t, a);
        assert(-t - 1 <= r <= t + 1) by (nonlinear_arith)
            requires
                -a <= 2 * (t - r * a) <= a,
                a >= 1,
                t >= 0,
        ;
    }
}

/// The selection of the places that a tensor holds.
pub open spec fn place_selection(t: Tensor) -> Seq<(usize, usize)> {
    Seq::new(t.table.len(), |p: int| (p as usize, t.table[p] as usize))
}

/// What a quotient does is what a run says of it.
pub proof fn lemma_div_const_performed(
    block: DivConst,
    inputs: Seq<&Witness>,
    advice: Seq<i128>,
    outputs: Seq<Witness>,
    run: Run,
)
    requires
        block.can_run(inputs, advice),
        block.ran(inputs, advice, outputs),
    ensures
        run.performed(
            Op::DivConst(block.c),
            seq![witness_tensor(inputs[0])],
            seq![value_tensor(outputs[0]@)],
        ),
{
    let (x, y) = (witness_tensor(inputs[0]), value_tensor(outputs[0]@));
    let c = block.c as int;
    lemma_filled_len(inputs[0]);
    assert forall|v: int| signed(#[trigger] divided(v, c) % modulus()) == divided(v, c) by {
        lemma_signed(divided(v, c));
    }
    assert(y.table =~= x.table.map_values(|v: int| divided(v, c)));
}

/// What scaling down does is what a run says of it; the tensor of the places that it selects is
/// given.
pub proof fn lemma_scale_down_performed(
    block: ScaleDown,
    inputs: Seq<&Witness>,
    advice: Seq<i128>,
    outputs: Seq<Witness>,
    run: Run,
) -> (t: Tensor)
    requires
        block.can_run(inputs, advice),
        block.ran(inputs, advice, outputs),
    ensures
        run.performed(
            Op::ScaleDown(block.input_sf, block.output_sf),
            seq![witness_tensor(inputs[0])],
            seq![value_tensor(outputs[0]@), t],
        ),
        selects(
            outputs[1],
            inputs[0].shape@,
            num_vars(inputs[0].shape@),
            (block.input_sf - block.output_sf) as nat,
            place_selection(t),
            inputs[0].data_type,
        ),
{
    let w = inputs[0];
    let (x, y) = (witness_tensor(w), value_tensor(outputs[0]@));
    let n = num_vars(w.shape@);
    let factor = pow2((block.input_sf - block.output_sf) as nat) as int;
    vstd::arithmetic::power2::lemma_pow2_pos((block.input_sf - block.output_sf) as nat);
    lemma_filled_len(w);
    let t = Tensor {
        shape: w.shape@,
        sf: 0,
        table: x.table.map_values(|v: int| rounding_rest(v, factor)),
    };
    assert forall|p: int| 0 <= p < x.table.len() implies #[trigger] y.table[p] == scaled_down(
        x.table[p],
        factor,
    ) by {
        let v = x.table[p];
        assert(v == signed(w.values()[p]));
        lemma_scaled_down(v, factor);
        let r = scaled_down(v, factor);
        assert(-0x6000_0000_0000_0000_0000_0000_0000_0000 < r
            < 0x6000_0000_0000_0000_0000_0000_0000_0000) by (nonlinear_arith)
            requires
                v == r * factor + rounding_rest(v, factor) - factor / 2,
                0 <= rounding_rest(v, factor) < factor,
                factor >= 1,
                -0x4000_0000_0000_0000_0000_0000_0000_0000 < v
                    < 0x4000_0000_0000_0000_0000_0000_0000_0000,
        ;
        lemma_signed(r);
    }
    assert(y.table =~= x.table.map_values(|v: int| scaled_down(v, factor)));
    assert(place_selection(t) =~= entry_selection(
        n,
        |p: int| rounding_rest(signed(w.values()[p]), factor),
    ));
    t
}

/// What scaling up does is what a run says of it; the tensor of the places that it selects is
/// given.
pub proof fn lemma_scale_up_performed(
    block: ScaleUp,
    inputs: Seq<&Witness>,
    advice: Seq<i128>,
    outputs: Seq<Witness>,
    run: Run,
) -> (t: Tensor)
    requires
        block.can_run(inputs, advice),
        block.ran(inputs, advice, outputs),
        forall|p: int|
            0 <= p < inputs[0].values().len() ==> signed(#[trigger] inputs[0].values()[p]) * pow2(
                (block.output_sf - block.input_sf) as nat,
            ) != -0x8000_0000_0000_0000_0000_0000_0000_0000,
    ensures
        run.performed(
            Op::ScaleUp(block.input_sf, block.output_sf),
            seq![witness_tensor(inputs[0])],
            seq![value_tensor(outputs[0]@), t],
        ),
        selects(
            outputs[1],
            inputs[0].shape@,
            num_vars(inputs[0].shape@),
            (block.output_sf - block.input_sf) as nat,
            place_selection(t),
            inputs[0].data_type,
        ),
{
    let w = inputs[0];
    let (x, y) = (witness_tensor(w), value_tensor(outputs[0]@));
    let n = num_vars(w.shape@);
    let k = (block.output_sf - block.input_sf) as nat;
    let factor = pow2(k) as int;
    lemma_filled_len(w);
    let t = Tensor {
        shape: w.shape@,
        sf: 0,
        table: x.table.map_values(|v: int| scale_up_place(v, k)),
    };
    assert forall|p: int| 0 <= p < x.table.len() implies #[trigger] y.table[p] == x.table[p]
        * factor by {
        let v = x.table[p];
        assert(v == signed(w.values()[p]));
        lemma_signed(v * factor);
    }
    assert(y.table =~= x.table.map_values(|v: int| v * pow2(k)));
    assert(place_selection(t) =~= entry_selection(
        n,
        |p: int| scale_up_place(signed(w.values()[p]), k),
    ));
    t
}

/// What the decomposition of the exponential's argument does is what a run says of it; the tensor
/// of the places that it selects is given.
pub proof fn lemma_exp_helper_performed(
    block: ExpHelper,
    inputs: Seq<&Witness>,
    advice: Seq<i128>,
    outputs: Seq<Witness>,
    run: Run,
) -> (t: Tensor)
    requires
        block.can_run(inputs, advice),
        block.ran(inputs, advice, outputs),
    ensures
        run.performed(
            Op::ExpHelper(block.sf_log),
            seq![witness_tensor(inputs[0])],
            seq![value_tensor(outputs[0]@), t],
        ),
        selects(
            outputs[1],
            inputs[0].shape@,
            num_vars(inputs[0].shape@),
            K_BITS as nat,
            place_selection(t),
            inputs[0].data_type,
        ),
{
    let w = inputs[0];
    let (x, y) = (witness_tensor(w), value_tensor(outputs[0]@));
    let n = num_vars(w.shape@);
    let ln2 = ln2_at(block.sf_log as nat);
    crate::dag::exponential::lemma_ln2_below(block.sf_log as nat);
    lemma_filled_len(w);
    let size = pow2(K_BITS as nat) as int;
    let t = Tensor {
        shape: w.shape@,
        sf: 0,
        table: x.table.map_values(|v: int| exponent_place(v, ln2, K_BITS as nat)),
    };
    assert forall|p: int| 0 <= p < x.table.len() implies #[trigger] y.table[p] == exponent_rest(
        x.table[p],
        ln2,
    ) by {
        let e = w.values()[p];
        let v = x.table[p];
        assert(v == signed(e));
        let k = step_count(nearest(-v, ln2));
        lemma_nearest(-v, ln2);
        let r = v + k * ln2;
        assert(-0x2000_0000_0000_0000_0000_0000_0000_0000 < r
            < 0x2000_0000_0000_0000_0000_0000_0000_0000) by {
            crate::math::lemma_pow2_mono(block.sf_log as nat, 32);
            vstd::arithmetic::power2::lemma2_to64();
            if nearest(-v, ln2) < 0 {
                assert(0 * ln2 == 0);
            }
        }
        lemma_signed_cong(e);
        lemma_cong_add(v, e, k * ln2, k * ln2);
        lemma_signed(r);
    }
    assert(y.table =~= x.table.map_values(|v: int| exponent_rest(v, ln2)));
    assert(place_selection(t) =~= entry_selection(
        n,
        |p: int| step_place(w.values()[p], ln2, size),
    ));
    t
}

/// The powers that a selection looks up.
proof fn lemma_power_table(n: nat, t: Tensor, count: nat)
    requires
        n < usize::BITS,
        t.table.len() == pow2(n),
        count <= pow2(n),
        forall|p: int| 0 <= p < t.table.len() ==> 0 <= #[trigger] t.table[p] <= 15,
    ensures
        power_table(n, place_selection(t), count).len() == pow2(n),
        forall|p: int|
            0 <= p < pow2(n) ==> #[trigger] power_table(n, place_selection(t), count)[p] == if p
                < count {
                pow2((15 - t.table[p]) as nat) as int
            } else {
                0
            },
    decreases count,
{
    crate::dag::sums::lemma_padded_power(n);
    if count > 0 {
        let j = (count - 1) as nat;
        lemma_power_table(n, t, j);
        let pair = place_selection(t)[j as int];
        assert(pair.0 == j && pair.1 == t.table[j as int]);
    }
}

/// What the lookup of powers of two does is what a run says of it, on the places of a tensor.
pub proof fn lemma_two_pow_performed(
    inputs: Seq<&Witness>,
    advice: Seq<i128>,
    outputs: Seq<Witness>,
    t: Tensor,
    n: nat,
    run: Run,
)
    requires
        TwoPow.can_run(inputs, advice),
        TwoPow.ran(inputs, advice, outputs),
        inputs[0].data->0->Sparse_0.selection.selection@ == place_selection(t),
        inputs[0].data->0->Sparse_0.selection.input_num_vars == n,
        n < usize::BITS,
        t.table.len() == pow2(n),
        forall|p: int| 0 <= p < t.table.len() ==> 0 <= #[trigger] t.table[p] <= 15,
    ensures
        run.performed(Op::TwoPow, seq![t], seq![value_tensor(outputs[0]@)]),
{
    lemma_power_table(n, t, pow2(n));
    let y = value_tensor(outputs[0]@);
    assert forall|p: int| 0 <= p < t.table.len() implies #[trigger] y.table[p] == pow2(
        (15 - t.table[p]) as nat,
    ) by {
        let k = (15 - t.table[p]) as nat;
        crate::math::lemma_pow2_mono(k, 15);
        vstd::arithmetic::power2::lemma2_to64();
        crate::dag::run::lemma_signed_small(pow2(k) as int);
    }
    assert(y.table =~= t.table.map_values(|k: int| pow2((15 - k) as nat) as int));
}

/// The largest entry of a group is that of the row.
proof fn lemma_largest_row(table: Seq<int>, group: int, step: int, row: Seq<int>)
    requires
        row.len() >= 1,
        forall|k: int| 0 <= k < row.len() ==> #[trigger] row[k] == signed(table[group + k * step]),
    ensures
        largest(table, group, step, row.len()) == maximum(row),
    decreases row.len(),
{
    let n = row.len();
    assert(row[n - 1] == signed(table[group + (n - 1) * step]));
    if n > 1 {
        let before = row.drop_last();
        assert forall|k: int| 0 <= k < before.len() implies #[trigger] before[k] == signed(
            table[group + k * step],
        ) by {
            assert(before[k] == row[k]);
        }
        lemma_largest_row(table, group, step, before);
    }
}

/// What the shifts of the softmax are is what a run says of them, where the numbers handed in are
/// the logarithms of the sums of the rows.
pub proof fn lemma_softmax_performed(
    block: SoftmaxConst,
    inputs: Seq<&Witness>,
    advice: Seq<i128>,
    outputs: Seq<Witness>,
    run: Run,
)
    requires
        block.can_run(inputs, advice),
        block.ran(inputs, advice, outputs),
        forall|c: Seq<int>| #[trigger]
            interior(inputs[0].shape@, c) ==> (run.log_sum)(
                row_of(witness_tensor(inputs[0]), c, block.dim),
                inputs[0].sf,
            ) == advice[place(inputs[0].shape@.drop_last(), c.drop_last())],
    ensures
        run.performed(
            Op::SoftmaxConst(block.dim),
            seq![witness_tensor(inputs[0])],
            seq![value_tensor(outputs[0]@)],
        ),
{
    let w = inputs[0];
    let (x, y) = (witness_tensor(w), value_tensor(outputs[0]@));
    let shape = w.shape@;
    let rest = shape.drop_last();
    let step = pow2(num_vars(rest)) as int;
    lemma_filled_len(w);
    assert forall|c: Seq<int>| #[trigger] interior(shape, c) implies y.get(c) == -(maximum(
        row_of(x, c, block.dim),
    ) + (run.log_sum)(row_of(x, c, block.dim), x.sf)) by {
        lemma_interior_addresses(shape, c);
        lemma_place(shape, c);
        let last = shape.len() - 1;
        let head = c.drop_last();
        assert(addresses(rest, head)) by {
            assert forall|i: int| 0 <= i < rest.len() implies 0 <= #[trigger] head[i] < padded(
                rest[i],
            ) by {
                assert(0 <= c[i] < padded(shape[i]));
            }
        }
        lemma_place(rest, head);
        let group = place(rest, head);
        let p = place(shape, c);
        assert(p == group + c.last() * step);
        crate::math::lemma_div_mod_unique(p, step, c.last(), group);
        let row = row_of(x, c, block.dim);
        assert forall|k: int| 0 <= k < row.len() implies #[trigger] row[k] == signed(
            w.values()[group + k * step],
        ) by {
            let d = c.update(last, k);
            assert(d.drop_last() =~= head);
            assert(d.last() == k);
            assert(addresses(shape, d)) by {
                assert forall|i: int| 0 <= i < shape.len() implies 0 <= #[trigger] d[i] < padded(
                    shape[i],
                ) by {
                    assert(0 <= c[i] < padded(shape[i]));
                }
            }
            lemma_place(shape, d);
        }
        lemma_largest_row(w.values(), group, step, row);
        let v = -(maximum(row) + advice[group]);
        lemma_maximum(row);
        let k = choose|k: int| 0 <= k < row.len() && #[trigger] row[k] == maximum(row);
        let d = group + k * step;
        assert(0 <= d < w.values().len()) by {
            let e = c.update(last, k);
            assert(e.drop_last() =~= head);
            assert(addresses(shape, e)) by {
                assert forall|i: int| 0 <= i < shape.len() implies 0 <= #[trigger] e[i] < padded(
                    shape[i],
                ) by {
                    assert(0 <= c[i] < padded(shape[i]));
                }
            }
            lemma_place(shape, e);
        }
        assert(row[k] == signed(w.values()[d]));
        lemma_signed(v);
    }
}

} // verus!
