//! What the exponential and the sigmoid of a graph compute.
use crate::arith::{lemma_ln2_positive, lemma_nearest, ln2_at, nearest, num_vars};
use crate::basicblock::clamp::lemma_clamp_constraints;
use crate::basicblock::exp::{step_count, K_BITS};
use crate::basicblock::scale::lemma_scaled_down;
use crate::dag::entries::{addresses, interior, lemma_interior, lemma_place, place};
use crate::dag::equation::letters_of;
use crate::dag::fits::{
    holds, lemma_binary_fits, lemma_change_shape_fits, lemma_clamp_lower_fits,
    lemma_constant_flat_fits, lemma_extends_self, lemma_mask_fits, lemma_minus_fits, lemma_need,
    lemma_next, lemma_node_fits, lemma_nonneg_fits, lemma_pair_fits, lemma_param_fits,
    lemma_plus_fits, lemma_ready_less, lemma_same_shape, lemma_scale_fits, lemma_sigmoid_const_fits,
    lemma_two_pow_fits, ready,
};
use crate::dag::graph::{Graph, Op};
use crate::dag::readings::{lemma_a_a_a, lemma_entrywise};
use crate::dag::run::{
    at_least, exponent_place, exponent_rest, group_step_part, lemma_assert_zero_run,
    lemma_binary_run, lemma_change_shape_run, lemma_constant_flat_run, lemma_constant_run,
    lemma_holds_run, lemma_minus_run, lemma_node_run, lemma_nonneg_run, lemma_pair_run,
    lemma_part_more, lemma_part_run, lemma_plus_run, lemma_scale_run, lemma_sigmoid_const_run,
    lemma_two_pow_run, part, rescaled, Run,
};
use crate::dag::sums::{lemma_a_a_a_sum, lemma_entrywise_sum, lemma_flat_vars, lemma_same_combined};
use crate::math::{lemma_pow2_small, lemma_pow2_step};
use crate::shape::{constant_table, inside};
use crate::witness::{dense_value, empty_value, DataType, Role};
use vstd::arithmetic::power2::pow2;
use vstd::prelude::*;

verus! {

/// `1 + r + r^2 / 2 + r^3 / 6` for `r = rest / 2^15`, times `6 * 2^45`.
pub open spec fn taylor(rest: int) -> int {
    0xC000_0000_0000 + 0x1_8000_0000 * rest + 0x1_8000 * (rest * rest) + rest * rest * rest
}

/// The exponential of `rest / 2^15` with 15 fractional bits: of the Taylor polynomial in the form
/// `(r / 6 + 1 / 2) * r^2 + r + 1`, each product rounded.
pub open spec fn rest_exp(rest: int) -> int {
    let square = rescaled(rest * rest, 30, 15);
    let factor = rescaled(rest * 5461, 30, 15) + 16384;
    rescaled(factor * square, 30, 15) + rest + 32768
}

/// The whole number of times that `ln 2` is taken out of an argument.
pub open spec fn halvings(x: int, sf: usize) -> int {
    step_count(nearest(-x, ln2_at(sf as nat)))
}

/// What is left of an argument, with 15 fractional bits.
pub open spec fn exp_rest(x: int, sf: usize) -> int {
    rescaled(x + halvings(x, sf) * ln2_at(sf as nat), sf, 15)
}

/// The exponential of an argument with `sf` fractional bits, with as many.
pub open spec fn exp_value(x: int, sf: usize) -> int {
    rescaled(
        pow2((15 - exponent_place(x, ln2_at(sf as nat), K_BITS as nat)) as nat) * rest_exp(
            exp_rest(x, sf),
        ),
        30,
        sf,
    )
}

/// A number rounded to fewer fractional bits is off by half a unit at most.
pub proof fn lemma_rescaled(v: int, i: usize, o: usize)
    ensures
        i > o ==> ({
            let factor = pow2((i - o) as nat) as int;
            &&& factor > 0
            &&& -factor <= 2 * (rescaled(v, i, o) * factor - v) <= factor
        }),
        i <= o ==> rescaled(v, i, o) == v * pow2((o - i) as nat),
        rescaled(0, i, o) == 0,
{
    if i > o {
        let k = (i - o) as nat;
        let factor = pow2(k) as int;
        vstd::arithmetic::power2::lemma_pow2_pos(k);
        vstd::arithmetic::power2::lemma_pow2_pos((k - 1) as nat);
        lemma_pow2_step((k - 1) as nat);
        lemma_scaled_down(v, factor);
        assert(factor / 2 * 2 == factor);
        assert((0 + factor / 2) / factor == 0) by {
            vstd::arithmetic::div_mod::lemma_basic_div(factor / 2, factor);
        }
    }
}

/// `ln 2` is below one.
pub proof fn lemma_ln2_below(sf: nat)
    ensures
        0 < ln2_at(sf) <= pow2(sf),
{
    lemma_ln2_positive(sf);
    vstd::arithmetic::power2::lemma_pow2_pos(sf);
    let q = pow2(sf) as int;
    assert((crate::arith::LN2 * q + 0x10_0000_0000_0000) / 0x20_0000_0000_0000 <= q)
        by (nonlinear_arith)
        requires
            q >= 1,
            crate::arith::LN2 <= 0x18_0000_0000_0000,
    ;
}

/// An argument is what is left of it less the halvings times `ln 2`, and what is left is at most
/// half of `ln 2`.
pub proof fn lemma_halvings(x: int, sf: usize)
    requires
        -14 * ln2_at(sf as nat) <= x <= 0,
    ensures
        ({
            let ln2 = ln2_at(sf as nat);
            let k = halvings(x, sf);
            &&& 0 <= k <= 14
            &&& k == exponent_place(x, ln2, K_BITS as nat)
            &&& -ln2 <= 2 * (x + k * ln2) <= ln2
        }),
        -16384 <= exp_rest(x, sf) <= 16384,
{
    let ln2 = ln2_at(sf as nat);
    lemma_ln2_below(sf as nat);
    lemma_nearest(-x, ln2);
    let k = nearest(-x, ln2);
    assert(k >= 0) by {
        vstd::arithmetic::div_mod::lemma_div_pos_is_pos(2 * (-x) + ln2, 2 * ln2);
    }
    assert(k <= 14) by (nonlinear_arith)
        requires
            2 * (-x - k * ln2) >= -ln2,
            -14 * ln2 <= x,
            ln2 > 0,
    ;
    lemma_pow2_small();
    vstd::arithmetic::power2::lemma2_to64();
    assert(K_BITS == 4 || K_BITS == 16);
    let rest = x + k * ln2;
    let q = pow2(sf as nat) as int;
    assert(-q <= 2 * rest <= q);
    lemma_rescaled(rest, sf, 15);
    if sf > 15 {
        let factor = pow2((sf - 15) as nat) as int;
        vstd::arithmetic::power2::lemma_pow2_adds((sf - 15) as nat, 15);
        lemma_pow2_step((sf - 16) as nat);
        let half = pow2((sf - 16) as nat) as int;
        vstd::arithmetic::power2::lemma_pow2_pos((sf - 16) as nat);
        let y = rescaled(rest, sf, 15);
        assert(y <= 16384) by (nonlinear_arith)
            requires
                2 * (y * factor - rest) <= factor,
                2 * rest <= factor * 0x8000,
                factor > 0,
        ;
        assert(y >= -16384) by (nonlinear_arith)
            requires
                2 * (y * factor - rest) >= -factor,
                2 * rest >= -factor * 0x8000,
                factor > 0,
        ;
    } else {
        let factor = pow2((15 - sf) as nat) as int;
        vstd::arithmetic::power2::lemma_pow2_pos((15 - sf) as nat);
        vstd::arithmetic::power2::lemma_pow2_adds((15 - sf) as nat, sf as nat);
        assert(2 * (rest * factor) <= factor * q && 2 * (rest * factor) >= -(factor * q))
            by (nonlinear_arith)
            requires
                -q <= 2 * rest <= q,
                factor > 0,
        ;
    }
}

/// The exponential of what is left is the Taylor polynomial of degree three, up to less than one
/// unit.
pub proof fn lemma_rest_exp(rest: int)
    requires
        -16384 <= rest <= 16384,
    ensures
        -0x1_8000_0000 < 0x1_8000_0000 * rest_exp(rest) - taylor(rest) < 0x1_8000_0000,
        0 < rest_exp(rest) < 0x1_0000,
{
    let r = rest;
    vstd::arithmetic::power2::lemma2_to64();
    assert(pow2(15) == 0x8000);
    let s = rescaled(r * r, 30, 15);
    let a = rescaled(r * 5461, 30, 15);
    let p = a + 16384;
    let h = rescaled(p * s, 30, 15);
    lemma_rescaled(r * r, 30, 15);
    lemma_rescaled(r * 5461, 30, 15);
    lemma_rescaled(p * s, 30, 15);
    assert(0 <= r * r <= 268435456) by (nonlinear_arith)
        requires
            -16384 <= r <= 16384,
    ;
    let es = s * 0x8000 - r * r;
    assert(-0x4000 <= es <= 0x4000);
    assert(0 <= s <= 8192);
    // p is within 2/3 of r / 6 + 2^14
    let ep = 6 * p - (r + 98304);
    assert(0x3_0000 * p == 6 * (a * 0x8000) + 0xC000_0000);
    assert(-4 <= ep <= 4);
    // 6 * 2^30 * h against 6 * 2^15 * p * s
    let eh = h * 0x8000 - p * s;
    assert(-0x4000 <= eh <= 0x4000);
    // 6 p s 2^15 = (r + 6 * 2^14 + ep) (r^2 + es)
    let t = r + 98304;
    assert(6 * p * (s * 0x8000) == (t + ep) * (r * r + es));
    assert((t + ep) * (r * r + es) == t * (r * r) + t * es + ep * (s * 0x8000)) by (nonlinear_arith)
        requires
            s * 0x8000 == r * r + es,
    ;
    assert(6 * p * (s * 0x8000) == 0x3_0000 * (p * s)) by (nonlinear_arith);
    assert(t * (r * r) == r * r * r + 98304 * (r * r)) by (nonlinear_arith)
        requires
            t == r + 98304,
    ;
    assert(-(1879048192) <= t * es <= 1879048192) by (nonlinear_arith)
        requires
            0 <= t <= 114688,
            -0x4000 <= es <= 0x4000,
    ;
    assert(-(1073741824) <= ep * (s * 0x8000) <= 1073741824) by (nonlinear_arith)
        requires
            -4 <= ep <= 4,
            0 <= s <= 8192,
    ;
    assert(0x1_8000_0000 * h == 0x3_0000 * (p * s) + 0x3_0000 * eh);
    assert(-4398046511104 <= r * r * r <= 4398046511104) by (nonlinear_arith)
        requires
            -16384 <= r <= 16384,
            0 <= r * r <= 268435456,
    ;
}

/// The exponential: for an argument `x` from `-14 ln 2` to zero it is `2^-k * (1 + r + r^2 / 2 +
/// r^3 / 6)`, where `x = r - k ln 2` with `r` at most half of `ln 2`, up to the rounding to `sf`
/// fractional bits and `2^-k` of a unit of 15 fractional bits.
pub proof fn lemma_exp_value(x: int, sf: usize)
    requires
        -14 * ln2_at(sf as nat) <= x <= 0,
    ensures
        ({
            let k = halvings(x, sf);
            let exact = pow2((15 - k) as nat) * taylor(exp_rest(x, sf));
            let off = 0x1_8000_0000 * pow2((15 - k) as nat);
            let v = exp_value(x, sf);
            &&& sf < 30 ==> {
                let unit = 0x1_8000_0000 * pow2((30 - sf) as nat);
                -(off + unit / 2) <= unit * v - exact <= off + unit / 2
            }
            &&& sf >= 30 ==> {
                let up = pow2((sf - 30) as nat);
                -(up * off) <= 0x1_8000_0000 * v - up * exact <= up * off
            }
        }),
{
    let k = halvings(x, sf);
    let rest = exp_rest(x, sf);
    lemma_halvings(x, sf);
    lemma_rest_exp(rest);
    let power = pow2((15 - k) as nat) as int;
    vstd::arithmetic::power2::lemma_pow2_pos((15 - k) as nat);
    let e = rest_exp(rest);
    let v = exp_value(x, sf);
    lemma_rescaled(power * e, 30, sf);
    let c = 0x1_8000_0000int;
    let exact = power * taylor(rest);
    let d = c * e - taylor(rest);
    assert(c * (power * e) - exact == power * d) by (nonlinear_arith)
        requires
            d == c * e - taylor(rest),
            exact == power * taylor(rest),
    ;
    assert(-(c * power) <= power * d <= c * power) by (nonlinear_arith)
        requires
            -c < d < c,
            power > 0,
    ;
    if sf < 30 {
        let factor = pow2((30 - sf) as nat) as int;
        lemma_pow2_step((29 - sf) as nat);
        let w = v * factor - power * e;
        assert(c * factor * v == c * (v * factor)) by (nonlinear_arith);
        assert(c * (v * factor) == c * (power * e) + c * w) by (nonlinear_arith)
            requires
                w == v * factor - power * e,
        ;
        assert(-(c * factor) <= 2 * (c * w) <= c * factor) by (nonlinear_arith)
            requires
                -factor <= 2 * w <= factor,
                c == 0x1_8000_0000,
        ;
    } else {
        let up = pow2((sf - 30) as nat) as int;
        vstd::arithmetic::power2::lemma_pow2_pos((sf - 30) as nat);
        assert(c * (power * e * up) - up * exact == up * (c * (power * e) - exact))
            by (nonlinear_arith);
        assert(-(up * (c * power)) <= up * (power * d) <= up * (c * power)) by (nonlinear_arith)
            requires
                -(c * power) <= power * d <= c * power,
                up > 0,
        ;
    }
}

/// The exponential of zero is one.
pub proof fn lemma_exp_zero(sf: usize)
    ensures
        exp_value(0, sf) == pow2(sf as nat),
{
    lemma_ln2_below(sf as nat);
    lemma_halvings(0, sf);
    let ln2 = ln2_at(sf as nat);
    let k = halvings(0, sf);
    assert(k == 0) by {
        vstd::arithmetic::div_mod::lemma_basic_div(ln2, 2 * ln2);
    }
    assert(0 * ln2 == 0);
    lemma_rescaled(0, sf, 15);
    lemma_rescaled(0, 30, 15);
    vstd::arithmetic::power2::lemma2_to64();
    assert(rest_exp(0) == 32768) by {
        assert((0 + 16384) * rescaled(0, 30, 15) == 0);
    }
    assert(pow2(15) * 32768 == pow2(30));
    if sf < 30 {
        let factor = pow2((30 - sf) as nat) as int;
        vstd::arithmetic::power2::lemma_pow2_adds((30 - sf) as nat, sf as nat);
        lemma_rescaled(pow2(30) as int, 30, sf);
        let v = rescaled(pow2(30) as int, 30, sf);
        let q = pow2(sf as nat) as int;
        assert(v == q) by (nonlinear_arith)
            requires
                -factor <= 2 * (v * factor - factor * q) <= factor,
                factor > 0,
        ;
    } else {
        vstd::arithmetic::power2::lemma_pow2_adds((sf - 30) as nat, 30);
    }
}

/// A mask leaves what is inside the shape and clears the rest.
pub proof fn lemma_mask_run(g: Graph, a: usize, shape: Seq<usize>, f: usize, run: Run)
    requires
        ready(g, 4),
        holds(g, a, shape, f),
        shape.len() <= 26,
        num_vars(shape) < usize::BITS,
        run.computes(g.mask(a, shape).0),
    ensures
        part(g, g.mask(a, shape).0),
        run.on(g.mask(a, shape).1).full(),
        run.on(g.mask(a, shape).1).shape == shape,
        forall|p: int|
            0 <= p < pow2(num_vars(shape)) ==> #[trigger] run.on(g.mask(a, shape).1).table[p]
                == if inside(shape, p) {
                run.on(a).table[p]
            } else {
                0
            },
{
    broadcast use lemma_ready_less, group_step_part, lemma_part_run, lemma_holds_run;

    reveal(Graph::mask);
    lemma_extends_self(g);
    let s = letters_of(shape.len());
    let e = s + ","@ + s + "->"@ + s;
    lemma_need(g, shape.len() <= 159 && num_vars(shape) < usize::BITS);
    let ones = dense_value(shape, constant_table(shape, 1), DataType::Float, 0, Role::Constant);
    let (g1, mask) = g.param(ones);
    lemma_param_fits(g, ones);
    lemma_next(g, g, g1, 0, 1);
    let (g2, outs) = g1.einsum(e, seq![a, mask], false);
    lemma_part_more(g, g1, g2);
    lemma_entrywise(shape);
    lemma_binary_fits(g1, e, a, mask, shape, shape, f, 0, false);
    lemma_next(g, g1, g2, 1, 3);
    lemma_constant_run(g, ones, shape, 1, run);
    let m = lemma_binary_run(g1, e, a, mask, shape, shape, f, 0, false, run);
    assert(run.on(outs[0]) == m);
    assert forall|p: int| 0 <= p < pow2(num_vars(shape)) implies #[trigger] run.on(outs[0]).table[p]
        == if inside(shape, p) {
        run.on(a).table[p]
    } else {
        0
    } by {
        lemma_entrywise_sum(run.on(a), run.on(mask), m, shape, p);
        let v = run.on(a).table[p];
        assert(v * 1 == v && v * 0 == 0);
    }
}

/// Clamping gives the larger of an entry and the negated bound, and zero outside the shape: if the
/// operation does so, and also if all that is known of its output is that the checks that the graph
/// makes pass.
pub proof fn lemma_clamp_lower_run(g: Graph, x: usize, shape: Seq<usize>, f: usize, run: Run)
    requires
        ready(g, 16),
        holds(g, x, shape, f),
        shape.len() <= 26,
        num_vars(shape) < usize::BITS,
        f < 60,
        run.computes(g.clamp_lower(x).0),
        run.honest || run.passes(g.clamp_lower(x).0),
    ensures
        part(g, g.clamp_lower(x).0),
        run.on(g.clamp_lower(x).1).full(),
        run.on(g.clamp_lower(x).1).shape == shape,
        forall|p: int|
            0 <= p < pow2(num_vars(shape)) ==> #[trigger] run.on(g.clamp_lower(x).1).table[p]
                == if inside(shape, p) {
                at_least(run.on(x).table[p], 14 * ln2_at(f as nat))
            } else {
                0
            },
{
    broadcast use lemma_ready_less, group_step_part, lemma_part_run, lemma_holds_run;

    reveal(Graph::clamp_lower);
    lemma_extends_self(g);
    let n = num_vars(shape);
    let w = g.value(x);
    let flat = seq![pow2(n) as usize];
    let c = Graph::clamp_bound(w.sf);
    assert(0 <= c <= 14 * 0x1000_0000_0000_0000) by {
        lemma_ln2_below(f as nat);
        crate::math::lemma_pow2_mono(f as nat, 60);
        vstd::arithmetic::power2::lemma2_to64_rest();
    }
    let v = empty_value(shape, w.data_type, f, Role::Output);
    let bound = dense_value(shape, constant_table(shape, c), w.data_type, f, Role::Constant);
    lemma_need(g, g.known(x) && w.sf < 60 && num_vars(w.shape) < usize::BITS);
    let (g1, m) = g.mask(x, shape);
    lemma_mask_fits(g, x, shape, f);
    lemma_next(g, g, g1, 0, 4);
    let op = Op::ClampLower(c as u64);
    let g2 = g1.with_node(seq![m], op).0.with_value(v);
    lemma_node_fits(g1, seq![m], op, v);
    let y = g1.with_node(seq![m], op).1[0];
    lemma_next(g, g1, g2, 4, 1);
    let (g3, delta) = g2.minus(y, m);
    lemma_same_shape(shape);
    lemma_minus_fits(g2, y, m, shape, shape, f, f);
    lemma_next(g, g2, g3, 5, 1);
    let (g4, delta_flat) = g3.change_shape(delta[0], flat);
    lemma_change_shape_fits(g3, delta[0], flat);
    lemma_next(g, g3, g4, 6, 1);
    let g5 = g4.nonneg(delta_flat);
    lemma_nonneg_fits(g4, delta_flat);
    lemma_next(g, g4, g5, 7, 1);
    let (g6, c_edge) = g5.param(bound);
    lemma_param_fits(g5, bound);
    lemma_next(g, g5, g6, 8, 1);
    let (g7, u) = g6.plus(y, c_edge);
    lemma_plus_fits(g6, y, c_edge, shape, shape, f, f);
    lemma_next(g, g6, g7, 9, 1);
    let (g8, u_flat) = g7.change_shape(u[0], flat);
    lemma_change_shape_fits(g7, u[0], flat);
    lemma_next(g, g7, g8, 10, 1);
    let g9 = g8.nonneg(u_flat);
    lemma_nonneg_fits(g8, u_flat);
    lemma_next(g, g8, g9, 11, 1);
    let (g10, z) = g9.einsum("a,a->a"@, seq![delta_flat, u_flat], false);
    lemma_a_a_a(flat[0]);
    lemma_binary_fits(g9, "a,a->a"@, delta_flat, u_flat, flat, flat, f, f, false);
    lemma_next(g, g9, g10, 12, 3);
    let g11 = g10.assert_zero(z[0]);
    assert(run.computes(g10) && run.computes(g9) && run.computes(g8) && run.computes(g7));
    assert(run.computes(g6) && run.computes(g5) && run.computes(g4) && run.computes(g3));
    assert(run.computes(g2));
    lemma_node_run(g1, m, op, v, run);
    assert(run.computes(g1));
    lemma_mask_run(g, x, shape, f, run);
    assert(part(g, g11)) by {
        reveal(part);
    }
    assert(run.on(y) == g1.with_node(seq![m], op).1.map_values(|e: usize| run.on(e))[0]);
    assert forall|p: int| 0 <= p < pow2(n) implies #[trigger] run.on(y).table[p] == if inside(
        shape,
        p,
    ) {
        at_least(run.on(x).table[p], c)
    } else {
        0
    } by {
        let entry = run.on(y).table[p];
        let before = run.on(m).table[p];
        if !run.honest {
            lemma_minus_run(g2, y, m, run);
            lemma_same_combined(run.on(y), run.on(m), run.on(delta[0]), true, p);
            lemma_change_shape_run(g3, delta[0], flat, run);
            lemma_nonneg_run(g4, delta_flat, run);
            lemma_constant_run(g5, bound, shape, c, run);
            lemma_plus_run(g6, y, c_edge, run);
            lemma_same_combined(run.on(y), run.on(c_edge), run.on(u[0]), false, p);
            lemma_change_shape_run(g7, u[0], flat, run);
            lemma_nonneg_run(g8, u_flat, run);
            let product = lemma_binary_run(
                g9,
                "a,a->a"@,
                delta_flat,
                u_flat,
                flat,
                flat,
                f,
                f,
                false,
                run,
            );
            lemma_a_a_a_sum(run.on(delta_flat), run.on(u_flat), product, n, p);
            lemma_assert_zero_run(g10, z[0], run);
            let b = if inside(shape, p) {
                c
            } else {
                0
            };
            assert(run.on(delta_flat).table[p] == entry - before);
            assert(run.on(u_flat).table[p] == entry + b);
            assert(run.on(z[0]).table[p] == 0);
            lemma_clamp_constraints(before, entry, b);
        }
    }
}

/// The exponential of a tensor: that of every entry, clamped from below, and zero outside the
/// shape.
pub proof fn lemma_exp_run(g: Graph, a: usize, shape: Seq<usize>, f: usize, run: Run)
    requires
        ready(g, 44),
        holds(g, a, shape, f),
        shape.len() <= 26,
        num_vars(shape) < usize::BITS,
        f < 60,
        run.computes(g.exp(a).0),
        run.honest || run.passes(g.exp(a).0),
    ensures
        part(g, g.exp(a).0),
        run.on(g.exp(a).1[0]).full(),
        run.on(g.exp(a).1[0]).shape == shape,
        run.on(g.exp(a).1[0]).sf == g.sf_log,
        forall|p: int|
            0 <= p < pow2(num_vars(shape)) ==> #[trigger] run.on(g.exp(a).1[0]).table[p]
                == if inside(shape, p) {
                exp_value(at_least(run.on(a).table[p], 14 * ln2_at(f as nat)), g.sf_log)
            } else {
                0
            },
{
    broadcast use lemma_ready_less, group_step_part, lemma_part_run, lemma_holds_run;

    reveal(Graph::exp);
    lemma_extends_self(g);
    let n = num_vars(shape);
    let sf = g.sf_log;
    let flat = seq![pow2(n) as usize];
    lemma_same_shape(flat);
    lemma_a_a_a(flat[0]);
    let e = "a,a->a"@;
    let (g1, y) = g.clamp_lower(a);
    lemma_clamp_lower_fits(g, a, shape, f);
    lemma_next(g, g, g1, 0, 16);
    let t = g1.value(y).data_type;
    let v = empty_value(shape, t, sf, Role::Output);
    let w = empty_value(seq![1usize], t, 0, Role::Auxiliary);
    let q = empty_value(shape, t, 15, Role::Output);
    let helper = Op::ExpHelper(sf);
    let (g2, outs) = g1.with_value(v).with_value(w).with_range().with_node(seq![y], helper);
    lemma_need(g1, g1.known(y) && num_vars(shape) < usize::BITS);
    lemma_pair_fits(g1, seq![y], helper, v, w);
    lemma_next(g, g1, g2, 16, 2);
    let (g3, r) = g2.scale(outs[0], sf, 15);
    lemma_scale_fits(g2, outs[0], sf, 15);
    lemma_next(g, g2, g3, 18, 2);
    let g4 = g3.with_two_pow().with_node(seq![outs[1]], Op::TwoPow).0.with_value(q);
    lemma_two_pow_fits(g3, outs[1], q);
    let looked_up = g3.with_two_pow().with_node(seq![outs[1]], Op::TwoPow).1[0];
    lemma_next(g, g3, g4, 20, 1);
    let (g5, power) = g4.change_shape(looked_up, flat);
    lemma_change_shape_fits(g4, looked_up, flat);
    lemma_next(g, g4, g5, 21, 1);
    let (g6, sixth) = g5.constant_flat(shape, flat, 5461);
    lemma_constant_flat_fits(g5, shape, flat, 5461);
    lemma_next(g, g5, g6, 22, 1);
    let (g7, half) = g6.constant_flat(shape, flat, 16384);
    lemma_constant_flat_fits(g6, shape, flat, 16384);
    lemma_next(g, g6, g7, 23, 1);
    let (g8, one) = g7.constant_flat(shape, flat, 32768);
    lemma_constant_flat_fits(g7, shape, flat, 32768);
    lemma_next(g, g7, g8, 24, 1);
    let (g9, r_flat) = g8.change_shape(r[0], flat);
    lemma_change_shape_fits(g8, r[0], flat);
    lemma_next(g, g8, g9, 25, 1);
    let (g10, square) = g9.einsum(e, seq![r_flat, r_flat], true);
    lemma_binary_fits(g9, e, r_flat, r_flat, flat, flat, 15, 15, true);
    lemma_next(g, g9, g10, 26, 3);
    let (g11, r_sixth) = g10.einsum(e, seq![r_flat, sixth], true);
    lemma_binary_fits(g10, e, r_flat, sixth, flat, flat, 15, 15, true);
    lemma_next(g, g10, g11, 29, 3);
    let (g12, plus_half) = g11.plus(r_sixth[0], half);
    lemma_plus_fits(g11, r_sixth[0], half, flat, flat, 15, 15);
    lemma_next(g, g11, g12, 32, 1);
    let (g13, high) = g12.einsum(e, seq![plus_half[0], square[0]], true);
    lemma_binary_fits(g12, e, plus_half[0], square[0], flat, flat, 15, 15, true);
    lemma_next(g, g12, g13, 33, 3);
    let (g14, with_r) = g13.plus(high[0], r_flat);
    lemma_plus_fits(g13, high[0], r_flat, flat, flat, 15, 15);
    lemma_next(g, g13, g14, 36, 1);
    let (g15, exp_r) = g14.plus(with_r[0], one);
    lemma_plus_fits(g14, with_r[0], one, flat, flat, 15, 15);
    lemma_next(g, g14, g15, 37, 1);
    let (g16, product) = g15.einsum(e, seq![power, exp_r[0]], false);
    lemma_binary_fits(g15, e, power, exp_r[0], flat, flat, 15, 15, false);
    lemma_next(g, g15, g16, 38, 3);
    let (g17, scaled) = g16.scale(product[0], 30, sf);
    lemma_scale_fits(g16, product[0], 30, sf);
    lemma_next(g, g16, g17, 41, 2);
    let (g18, out) = g17.change_shape(scaled[0], shape);
    assert(run.computes(g17) && run.computes(g16) && run.computes(g15) && run.computes(g14));
    assert(run.computes(g13) && run.computes(g12) && run.computes(g11) && run.computes(g10));
    assert(run.computes(g9) && run.computes(g8) && run.computes(g7) && run.computes(g6));
    assert(run.computes(g5) && run.computes(g4));
    lemma_two_pow_run(g3, outs[1], q, run);
    assert(run.computes(g3) && run.computes(g2));
    lemma_pair_run(g1, y, helper, v, w, run);
    assert(run.computes(g1));
    lemma_clamp_lower_run(g, a, shape, f, run);
    assert(part(g, g18)) by {
        lemma_part_more(g, g1, g2);
        reveal(part);
    }
    lemma_scale_run(g2, outs[0], sf, 15, run);
    lemma_change_shape_run(g4, looked_up, flat, run);
    lemma_constant_flat_run(g5, shape, flat, 5461, run);
    lemma_constant_flat_run(g6, shape, flat, 16384, run);
    lemma_constant_flat_run(g7, shape, flat, 32768, run);
    lemma_change_shape_run(g8, r[0], flat, run);
    let m10 = lemma_binary_run(g9, e, r_flat, r_flat, flat, flat, 15, 15, true, run);
    let m11 = lemma_binary_run(g10, e, r_flat, sixth, flat, flat, 15, 15, true, run);
    lemma_plus_run(g11, r_sixth[0], half, run);
    let m13 = lemma_binary_run(g12, e, plus_half[0], square[0], flat, flat, 15, 15, true, run);
    lemma_plus_run(g13, high[0], r_flat, run);
    lemma_plus_run(g14, with_r[0], one, run);
    let m16 = lemma_binary_run(g15, e, power, exp_r[0], flat, flat, 15, 15, false, run);
    lemma_scale_run(g16, product[0], 30, sf, run);
    lemma_change_shape_run(g17, scaled[0], shape, run);
    lemma_flat_vars(n);
    assert(m16.full());
    let ln2 = ln2_at(sf as nat);
    assert forall|p: int| 0 <= p < pow2(n) implies #[trigger] run.on(out).table[p] == if inside(
        shape,
        p,
    ) {
        exp_value(at_least(run.on(a).table[p], 14 * ln2_at(f as nat)), sf)
    } else {
        0
    } by {
        let x = run.on(y).table[p];
        let rest = exp_rest(x, sf);
        assert(run.on(outs[0]).table[p] == exponent_rest(x, ln2));
        assert(run.on(r_flat).table[p] == rest);
        let k = exponent_place(x, ln2, K_BITS as nat);
        assert(run.on(outs[1]).table[p] == k);
        assert(run.on(power).table[p] == pow2((15 - k) as nat));
        lemma_a_a_a_sum(run.on(r_flat), run.on(r_flat), m10, n, p);
        assert(run.on(square[0]).table[p] == rescaled(rest * rest, 30, 15));
        lemma_a_a_a_sum(run.on(r_flat), run.on(sixth), m11, n, p);
        lemma_same_combined(run.on(r_sixth[0]), run.on(half), run.on(plus_half[0]), false, p);
        lemma_a_a_a_sum(run.on(plus_half[0]), run.on(square[0]), m13, n, p);
        lemma_same_combined(run.on(high[0]), run.on(r_flat), run.on(with_r[0]), false, p);
        lemma_same_combined(run.on(with_r[0]), run.on(one), run.on(exp_r[0]), false, p);
        lemma_a_a_a_sum(run.on(power), run.on(exp_r[0]), m16, n, p);
        if inside(shape, p) {
            assert(run.on(exp_r[0]).table[p] == rest_exp(rest));
        } else {
            lemma_zero_rest(sf);
            lemma_rescaled(0, 30, 15);
            assert(rest * 0 == 0);
            assert(0 * run.on(square[0]).table[p] == 0);
            assert(run.on(exp_r[0]).table[p] == 0);
            lemma_rescaled(0, 30, sf);
            assert(run.on(power).table[p] * 0 == 0);
        }
    }
}

/// Nothing is left of zero.
proof fn lemma_zero_rest(sf: usize)
    ensures
        exp_rest(0, sf) == 0,
{
    let ln2 = ln2_at(sf as nat);
    lemma_ln2_below(sf as nat);
    assert(halvings(0, sf) == 0) by {
        vstd::arithmetic::div_mod::lemma_basic_div(ln2, 2 * ln2);
    }
    assert(0 * ln2 == 0);
    lemma_rescaled(0, sf, 15);
}

/// The value of an exponential: it is `2^-k (1 + r + r^2 / 2 + r^3 / 6)` for some whole `k` and
/// some `r` of at most half of `ln 2` in absolute value with `x = r - k ln 2`, up to rounding: `r`
/// to 15 fractional bits, the polynomial to one unit of these, and the result to half a unit.
pub open spec fn is_exponential(x: int, v: int, sf: usize) -> bool {
    let ln2 = ln2_at(sf as nat);
    exists|k: int, r: int|
        {
            let scale = pow2((15 - k) as nat) as int;
            let exact = scale * #[trigger] taylor(rescaled(r, sf, 15));
            let unit = 0x1_8000_0000 * pow2((30 - sf) as nat);
            &&& 0 <= k <= 14
            &&& x == r - #[trigger] (k * ln2)
            &&& -ln2 <= 2 * r <= ln2
            &&& -(0x1_8000_0000 * scale + unit / 2) <= unit * v - exact <= 0x1_8000_0000 * scale
                + unit / 2
        }
}

/// An entry of the output of the exponential is the exponential of the entry of the input that
/// stands at the same place, as long as that is from `-14 ln 2` to zero. That of a smaller one is
/// the exponential of `-14 ln 2`, and that of zero is one.
pub proof fn lemma_exp_entries(g: Graph, a: usize, shape: Seq<usize>, run: Run, c: Seq<int>)
    requires
        ready(g, 44),
        holds(g, a, shape, g.sf_log),
        shape.len() <= 26,
        num_vars(shape) < usize::BITS,
        g.sf_log < 30,
        run.computes(g.exp(a).0),
        run.honest || run.passes(g.exp(a).0),
        addresses(shape, c),
    ensures
        ({
            let x = run.on(a).get(c);
            let y = run.on(g.exp(a).1[0]).get(c);
            let bound = 14 * ln2_at(g.sf_log as nat);
            &&& interior(shape, c) && -bound <= x <= 0 ==> is_exponential(x, y, g.sf_log)
            &&& interior(shape, c) && x <= -bound ==> is_exponential(-bound, y, g.sf_log)
            &&& interior(shape, c) && x == 0 ==> y == pow2(g.sf_log as nat)
            &&& !interior(shape, c) ==> y == 0
        }),
{
    let sf = g.sf_log;
    let p = place(shape, c);
    lemma_place(shape, c);
    lemma_interior(shape, c);
    lemma_exp_run(g, a, shape, sf, run);
    broadcast use lemma_part_run, lemma_holds_run;

    let ln2 = ln2_at(sf as nat);
    lemma_ln2_below(sf as nat);
    let x = at_least(run.on(a).get(c), 14 * ln2);
    if interior(shape, c) && x <= 0 {
        lemma_halvings(x, sf);
        lemma_exp_value(x, sf);
        let k = halvings(x, sf);
        let r = x + k * ln2;
        assert(taylor(rescaled(r, sf, 15)) == taylor(exp_rest(x, sf)));
        assert(x == r - k * ln2);
        lemma_exp_zero(sf);
    }
}

/// The sigmoid of an argument, through the shift that makes it an exponential.
pub open spec fn sigmoid_value(run: Run, x: int, f: usize, sf: usize) -> int {
    exp_value(at_least(x + (run.sigmoid_shift)(x, f), 14 * ln2_at(f as nat)), sf)
}

/// The sigmoid of a tensor: that of every entry, and zero outside the shape.
pub proof fn lemma_sigmoid_run(g: Graph, a: usize, shape: Seq<usize>, f: usize, run: Run)
    requires
        ready(g, 46),
        holds(g, a, shape, f),
        shape.len() <= 26,
        num_vars(shape) < usize::BITS,
        f < 60,
        run.computes(g.sigmoid(a).0),
        run.honest,
    ensures
        part(g, g.sigmoid(a).0),
        run.on(g.sigmoid(a).1[0]).full(),
        run.on(g.sigmoid(a).1[0]).shape == shape,
        run.on(g.sigmoid(a).1[0]).sf == g.sf_log,
        forall|p: int|
            0 <= p < pow2(num_vars(shape)) ==> #[trigger] run.on(g.sigmoid(a).1[0]).table[p]
                == if inside(shape, p) {
                sigmoid_value(run, run.on(a).table[p], f, g.sf_log)
            } else {
                0
            },
{
    broadcast use lemma_ready_less, group_step_part, lemma_part_run, lemma_holds_run;

    reveal(Graph::sigmoid);
    lemma_extends_self(g);
    let (g1, c) = g.sigmoid_const(a);
    lemma_sigmoid_const_fits(g, a);
    lemma_next(g, g, g1, 0, 1);
    let (g2, shifted) = g1.plus(a, c[0]);
    lemma_same_shape(shape);
    lemma_plus_fits(g1, a, c[0], shape, shape, f, f);
    lemma_next(g, g1, g2, 1, 1);
    let (g3, r) = g2.exp(shifted[0]);
    lemma_exp_run(g2, shifted[0], shape, f, run);
    assert(run.computes(g2) && run.computes(g1));
    lemma_part_more(g, g1, g2);
    lemma_part_more(g, g2, g3);
    lemma_plus_run(g1, a, c[0], run);
    lemma_sigmoid_const_run(g, a, run);
    assert forall|p: int| 0 <= p < pow2(num_vars(shape)) implies #[trigger] run.on(r[0]).table[p]
        == if inside(shape, p) {
        sigmoid_value(run, run.on(a).table[p], f, g.sf_log)
    } else {
        0
    } by {
        lemma_same_combined(run.on(a), run.on(c[0]), run.on(shifted[0]), false, p);
        assert(run.on(c[0]).table[p] == (run.sigmoid_shift)(run.on(a).table[p], f));
    }
}

} // verus!
