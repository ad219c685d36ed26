//! The shapes that the equations of the layers give.
use crate::dag::equation::{
    all_letters, dim_of, equation_ok, equation_shape, input_symbols, lemma_dim_at, lemma_one_input,
    lemma_symbol_dims, lemma_two_inputs, letters_of, output_symbols, symbol_dims, with_dims,
};
use vstd::prelude::*;

verus! {

/// Each symbol of the output stands at the given place among the symbols of the inputs, and at none
/// after it.
pub open spec fn found_at(pairs: Seq<(char, usize)>, out: Seq<char>, places: Seq<int>) -> bool {
    &&& places.len() == out.len()
    &&& forall|k: int|
        0 <= k < out.len() ==> 0 <= #[trigger] places[k] < pairs.len() && pairs[places[k]].0
            == out[k]
    &&& forall|k: int, j: int|
        0 <= k < out.len() && places[k] < j < pairs.len() ==> #[trigger] pairs[j].0
            != #[trigger] out[k]
}

/// The dimensions at some places.
pub open spec fn dims_at(pairs: Seq<(char, usize)>, places: Seq<int>) -> Seq<usize> {
    places.map_values(|p: int| pairs[p].1)
}

proof fn lemma_output_dims(
    e: Seq<char>,
    pairs: Seq<(char, usize)>,
    shapes: Seq<Seq<usize>>,
    places: Seq<int>,
)
    requires
        pairs == symbol_dims(input_symbols(e), shapes),
        found_at(pairs, output_symbols(e), places),
    ensures
        forall|k: int|
            0 <= k < output_symbols(e).len() ==> dim_of(
                symbol_dims(input_symbols(e), shapes),
                #[trigger] output_symbols(e)[k],
            ) is Some,
        equation_shape(e, shapes) == dims_at(pairs, places),
{
    let out = output_symbols(e);
    assert forall|k: int| 0 <= k < out.len() implies dim_of(pairs, #[trigger] out[k]) == Some(
        dims_at(pairs, places)[k],
    ) by {
        assert(0 <= places[k] < pairs.len());
        assert forall|j: int| places[k] < j < pairs.len() implies (#[trigger] pairs[j]).0
            != pairs[places[k]].0 by {
            assert(pairs[j].0 != out[k]);
        }
        lemma_dim_at(pairs, places[k]);
    }
    assert(equation_shape(e, shapes) =~= dims_at(pairs, places));
}

/// An equation with one input.
proof fn lemma_unary(e: Seq<char>, a: Seq<char>, out: Seq<char>, s: Seq<usize>, places: Seq<int>)
    requires
        all_letters(a),
        all_letters(out),
        e == a + seq!['-', '>'] + out,
        a.len() <= s.len(),
        found_at(with_dims(a, s), out, places),
    ensures
        equation_ok(e, seq![s]),
        equation_shape(e, seq![s]) == dims_at(with_dims(a, s), places),
{
    lemma_one_input(e, a, out);
    lemma_symbol_dims(a, a, s, s);
    lemma_output_dims(e, with_dims(a, s), seq![s], places);
}

/// An equation with two inputs.
proof fn lemma_binary(
    e: Seq<char>,
    a: Seq<char>,
    b: Seq<char>,
    out: Seq<char>,
    s: Seq<usize>,
    t: Seq<usize>,
    places: Seq<int>,
)
    requires
        all_letters(a),
        all_letters(b),
        all_letters(out),
        e == a + seq![','] + b + seq!['-', '>'] + out,
        a.len() <= s.len(),
        b.len() <= t.len(),
        found_at(with_dims(a, s) + with_dims(b, t), out, places),
    ensures
        equation_ok(e, seq![s, t]),
        equation_shape(e, seq![s, t]) == dims_at(with_dims(a, s) + with_dims(b, t), places),
{
    lemma_two_inputs(e, a, b, out);
    lemma_symbol_dims(a, b, s, t);
    lemma_output_dims(e, with_dims(a, s) + with_dims(b, t), seq![s, t], places);
}

/// The product of two tensors of the same shape, entry by entry.
pub proof fn lemma_entrywise(shape: Seq<usize>)
    requires
        shape.len() <= 26,
    ensures
        ({
            let s = letters_of(shape.len());
            let e = s + ","@ + s + "->"@ + s;
            &&& equation_ok(e, seq![shape, shape])
            &&& equation_shape(e, seq![shape, shape]) == shape
        }),
{
    reveal_strlit(",");
    reveal_strlit("->");
    let s = letters_of(shape.len());
    let e = s + ","@ + s + "->"@ + s;
    assert(","@ =~= seq![',']);
    assert("->"@ =~= seq!['-', '>']);
    let n = shape.len() as int;
    let places = Seq::new(shape.len(), |k: int| n + k);
    let pairs = with_dims(s, shape) + with_dims(s, shape);
    assert forall|k: int, j: int|
        0 <= k < s.len() && places[k] < j < pairs.len() implies #[trigger] pairs[j].0
        != #[trigger] s[k] by {
        assert(pairs[j].0 == s[j - n]);
    }
    lemma_binary(e, s, s, s, shape, shape, places);
    assert(dims_at(pairs, places) =~= shape);
}

pub proof fn lemma_a_a_a(a: usize)
    ensures
        equation_ok("a,a->a"@, seq![seq![a], seq![a]]),
        equation_shape("a,a->a"@, seq![seq![a], seq![a]]) == seq![a],
{
    reveal_strlit("a,a->a");
    let (p, q, o) = (seq!['a'], seq!['a'], seq!['a']);
    let (first, second) = (seq![a], seq![a]);
    let places = seq![1int];
    assert("a,a->a"@ =~= p + seq![','] + q + seq!['-', '>'] + o);
    lemma_binary("a,a->a"@, p, q, o, first, second, places);
    assert(dims_at(with_dims(p, first) + with_dims(q, second), places) =~= seq![a]);
}

pub proof fn lemma_bij_jk_ik(b: usize, i: usize, j: usize, k: usize)
    ensures
        equation_ok("bij,jk->ik"@, seq![seq![b, i, j], seq![j, k]]),
        equation_shape("bij,jk->ik"@, seq![seq![b, i, j], seq![j, k]]) == seq![i, k],
{
    reveal_strlit("bij,jk->ik");
    let (p, q, o) = (seq!['b', 'i', 'j'], seq!['j', 'k'], seq!['i', 'k']);
    let (first, second) = (seq![b, i, j], seq![j, k]);
    let places = seq![1int, 4];
    assert("bij,jk->ik"@ =~= p + seq![','] + q + seq!['-', '>'] + o);
    lemma_binary("bij,jk->ik"@, p, q, o, first, second, places);
    assert(dims_at(with_dims(p, first) + with_dims(q, second), places) =~= seq![i, k]);
}

pub proof fn lemma_bhsd_bshd(b: usize, h: usize, s: usize, d: usize)
    ensures
        equation_ok("bhsd->bshd"@, seq![seq![b, h, s, d]]),
        equation_shape("bhsd->bshd"@, seq![seq![b, h, s, d]]) == seq![b, s, h, d],
{
    reveal_strlit("bhsd->bshd");
    let (p, o) = (seq!['b', 'h', 's', 'd'], seq!['b', 's', 'h', 'd']);
    let shape = seq![b, h, s, d];
    let places = seq![0int, 2, 1, 3];
    assert("bhsd->bshd"@ =~= p + seq!['-', '>'] + o);
    lemma_unary("bhsd->bshd"@, p, o, shape, places);
    assert(dims_at(with_dims(p, shape), places) =~= seq![b, s, h, d]);
}

pub proof fn lemma_bhsd_bhtd_bhst(b: usize, h: usize, s: usize, d: usize, t: usize)
    ensures
        equation_ok("bhsd,bhtd->bhst"@, seq![seq![b, h, s, d], seq![b, h, t, d]]),
        equation_shape(
            "bhsd,bhtd->bhst"@,
            seq![seq![b, h, s, d], seq![b, h, t, d]],
        ) == seq![b, h, s, t],
{
    reveal_strlit("bhsd,bhtd->bhst");
    let (p, q, o) = (seq!['b', 'h', 's', 'd'], seq!['b', 'h', 't', 'd'], seq!['b', 'h', 's', 't']);
    let (first, second) = (seq![b, h, s, d], seq![b, h, t, d]);
    let places = seq![4int, 5, 2, 6];
    assert("bhsd,bhtd->bhst"@ =~= p + seq![','] + q + seq!['-', '>'] + o);
    lemma_binary("bhsd,bhtd->bhst"@, p, q, o, first, second, places);
    assert(dims_at(with_dims(p, first) + with_dims(q, second), places) =~= seq![b, h, s, t]);
}

pub proof fn lemma_bhst_bhtd_bhsd(b: usize, h: usize, s: usize, t: usize, d: usize)
    ensures
        equation_ok("bhst,bhtd->bhsd"@, seq![seq![b, h, s, t], seq![b, h, t, d]]),
        equation_shape(
            "bhst,bhtd->bhsd"@,
            seq![seq![b, h, s, t], seq![b, h, t, d]],
        ) == seq![b, h, s, d],
{
    reveal_strlit("bhst,bhtd->bhsd");
    let (p, q, o) = (seq!['b', 'h', 's', 't'], seq!['b', 'h', 't', 'd'], seq!['b', 'h', 's', 'd']);
    let (first, second) = (seq![b, h, s, t], seq![b, h, t, d]);
    let places = seq![4int, 5, 2, 7];
    assert("bhst,bhtd->bhsd"@ =~= p + seq![','] + q + seq!['-', '>'] + o);
    lemma_binary("bhst,bhtd->bhsd"@, p, q, o, first, second, places);
    assert(dims_at(with_dims(p, first) + with_dims(q, second), places) =~= seq![b, h, s, d]);
}

pub proof fn lemma_bhst_z_bhst(b: usize, h: usize, s: usize, t: usize, z: usize)
    ensures
        equation_ok("bhst,z->bhst"@, seq![seq![b, h, s, t], seq![z]]),
        equation_shape("bhst,z->bhst"@, seq![seq![b, h, s, t], seq![z]]) == seq![b, h, s, t],
{
    reveal_strlit("bhst,z->bhst");
    let (p, q, o) = (seq!['b', 'h', 's', 't'], seq!['z'], seq!['b', 'h', 's', 't']);
    let (first, second) = (seq![b, h, s, t], seq![z]);
    let places = seq![0int, 1, 2, 3];
    assert("bhst,z->bhst"@ =~= p + seq![','] + q + seq!['-', '>'] + o);
    lemma_binary("bhst,z->bhst"@, p, q, o, first, second, places);
    assert(dims_at(with_dims(p, first) + with_dims(q, second), places) =~= seq![b, h, s, t]);
}

pub proof fn lemma_bsdh_bshd(b: usize, s: usize, d: usize, h: usize)
    ensures
        equation_ok("bsdh->bshd"@, seq![seq![b, s, d, h]]),
        equation_shape("bsdh->bshd"@, seq![seq![b, s, d, h]]) == seq![b, s, h, d],
{
    reveal_strlit("bsdh->bshd");
    let (p, o) = (seq!['b', 's', 'd', 'h'], seq!['b', 's', 'h', 'd']);
    let shape = seq![b, s, d, h];
    let places = seq![0int, 1, 3, 2];
    assert("bsdh->bshd"@ =~= p + seq!['-', '>'] + o);
    lemma_unary("bsdh->bshd"@, p, o, shape, places);
    assert(dims_at(with_dims(p, shape), places) =~= seq![b, s, h, d]);
}

pub proof fn lemma_bshd_bhsd(b: usize, s: usize, h: usize, d: usize)
    ensures
        equation_ok("bshd->bhsd"@, seq![seq![b, s, h, d]]),
        equation_shape("bshd->bhsd"@, seq![seq![b, s, h, d]]) == seq![b, h, s, d],
{
    reveal_strlit("bshd->bhsd");
    let (p, o) = (seq!['b', 's', 'h', 'd'], seq!['b', 'h', 's', 'd']);
    let shape = seq![b, s, h, d];
    let places = seq![0int, 2, 1, 3];
    assert("bshd->bhsd"@ =~= p + seq!['-', '>'] + o);
    lemma_unary("bshd->bhsd"@, p, o, shape, places);
    assert(dims_at(with_dims(p, shape), places) =~= seq![b, h, s, d]);
}

pub proof fn lemma_bshd_bsdh(b: usize, s: usize, h: usize, d: usize)
    ensures
        equation_ok("bshd->bsdh"@, seq![seq![b, s, h, d]]),
        equation_shape("bshd->bsdh"@, seq![seq![b, s, h, d]]) == seq![b, s, d, h],
{
    reveal_strlit("bshd->bsdh");
    let (p, o) = (seq!['b', 's', 'h', 'd'], seq!['b', 's', 'd', 'h']);
    let shape = seq![b, s, h, d];
    let places = seq![0int, 1, 3, 2];
    assert("bshd->bsdh"@ =~= p + seq!['-', '>'] + o);
    lemma_unary("bshd->bsdh"@, p, o, shape, places);
    assert(dims_at(with_dims(p, shape), places) =~= seq![b, s, d, h]);
}

pub proof fn lemma_bshd_de_bshe(b: usize, s: usize, h: usize, d: usize, e: usize)
    ensures
        equation_ok("bshd,de->bshe"@, seq![seq![b, s, h, d], seq![d, e]]),
        equation_shape("bshd,de->bshe"@, seq![seq![b, s, h, d], seq![d, e]]) == seq![b, s, h, e],
{
    reveal_strlit("bshd,de->bshe");
    let (p, q, o) = (seq!['b', 's', 'h', 'd'], seq!['d', 'e'], seq!['b', 's', 'h', 'e']);
    let (first, second) = (seq![b, s, h, d], seq![d, e]);
    let places = seq![0int, 1, 2, 5];
    assert("bshd,de->bshe"@ =~= p + seq![','] + q + seq!['-', '>'] + o);
    lemma_binary("bshd,de->bshe"@, p, q, o, first, second, places);
    assert(dims_at(with_dims(p, first) + with_dims(q, second), places) =~= seq![b, s, h, e]);
}

pub proof fn lemma_bshd_sd_bshd(b: usize, s: usize, h: usize, d: usize)
    ensures
        equation_ok("bshd,sd->bshd"@, seq![seq![b, s, h, d], seq![s, d]]),
        equation_shape("bshd,sd->bshd"@, seq![seq![b, s, h, d], seq![s, d]]) == seq![b, s, h, d],
{
    reveal_strlit("bshd,sd->bshd");
    let (p, q, o) = (seq!['b', 's', 'h', 'd'], seq!['s', 'd'], seq!['b', 's', 'h', 'd']);
    let (first, second) = (seq![b, s, h, d], seq![s, d]);
    let places = seq![0int, 4, 2, 5];
    assert("bshd,sd->bshd"@ =~= p + seq![','] + q + seq!['-', '>'] + o);
    lemma_binary("bshd,sd->bshd"@, p, q, o, first, second, places);
    assert(dims_at(with_dims(p, first) + with_dims(q, second), places) =~= seq![b, s, h, d]);
}

pub proof fn lemma_bsi_bs(b: usize, s: usize, i: usize)
    ensures
        equation_ok("bsi->bs"@, seq![seq![b, s, i]]),
        equation_shape("bsi->bs"@, seq![seq![b, s, i]]) == seq![b, s],
{
    reveal_strlit("bsi->bs");
    let (p, o) = (seq!['b', 's', 'i'], seq!['b', 's']);
    let shape = seq![b, s, i];
    let places = seq![0int, 1];
    assert("bsi->bs"@ =~= p + seq!['-', '>'] + o);
    lemma_unary("bsi->bs"@, p, o, shape, places);
    assert(dims_at(with_dims(p, shape), places) =~= seq![b, s]);
}

pub proof fn lemma_bsi_bs_bsi(b: usize, s: usize, i: usize)
    ensures
        equation_ok("bsi,bs->bsi"@, seq![seq![b, s, i], seq![b, s]]),
        equation_shape("bsi,bs->bsi"@, seq![seq![b, s, i], seq![b, s]]) == seq![b, s, i],
{
    reveal_strlit("bsi,bs->bsi");
    let (p, q, o) = (seq!['b', 's', 'i'], seq!['b', 's'], seq!['b', 's', 'i']);
    let (first, second) = (seq![b, s, i], seq![b, s]);
    let places = seq![3int, 4, 2];
    assert("bsi,bs->bsi"@ =~= p + seq![','] + q + seq!['-', '>'] + o);
    lemma_binary("bsi,bs->bsi"@, p, q, o, first, second, places);
    assert(dims_at(with_dims(p, first) + with_dims(q, second), places) =~= seq![b, s, i]);
}

pub proof fn lemma_bsi_bsi_bsi(b: usize, s: usize, i: usize)
    ensures
        equation_ok("bsi,bsi->bsi"@, seq![seq![b, s, i], seq![b, s, i]]),
        equation_shape("bsi,bsi->bsi"@, seq![seq![b, s, i], seq![b, s, i]]) == seq![b, s, i],
{
    reveal_strlit("bsi,bsi->bsi");
    let (p, q, o) = (seq!['b', 's', 'i'], seq!['b', 's', 'i'], seq!['b', 's', 'i']);
    let (first, second) = (seq![b, s, i], seq![b, s, i]);
    let places = seq![3int, 4, 5];
    assert("bsi,bsi->bsi"@ =~= p + seq![','] + q + seq!['-', '>'] + o);
    lemma_binary("bsi,bsi->bsi"@, p, q, o, first, second, places);
    assert(dims_at(with_dims(p, first) + with_dims(q, second), places) =~= seq![b, s, i]);
}

pub proof fn lemma_bsi_i_bsi(b: usize, s: usize, i: usize)
    ensures
        equation_ok("bsi,i->bsi"@, seq![seq![b, s, i], seq![i]]),
        equation_shape("bsi,i->bsi"@, seq![seq![b, s, i], seq![i]]) == seq![b, s, i],
{
    reveal_strlit("bsi,i->bsi");
    let (p, q, o) = (seq!['b', 's', 'i'], seq!['i'], seq!['b', 's', 'i']);
    let (first, second) = (seq![b, s, i], seq![i]);
    let places = seq![0int, 1, 3];
    assert("bsi,i->bsi"@ =~= p + seq![','] + q + seq!['-', '>'] + o);
    lemma_binary("bsi,i->bsi"@, p, q, o, first, second, places);
    assert(dims_at(with_dims(p, first) + with_dims(q, second), places) =~= seq![b, s, i]);
}

pub proof fn lemma_bsi_ij_bsj(b: usize, s: usize, i: usize, j: usize)
    ensures
        equation_ok("bsi,ij->bsj"@, seq![seq![b, s, i], seq![i, j]]),
        equation_shape("bsi,ij->bsj"@, seq![seq![b, s, i], seq![i, j]]) == seq![b, s, j],
{
    reveal_strlit("bsi,ij->bsj");
    let (p, q, o) = (seq!['b', 's', 'i'], seq!['i', 'j'], seq!['b', 's', 'j']);
    let (first, second) = (seq![b, s, i], seq![i, j]);
    let places = seq![0int, 1, 4];
    assert("bsi,ij->bsj"@ =~= p + seq![','] + q + seq!['-', '>'] + o);
    lemma_binary("bsi,ij->bsj"@, p, q, o, first, second, places);
    assert(dims_at(with_dims(p, first) + with_dims(q, second), places) =~= seq![b, s, j]);
}

pub proof fn lemma_bte_ve_btv(b: usize, t: usize, e: usize, v: usize)
    ensures
        equation_ok("bte,ve->btv"@, seq![seq![b, t, e], seq![v, e]]),
        equation_shape("bte,ve->btv"@, seq![seq![b, t, e], seq![v, e]]) == seq![b, t, v],
{
    reveal_strlit("bte,ve->btv");
    let (p, q, o) = (seq!['b', 't', 'e'], seq!['v', 'e'], seq!['b', 't', 'v']);
    let (first, second) = (seq![b, t, e], seq![v, e]);
    let places = seq![0int, 1, 3];
    assert("bte,ve->btv"@ =~= p + seq![','] + q + seq!['-', '>'] + o);
    lemma_binary("bte,ve->btv"@, p, q, o, first, second, places);
    assert(dims_at(with_dims(p, first) + with_dims(q, second), places) =~= seq![b, t, v]);
}

pub proof fn lemma_bsd_vd_bsv(b: usize, t: usize, e: usize, v: usize)
    ensures
        equation_ok("bsd,vd->bsv"@, seq![seq![b, t, e], seq![v, e]]),
        equation_shape("bsd,vd->bsv"@, seq![seq![b, t, e], seq![v, e]]) == seq![b, t, v],
{
    reveal_strlit("bsd,vd->bsv");
    let (p, q, o) = (seq!['b', 's', 'd'], seq!['v', 'd'], seq!['b', 's', 'v']);
    let (first, second) = (seq![b, t, e], seq![v, e]);
    let places = seq![0int, 1, 3];
    assert("bsd,vd->bsv"@ =~= p + seq![','] + q + seq!['-', '>'] + o);
    lemma_binary("bsd,vd->bsv"@, p, q, o, first, second, places);
    assert(dims_at(with_dims(p, first) + with_dims(q, second), places) =~= seq![b, t, v]);
}

pub proof fn lemma_btv_ve_bte(b: usize, t: usize, v: usize, e: usize)
    ensures
        equation_ok("btv,ve->bte"@, seq![seq![b, t, v], seq![v, e]]),
        equation_shape("btv,ve->bte"@, seq![seq![b, t, v], seq![v, e]]) == seq![b, t, e],
{
    reveal_strlit("btv,ve->bte");
    let (p, q, o) = (seq!['b', 't', 'v'], seq!['v', 'e'], seq!['b', 't', 'e']);
    let (first, second) = (seq![b, t, v], seq![v, e]);
    let places = seq![0int, 1, 4];
    assert("btv,ve->bte"@ =~= p + seq![','] + q + seq!['-', '>'] + o);
    lemma_binary("btv,ve->bte"@, p, q, o, first, second, places);
    assert(dims_at(with_dims(p, first) + with_dims(q, second), places) =~= seq![b, t, e]);
}

pub proof fn lemma_sv_sv_s(s: usize, v: usize)
    ensures
        equation_ok("sv,sv->s"@, seq![seq![s, v], seq![s, v]]),
        equation_shape("sv,sv->s"@, seq![seq![s, v], seq![s, v]]) == seq![s],
{
    reveal_strlit("sv,sv->s");
    let (p, q, o) = (seq!['s', 'v'], seq!['s', 'v'], seq!['s']);
    let (first, second) = (seq![s, v], seq![s, v]);
    let places = seq![2int];
    assert("sv,sv->s"@ =~= p + seq![','] + q + seq!['-', '>'] + o);
    lemma_binary("sv,sv->s"@, p, q, o, first, second, places);
    assert(dims_at(with_dims(p, first) + with_dims(q, second), places) =~= seq![s]);
}

pub proof fn lemma_sv_vd_sd(s: usize, v: usize, d: usize)
    ensures
        equation_ok("sv,vd->sd"@, seq![seq![s, v], seq![v, d]]),
        equation_shape("sv,vd->sd"@, seq![seq![s, v], seq![v, d]]) == seq![s, d],
{
    reveal_strlit("sv,vd->sd");
    let (p, q, o) = (seq!['s', 'v'], seq!['v', 'd'], seq!['s', 'd']);
    let (first, second) = (seq![s, v], seq![v, d]);
    let places = seq![0int, 3];
    assert("sv,vd->sd"@ =~= p + seq![','] + q + seq!['-', '>'] + o);
    lemma_binary("sv,vd->sd"@, p, q, o, first, second, places);
    assert(dims_at(with_dims(p, first) + with_dims(q, second), places) =~= seq![s, d]);
}

} // verus!
