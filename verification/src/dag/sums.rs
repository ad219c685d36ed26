//! What the equations of the layers compute.
//!
//! Of each equation: the entry of the output at given coordinates, as a sum of products of entries
//! of the inputs.
use crate::arith::{ceil_log, lemma_ceil_log_unique, num_vars};
use crate::dag::entries::{
    address, address_of, addresses, assigned, contracted, entry_product, entry_sum, entry_sum_to,
    is_summed, lemma_address, lemma_places, occurs, padded, place, symbol_size, Tensor,
};
use crate::dag::equation::{
    dim_of, input_symbols, lemma_dim_at, lemma_one_input, lemma_symbol_dims, lemma_two_inputs,
    letters_of, output_symbols, symbol_dims, with_dims,
};
use crate::dag::run::{aligned, combined};
use crate::math::{lemma_pow2_mono, lemma_pow2_step, lemma_sum_ext, product_to, sum_to};
use vstd::arithmetic::power2::pow2;
use vstd::prelude::*;

verus! {

/// The product over one tensor or two.
proof fn lemma_entry_product(
    ts: Seq<Tensor>,
    symbols: Seq<Seq<char>>,
    a: spec_fn(char) -> int,
)
    ensures
        symbols.len() == 1 ==> entry_product(ts, symbols, a) == ts[0].get(address(symbols[0], a)),
        symbols.len() == 2 ==> entry_product(ts, symbols, a) == ts[0].get(address(symbols[0], a))
            * ts[1].get(address(symbols[1], a)),
{
    let f = |i: int| ts[i].get(address(symbols[i], a));
    assert(product_to(f, 0) == 1);
    assert(product_to(f, 1) == product_to(f, 0) * f(0));
    assert(product_to(f, 2) == product_to(f, 1) * f(1));
}

/// No symbol is summed over.
proof fn lemma_none(
    e: Seq<char>,
    ins: Seq<Tensor>,
    m: Tensor,
    symbols: Seq<Seq<char>>,
    o: Seq<char>,
    a: spec_fn(char) -> int,
)
    requires
        contracted(e, ins, m),
        input_symbols(e) == symbols,
        output_symbols(e) == o,
        1 <= symbols.len() <= 2,
        forall|s: char| occurs(symbols, s) ==> #[trigger] o.contains(s),
        addresses(m.shape, address(o, a)),
    ensures
        m.get(address(o, a)) == entry_product(ins, symbols, a),
{
    let summed = Seq::<char>::empty();
    assert(is_summed(symbols, o, summed));
}

/// A padded dimension is positive.
proof fn lemma_padded_positive(e: Seq<char>, shapes: Seq<Seq<usize>>, s: char)
    ensures
        symbol_size(e, shapes, s) > 0,
{
    vstd::arithmetic::power2::lemma_pow2_pos(
        ceil_log(dim_of(symbol_dims(input_symbols(e), shapes), s)->0 as int),
    );
}

/// A sum over one symbol.
proof fn lemma_sum_to(
    ins: Seq<Tensor>,
    symbols: Seq<Seq<char>>,
    sizes: spec_fn(char) -> int,
    s: char,
    a: spec_fn(char) -> int,
    n: nat,
)
    ensures
        entry_sum_to(ins, symbols, sizes, seq![s], a, n) == sum_to(
            |v: int| entry_product(ins, symbols, assigned(a, s, v)),
            n as int,
        ),
    decreases n,
{
    let h = |v: int| entry_product(ins, symbols, assigned(a, s, v));
    if n > 0 {
        lemma_sum_to(ins, symbols, sizes, s, a, (n - 1) as nat);
        assert(seq![s].drop_last() =~= seq![]);
        assert(entry_sum(ins, symbols, sizes, seq![], assigned(a, s, n - 1)) == h(n - 1));
    }
}

/// One symbol is summed over.
proof fn lemma_one(
    e: Seq<char>,
    ins: Seq<Tensor>,
    m: Tensor,
    symbols: Seq<Seq<char>>,
    o: Seq<char>,
    a: spec_fn(char) -> int,
    s: char,
    size: int,
)
    requires
        contracted(e, ins, m),
        input_symbols(e) == symbols,
        output_symbols(e) == o,
        1 <= symbols.len() <= 2,
        occurs(symbols, s) && !o.contains(s),
        forall|c: char| occurs(symbols, c) && c != s ==> #[trigger] o.contains(c),
        addresses(m.shape, address(o, a)),
        symbol_size(e, ins.map_values(|t: Tensor| t.shape), s) == size,
    ensures
        m.get(address(o, a)) == sum_to(
            |v: int| entry_product(ins, symbols, assigned(a, s, v)),
            size,
        ),
{
    let summed = seq![s];
    assert forall|c: char| #[trigger]
        summed.contains(c) <==> occurs(symbols, c) && !o.contains(c) by {
        assert(summed[0] == s);
        if c == s {
            assert(summed.contains(c));
        }
    }
    assert(is_summed(symbols, o, summed));
    let shapes = ins.map_values(|t: Tensor| t.shape);
    let sizes = |s: char| symbol_size(e, shapes, s);
    assert(m.get(address(o, a)) == entry_sum(ins, symbols, sizes, summed, a));
    lemma_padded_positive(e, shapes, s);
    lemma_sum_to(ins, symbols, sizes, s, a, size as nat);
}

/// The size of a symbol.
proof fn lemma_size(e: Seq<char>, shapes: Seq<Seq<usize>>, pairs: Seq<(char, usize)>, k: int)
    requires
        symbol_dims(input_symbols(e), shapes) == pairs,
        0 <= k < pairs.len(),
        forall|j: int| k < j < pairs.len() ==> (#[trigger] pairs[j]).0 != pairs[k].0,
    ensures
        symbol_size(e, shapes, pairs[k].0) == padded(pairs[k].1),
{
    lemma_dim_at(pairs, k);
}

/// `bsi,ij->bsj`.
pub proof fn lemma_bsi_ij_bsj_sum(
    x: Tensor,
    y: Tensor,
    m: Tensor,
    nb: usize,
    ns: usize,
    ni: usize,
    nj: usize,
    cb: int,
    cs: int,
    cj: int,
)
    requires
        contracted("bsi,ij->bsj"@, seq![x, y], m),
        x.shape == seq![nb, ns, ni],
        y.shape == seq![ni, nj],
        m.shape == seq![nb, ns, nj],
        0 <= cb < padded(nb),
        0 <= cs < padded(ns),
        0 <= cj < padded(nj),
    ensures
        m.full(),
        m.get(seq![cb, cs, cj]) == sum_to(
            |ci: int| x.get(seq![cb, cs, ci]) * y.get(seq![ci, cj]),
            padded(ni),
        ),
{
    reveal_strlit("bsi,ij->bsj");
    let e = "bsi,ij->bsj"@;
    let (p, q, o) = (seq!['b', 's', 'i'], seq!['i', 'j'], seq!['b', 's', 'j']);
    assert(e =~= p + seq![','] + q + seq!['-', '>'] + o);
    lemma_two_inputs(e, p, q, o);
    let symbols = seq![p, q];
    let ins = seq![x, y];
    let a = |c: char|
        if c == 'b' {
            cb
        } else if c == 's' {
            cs
        } else if c == 'j' {
            cj
        } else {
            0
        };
    assert(address(o, a) =~= seq![cb, cs, cj]);
    assert(addresses(m.shape, address(o, a)));
    assert forall|c: char| occurs(symbols, c) && c != 'i' implies #[trigger] o.contains(c) by {
        let i = choose|i: int| 0 <= i < symbols.len() && (#[trigger] symbols[i]).contains(c);
        assert(o[0] == 'b');
        assert(o[1] == 's');
        assert(o[2] == 'j');
    }
    assert(q[0] == 'i');
    assert(symbols[1].contains('i'));
    let shapes = seq![seq![nb, ns, ni], seq![ni, nj]];
    assert(ins.map_values(|t: Tensor| t.shape) =~= shapes);
    let pairs = with_dims(p, seq![nb, ns, ni]) + with_dims(q, seq![ni, nj]);
    lemma_symbol_dims(p, q, shapes[0], shapes[1]);
    assert(pairs[3].0 == 'i');
    lemma_size(e, shapes, pairs, 3);
    let size = padded(ni);
    lemma_one(e, ins, m, symbols, o, a, 'i', size);
    let f = |v: int| entry_product(ins, symbols, assigned(a, 'i', v));
    let h = |ci: int| x.get(seq![cb, cs, ci]) * y.get(seq![ci, cj]);
    assert forall|v: int| 0 <= v < size implies #[trigger] f(v) == h(v) by {
        lemma_entry_product(ins, symbols, assigned(a, 'i', v));
        assert(address(p, assigned(a, 'i', v)) =~= seq![cb, cs, v]);
        assert(address(q, assigned(a, 'i', v)) =~= seq![v, cj]);
    }
    lemma_sum_ext(f, h, size);
}

/// `bsi,bsi->bsi`.
pub proof fn lemma_bsi_bsi_bsi_sum(
    x: Tensor,
    y: Tensor,
    m: Tensor,
    nb: usize,
    ns: usize,
    ni: usize,
    cb: int,
    cs: int,
    ci: int,
)
    requires
        contracted("bsi,bsi->bsi"@, seq![x, y], m),
        x.shape == seq![nb, ns, ni],
        y.shape == seq![nb, ns, ni],
        m.shape == seq![nb, ns, ni],
        0 <= cb < padded(nb),
        0 <= cs < padded(ns),
        0 <= ci < padded(ni),
    ensures
        m.full(),
        m.get(seq![cb, cs, ci]) == x.get(seq![cb, cs, ci]) * y.get(seq![cb, cs, ci]),
{
    reveal_strlit("bsi,bsi->bsi");
    let e = "bsi,bsi->bsi"@;
    let (p, q, o) = (seq!['b', 's', 'i'], seq!['b', 's', 'i'], seq!['b', 's', 'i']);
    assert(e =~= p + seq![','] + q + seq!['-', '>'] + o);
    lemma_two_inputs(e, p, q, o);
    let symbols = seq![p, q];
    let ins = seq![x, y];
    let a = |c: char|
        if c == 'b' {
            cb
        } else if c == 's' {
            cs
        } else if c == 'i' {
            ci
        } else {
            0
        };
    assert(address(o, a) =~= seq![cb, cs, ci]);
    assert(addresses(m.shape, address(o, a)));
    assert forall|c: char| occurs(symbols, c) implies #[trigger] o.contains(c) by {
        let i = choose|i: int| 0 <= i < symbols.len() && (#[trigger] symbols[i]).contains(c);
        assert(o[0] == 'b');
        assert(o[1] == 's');
        assert(o[2] == 'i');
    }
    lemma_none(e, ins, m, symbols, o, a);
    lemma_entry_product(ins, symbols, a);
    assert(address(p, a) =~= seq![cb, cs, ci]);
    assert(address(q, a) =~= seq![cb, cs, ci]);
}

/// `bsi->bs`.
pub proof fn lemma_bsi_bs_sum(
    x: Tensor,
    m: Tensor,
    nb: usize,
    ns: usize,
    ni: usize,
    cb: int,
    cs: int,
)
    requires
        contracted("bsi->bs"@, seq![x], m),
        x.shape == seq![nb, ns, ni],
        m.shape == seq![nb, ns],
        0 <= cb < padded(nb),
        0 <= cs < padded(ns),
    ensures
        m.full(),
        m.get(seq![cb, cs]) == sum_to(|ci: int| x.get(seq![cb, cs, ci]), padded(ni)),
{
    reveal_strlit("bsi->bs");
    let e = "bsi->bs"@;
    let (p, o) = (seq!['b', 's', 'i'], seq!['b', 's']);
    assert(e =~= p + seq!['-', '>'] + o);
    lemma_one_input(e, p, o);
    let symbols = seq![p];
    let ins = seq![x];
    let a = |c: char|
        if c == 'b' {
            cb
        } else if c == 's' {
            cs
        } else {
            0
        };
    assert(address(o, a) =~= seq![cb, cs]);
    assert(addresses(m.shape, address(o, a)));
    assert forall|c: char| occurs(symbols, c) && c != 'i' implies #[trigger] o.contains(c) by {
        let i = choose|i: int| 0 <= i < symbols.len() && (#[trigger] symbols[i]).contains(c);
        assert(o[0] == 'b');
        assert(o[1] == 's');
    }
    assert(p[2] == 'i');
    assert(symbols[0].contains('i'));
    let shapes = seq![seq![nb, ns, ni]];
    assert(ins.map_values(|t: Tensor| t.shape) =~= shapes);
    let pairs = with_dims(p, seq![nb, ns, ni]);
    lemma_symbol_dims(p, p, shapes[0], shapes[0]);
    assert(pairs[2].0 == 'i');
    lemma_size(e, shapes, pairs, 2);
    let size = padded(ni);
    lemma_one(e, ins, m, symbols, o, a, 'i', size);
    let f = |v: int| entry_product(ins, symbols, assigned(a, 'i', v));
    let h = |ci: int| x.get(seq![cb, cs, ci]);
    assert forall|v: int| 0 <= v < size implies #[trigger] f(v) == h(v) by {
        lemma_entry_product(ins, symbols, assigned(a, 'i', v));
        assert(address(p, assigned(a, 'i', v)) =~= seq![cb, cs, v]);
    }
    lemma_sum_ext(f, h, size);
}

/// `bsi,i->bsi`.
pub proof fn lemma_bsi_i_bsi_sum(
    x: Tensor,
    y: Tensor,
    m: Tensor,
    nb: usize,
    ns: usize,
    ni: usize,
    cb: int,
    cs: int,
    ci: int,
)
    requires
        contracted("bsi,i->bsi"@, seq![x, y], m),
        x.shape == seq![nb, ns, ni],
        y.shape == seq![ni],
        m.shape == seq![nb, ns, ni],
        0 <= cb < padded(nb),
        0 <= cs < padded(ns),
        0 <= ci < padded(ni),
    ensures
        m.full(),
        m.get(seq![cb, cs, ci]) == x.get(seq![cb, cs, ci]) * y.get(seq![ci]),
{
    reveal_strlit("bsi,i->bsi");
    let e = "bsi,i->bsi"@;
    let (p, q, o) = (seq!['b', 's', 'i'], seq!['i'], seq!['b', 's', 'i']);
    assert(e =~= p + seq![','] + q + seq!['-', '>'] + o);
    lemma_two_inputs(e, p, q, o);
    let symbols = seq![p, q];
    let ins = seq![x, y];
    let a = |c: char|
        if c == 'b' {
            cb
        } else if c == 's' {
            cs
        } else if c == 'i' {
            ci
        } else {
            0
        };
    assert(address(o, a) =~= seq![cb, cs, ci]);
    assert(addresses(m.shape, address(o, a)));
    assert forall|c: char| occurs(symbols, c) implies #[trigger] o.contains(c) by {
        let i = choose|i: int| 0 <= i < symbols.len() && (#[trigger] symbols[i]).contains(c);
        assert(o[0] == 'b');
        assert(o[1] == 's');
        assert(o[2] == 'i');
    }
    lemma_none(e, ins, m, symbols, o, a);
    lemma_entry_product(ins, symbols, a);
    assert(address(p, a) =~= seq![cb, cs, ci]);
    assert(address(q, a) =~= seq![ci]);
}

/// `bsi,bs->bsi`.
pub proof fn lemma_bsi_bs_bsi_sum(
    x: Tensor,
    y: Tensor,
    m: Tensor,
    nb: usize,
    ns: usize,
    ni: usize,
    cb: int,
    cs: int,
    ci: int,
)
    requires
        contracted("bsi,bs->bsi"@, seq![x, y], m),
        x.shape == seq![nb, ns, ni],
        y.shape == seq![nb, ns],
        m.shape == seq![nb, ns, ni],
        0 <= cb < padded(nb),
        0 <= cs < padded(ns),
        0 <= ci < padded(ni),
    ensures
        m.full(),
        m.get(seq![cb, cs, ci]) == x.get(seq![cb, cs, ci]) * y.get(seq![cb, cs]),
{
    reveal_strlit("bsi,bs->bsi");
    let e = "bsi,bs->bsi"@;
    let (p, q, o) = (seq!['b', 's', 'i'], seq!['b', 's'], seq!['b', 's', 'i']);
    assert(e =~= p + seq![','] + q + seq!['-', '>'] + o);
    lemma_two_inputs(e, p, q, o);
    let symbols = seq![p, q];
    let ins = seq![x, y];
    let a = |c: char|
        if c == 'b' {
            cb
        } else if c == 's' {
            cs
        } else if c == 'i' {
            ci
        } else {
            0
        };
    assert(address(o, a) =~= seq![cb, cs, ci]);
    assert(addresses(m.shape, address(o, a)));
    assert forall|c: char| occurs(symbols, c) implies #[trigger] o.contains(c) by {
        let i = choose|i: int| 0 <= i < symbols.len() && (#[trigger] symbols[i]).contains(c);
        assert(o[0] == 'b');
        assert(o[1] == 's');
        assert(o[2] == 'i');
    }
    lemma_none(e, ins, m, symbols, o, a);
    lemma_entry_product(ins, symbols, a);
    assert(address(p, a) =~= seq![cb, cs, ci]);
    assert(address(q, a) =~= seq![cb, cs]);
}

/// `bsdh->bshd`.
pub proof fn lemma_bsdh_bshd_sum(
    x: Tensor,
    m: Tensor,
    nb: usize,
    ns: usize,
    nd: usize,
    nh: usize,
    cb: int,
    cs: int,
    ch: int,
    cd: int,
)
    requires
        contracted("bsdh->bshd"@, seq![x], m),
        x.shape == seq![nb, ns, nd, nh],
        m.shape == seq![nb, ns, nh, nd],
        0 <= cb < padded(nb),
        0 <= cs < padded(ns),
        0 <= ch < padded(nh),
        0 <= cd < padded(nd),
    ensures
        m.full(),
        m.get(seq![cb, cs, ch, cd]) == x.get(seq![cb, cs, cd, ch]),
{
    reveal_strlit("bsdh->bshd");
    let e = "bsdh->bshd"@;
    let (p, o) = (seq!['b', 's', 'd', 'h'], seq!['b', 's', 'h', 'd']);
    assert(e =~= p + seq!['-', '>'] + o);
    lemma_one_input(e, p, o);
    let symbols = seq![p];
    let ins = seq![x];
    let a = |c: char|
        if c == 'b' {
            cb
        } else if c == 's' {
            cs
        } else if c == 'h' {
            ch
        } else if c == 'd' {
            cd
        } else {
            0
        };
    assert(address(o, a) =~= seq![cb, cs, ch, cd]);
    assert(addresses(m.shape, address(o, a)));
    assert forall|c: char| occurs(symbols, c) implies #[trigger] o.contains(c) by {
        let i = choose|i: int| 0 <= i < symbols.len() && (#[trigger] symbols[i]).contains(c);
        assert(o[0] == 'b');
        assert(o[1] == 's');
        assert(o[2] == 'h');
        assert(o[3] == 'd');
    }
    lemma_none(e, ins, m, symbols, o, a);
    lemma_entry_product(ins, symbols, a);
    assert(address(p, a) =~= seq![cb, cs, cd, ch]);
}

/// `bshd->bsdh`.
pub proof fn lemma_bshd_bsdh_sum(
    x: Tensor,
    m: Tensor,
    nb: usize,
    ns: usize,
    nh: usize,
    nd: usize,
    cb: int,
    cs: int,
    cd: int,
    ch: int,
)
    requires
        contracted("bshd->bsdh"@, seq![x], m),
        x.shape == seq![nb, ns, nh, nd],
        m.shape == seq![nb, ns, nd, nh],
        0 <= cb < padded(nb),
        0 <= cs < padded(ns),
        0 <= cd < padded(nd),
        0 <= ch < padded(nh),
    ensures
        m.full(),
        m.get(seq![cb, cs, cd, ch]) == x.get(seq![cb, cs, ch, cd]),
{
    reveal_strlit("bshd->bsdh");
    let e = "bshd->bsdh"@;
    let (p, o) = (seq!['b', 's', 'h', 'd'], seq!['b', 's', 'd', 'h']);
    assert(e =~= p + seq!['-', '>'] + o);
    lemma_one_input(e, p, o);
    let symbols = seq![p];
    let ins = seq![x];
    let a = |c: char|
        if c == 'b' {
            cb
        } else if c == 's' {
            cs
        } else if c == 'd' {
            cd
        } else if c == 'h' {
            ch
        } else {
            0
        };
    assert(address(o, a) =~= seq![cb, cs, cd, ch]);
    assert(addresses(m.shape, address(o, a)));
    assert forall|c: char| occurs(symbols, c) implies #[trigger] o.contains(c) by {
        let i = choose|i: int| 0 <= i < symbols.len() && (#[trigger] symbols[i]).contains(c);
        assert(o[0] == 'b');
        assert(o[1] == 's');
        assert(o[2] == 'd');
        assert(o[3] == 'h');
    }
    lemma_none(e, ins, m, symbols, o, a);
    lemma_entry_product(ins, symbols, a);
    assert(address(p, a) =~= seq![cb, cs, ch, cd]);
}

/// `bshd->bhsd`.
pub proof fn lemma_bshd_bhsd_sum(
    x: Tensor,
    m: Tensor,
    nb: usize,
    ns: usize,
    nh: usize,
    nd: usize,
    cb: int,
    ch: int,
    cs: int,
    cd: int,
)
    requires
        contracted("bshd->bhsd"@, seq![x], m),
        x.shape == seq![nb, ns, nh, nd],
        m.shape == seq![nb, nh, ns, nd],
        0 <= cb < padded(nb),
        0 <= ch < padded(nh),
        0 <= cs < padded(ns),
        0 <= cd < padded(nd),
    ensures
        m.full(),
        m.get(seq![cb, ch, cs, cd]) == x.get(seq![cb, cs, ch, cd]),
{
    reveal_strlit("bshd->bhsd");
    let e = "bshd->bhsd"@;
    let (p, o) = (seq!['b', 's', 'h', 'd'], seq!['b', 'h', 's', 'd']);
    assert(e =~= p + seq!['-', '>'] + o);
    lemma_one_input(e, p, o);
    let symbols = seq![p];
    let ins = seq![x];
    let a = |c: char|
        if c == 'b' {
            cb
        } else if c == 'h' {
            ch
        } else if c == 's' {
            cs
        } else if c == 'd' {
            cd
        } else {
            0
        };
    assert(address(o, a) =~= seq![cb, ch, cs, cd]);
    assert(addresses(m.shape, address(o, a)));
    assert forall|c: char| occurs(symbols, c) implies #[trigger] o.contains(c) by {
        let i = choose|i: int| 0 <= i < symbols.len() && (#[trigger] symbols[i]).contains(c);
        assert(o[0] == 'b');
        assert(o[1] == 'h');
        assert(o[2] == 's');
        assert(o[3] == 'd');
    }
    lemma_none(e, ins, m, symbols, o, a);
    lemma_entry_product(ins, symbols, a);
    assert(address(p, a) =~= seq![cb, cs, ch, cd]);
}

/// `bhsd->bshd`.
pub proof fn lemma_bhsd_bshd_sum(
    x: Tensor,
    m: Tensor,
    nb: usize,
    nh: usize,
    ns: usize,
    nd: usize,
    cb: int,
    cs: int,
    ch: int,
    cd: int,
)
    requires
        contracted("bhsd->bshd"@, seq![x], m),
        x.shape == seq![nb, nh, ns, nd],
        m.shape == seq![nb, ns, nh, nd],
        0 <= cb < padded(nb),
        0 <= cs < padded(ns),
        0 <= ch < padded(nh),
        0 <= cd < padded(nd),
    ensures
        m.full(),
        m.get(seq![cb, cs, ch, cd]) == x.get(seq![cb, ch, cs, cd]),
{
    reveal_strlit("bhsd->bshd");
    let e = "bhsd->bshd"@;
    let (p, o) = (seq!['b', 'h', 's', 'd'], seq!['b', 's', 'h', 'd']);
    assert(e =~= p + seq!['-', '>'] + o);
    lemma_one_input(e, p, o);
    let symbols = seq![p];
    let ins = seq![x];
    let a = |c: char|
        if c == 'b' {
            cb
        } else if c == 's' {
            cs
        } else if c == 'h' {
            ch
        } else if c == 'd' {
            cd
        } else {
            0
        };
    assert(address(o, a) =~= seq![cb, cs, ch, cd]);
    assert(addresses(m.shape, address(o, a)));
    assert forall|c: char| occurs(symbols, c) implies #[trigger] o.contains(c) by {
        let i = choose|i: int| 0 <= i < symbols.len() && (#[trigger] symbols[i]).contains(c);
        assert(o[0] == 'b');
        assert(o[1] == 's');
        assert(o[2] == 'h');
        assert(o[3] == 'd');
    }
    lemma_none(e, ins, m, symbols, o, a);
    lemma_entry_product(ins, symbols, a);
    assert(address(p, a) =~= seq![cb, ch, cs, cd]);
}

/// `bhsd,bhtd->bhst`.
pub proof fn lemma_bhsd_bhtd_bhst_sum(
    x: Tensor,
    y: Tensor,
    m: Tensor,
    nb: usize,
    nh: usize,
    ns: usize,
    nd: usize,
    nt: usize,
    cb: int,
    ch: int,
    cs: int,
    ct: int,
)
    requires
        contracted("bhsd,bhtd->bhst"@, seq![x, y], m),
        x.shape == seq![nb, nh, ns, nd],
        y.shape == seq![nb, nh, nt, nd],
        m.shape == seq![nb, nh, ns, nt],
        0 <= cb < padded(nb),
        0 <= ch < padded(nh),
        0 <= cs < padded(ns),
        0 <= ct < padded(nt),
    ensures
        m.full(),
        m.get(seq![cb, ch, cs, ct]) == sum_to(
            |cd: int| x.get(seq![cb, ch, cs, cd]) * y.get(seq![cb, ch, ct, cd]),
            padded(nd),
        ),
{
    reveal_strlit("bhsd,bhtd->bhst");
    let e = "bhsd,bhtd->bhst"@;
    let (p, q, o) = (seq!['b', 'h', 's', 'd'], seq!['b', 'h', 't', 'd'], seq!['b', 'h', 's', 't']);
    assert(e =~= p + seq![','] + q + seq!['-', '>'] + o);
    lemma_two_inputs(e, p, q, o);
    let symbols = seq![p, q];
    let ins = seq![x, y];
    let a = |c: char|
        if c == 'b' {
            cb
        } else if c == 'h' {
            ch
        } else if c == 's' {
            cs
        } else if c == 't' {
            ct
        } else {
            0
        };
    assert(address(o, a) =~= seq![cb, ch, cs, ct]);
    assert(addresses(m.shape, address(o, a)));
    assert forall|c: char| occurs(symbols, c) && c != 'd' implies #[trigger] o.contains(c) by {
        let i = choose|i: int| 0 <= i < symbols.len() && (#[trigger] symbols[i]).contains(c);
        assert(o[0] == 'b');
        assert(o[1] == 'h');
        assert(o[2] == 's');
        assert(o[3] == 't');
    }
    assert(q[3] == 'd');
    assert(symbols[1].contains('d'));
    let shapes = seq![seq![nb, nh, ns, nd], seq![nb, nh, nt, nd]];
    assert(ins.map_values(|t: Tensor| t.shape) =~= shapes);
    let pairs = with_dims(p, seq![nb, nh, ns, nd]) + with_dims(q, seq![nb, nh, nt, nd]);
    lemma_symbol_dims(p, q, shapes[0], shapes[1]);
    assert(pairs[7].0 == 'd');
    lemma_size(e, shapes, pairs, 7);
    let size = padded(nd);
    lemma_one(e, ins, m, symbols, o, a, 'd', size);
    let f = |v: int| entry_product(ins, symbols, assigned(a, 'd', v));
    let h = |cd: int| x.get(seq![cb, ch, cs, cd]) * y.get(seq![cb, ch, ct, cd]);
    assert forall|v: int| 0 <= v < size implies #[trigger] f(v) == h(v) by {
        lemma_entry_product(ins, symbols, assigned(a, 'd', v));
        assert(address(p, assigned(a, 'd', v)) =~= seq![cb, ch, cs, v]);
        assert(address(q, assigned(a, 'd', v)) =~= seq![cb, ch, ct, v]);
    }
    lemma_sum_ext(f, h, size);
}

/// `bhst,z->bhst`.
pub proof fn lemma_bhst_z_bhst_sum(
    x: Tensor,
    y: Tensor,
    m: Tensor,
    nb: usize,
    nh: usize,
    ns: usize,
    nt: usize,
    cb: int,
    ch: int,
    cs: int,
    ct: int,
)
    requires
        contracted("bhst,z->bhst"@, seq![x, y], m),
        x.shape == seq![nb, nh, ns, nt],
        y.shape == seq![1usize],
        m.shape == seq![nb, nh, ns, nt],
        0 <= cb < padded(nb),
        0 <= ch < padded(nh),
        0 <= cs < padded(ns),
        0 <= ct < padded(nt),
    ensures
        m.full(),
        m.get(seq![cb, ch, cs, ct]) == x.get(seq![cb, ch, cs, ct]) * y.get(seq![0]),
{
    reveal_strlit("bhst,z->bhst");
    let e = "bhst,z->bhst"@;
    let (p, q, o) = (seq!['b', 'h', 's', 't'], seq!['z'], seq!['b', 'h', 's', 't']);
    assert(e =~= p + seq![','] + q + seq!['-', '>'] + o);
    lemma_two_inputs(e, p, q, o);
    let symbols = seq![p, q];
    let ins = seq![x, y];
    let a = |c: char|
        if c == 'b' {
            cb
        } else if c == 'h' {
            ch
        } else if c == 's' {
            cs
        } else if c == 't' {
            ct
        } else {
            0
        };
    assert(address(o, a) =~= seq![cb, ch, cs, ct]);
    assert(addresses(m.shape, address(o, a)));
    assert forall|c: char| occurs(symbols, c) && c != 'z' implies #[trigger] o.contains(c) by {
        let i = choose|i: int| 0 <= i < symbols.len() && (#[trigger] symbols[i]).contains(c);
        assert(o[0] == 'b');
        assert(o[1] == 'h');
        assert(o[2] == 's');
        assert(o[3] == 't');
    }
    assert(q[0] == 'z');
    assert(symbols[1].contains('z'));
    let shapes = seq![seq![nb, nh, ns, nt], seq![1usize]];
    assert(ins.map_values(|t: Tensor| t.shape) =~= shapes);
    let pairs = with_dims(p, seq![nb, nh, ns, nt]) + with_dims(q, seq![1usize]);
    lemma_symbol_dims(p, q, shapes[0], shapes[1]);
    assert(pairs[4].0 == 'z');
    lemma_size(e, shapes, pairs, 4);
    let size = padded(1usize);
    lemma_one(e, ins, m, symbols, o, a, 'z', size);
    let f = |v: int| entry_product(ins, symbols, assigned(a, 'z', v));
    let h = |cz: int| x.get(seq![cb, ch, cs, ct]) * y.get(seq![cz]);
    assert forall|v: int| 0 <= v < size implies #[trigger] f(v) == h(v) by {
        lemma_entry_product(ins, symbols, assigned(a, 'z', v));
        assert(address(p, assigned(a, 'z', v)) =~= seq![cb, ch, cs, ct]);
        assert(address(q, assigned(a, 'z', v)) =~= seq![v]);
    }
    lemma_sum_ext(f, h, size);
    lemma_padded_one();
    assert(sum_to(h, 1) == sum_to(h, 0) + h(0));
}

/// `bhst,bhtd->bhsd`.
pub proof fn lemma_bhst_bhtd_bhsd_sum(
    x: Tensor,
    y: Tensor,
    m: Tensor,
    nb: usize,
    nh: usize,
    ns: usize,
    nt: usize,
    nd: usize,
    cb: int,
    ch: int,
    cs: int,
    cd: int,
)
    requires
        contracted("bhst,bhtd->bhsd"@, seq![x, y], m),
        x.shape == seq![nb, nh, ns, nt],
        y.shape == seq![nb, nh, nt, nd],
        m.shape == seq![nb, nh, ns, nd],
        0 <= cb < padded(nb),
        0 <= ch < padded(nh),
        0 <= cs < padded(ns),
        0 <= cd < padded(nd),
    ensures
        m.full(),
        m.get(seq![cb, ch, cs, cd]) == sum_to(
            |ct: int| x.get(seq![cb, ch, cs, ct]) * y.get(seq![cb, ch, ct, cd]),
            padded(nt),
        ),
{
    reveal_strlit("bhst,bhtd->bhsd");
    let e = "bhst,bhtd->bhsd"@;
    let (p, q, o) = (seq!['b', 'h', 's', 't'], seq!['b', 'h', 't', 'd'], seq!['b', 'h', 's', 'd']);
    assert(e =~= p + seq![','] + q + seq!['-', '>'] + o);
    lemma_two_inputs(e, p, q, o);
    let symbols = seq![p, q];
    let ins = seq![x, y];
    let a = |c: char|
        if c == 'b' {
            cb
        } else if c == 'h' {
            ch
        } else if c == 's' {
            cs
        } else if c == 'd' {
            cd
        } else {
            0
        };
    assert(address(o, a) =~= seq![cb, ch, cs, cd]);
    assert(addresses(m.shape, address(o, a)));
    assert forall|c: char| occurs(symbols, c) && c != 't' implies #[trigger] o.contains(c) by {
        let i = choose|i: int| 0 <= i < symbols.len() && (#[trigger] symbols[i]).contains(c);
        assert(o[0] == 'b');
        assert(o[1] == 'h');
        assert(o[2] == 's');
        assert(o[3] == 'd');
    }
    assert(q[2] == 't');
    assert(symbols[1].contains('t'));
    let shapes = seq![seq![nb, nh, ns, nt], seq![nb, nh, nt, nd]];
    assert(ins.map_values(|t: Tensor| t.shape) =~= shapes);
    let pairs = with_dims(p, seq![nb, nh, ns, nt]) + with_dims(q, seq![nb, nh, nt, nd]);
    lemma_symbol_dims(p, q, shapes[0], shapes[1]);
    assert(pairs[6].0 == 't');
    lemma_size(e, shapes, pairs, 6);
    let size = padded(nt);
    lemma_one(e, ins, m, symbols, o, a, 't', size);
    let f = |v: int| entry_product(ins, symbols, assigned(a, 't', v));
    let h = |ct: int| x.get(seq![cb, ch, cs, ct]) * y.get(seq![cb, ch, ct, cd]);
    assert forall|v: int| 0 <= v < size implies #[trigger] f(v) == h(v) by {
        lemma_entry_product(ins, symbols, assigned(a, 't', v));
        assert(address(p, assigned(a, 't', v)) =~= seq![cb, ch, cs, v]);
        assert(address(q, assigned(a, 't', v)) =~= seq![cb, ch, v, cd]);
    }
    lemma_sum_ext(f, h, size);
}

/// `bshd,de->bshe`.
pub proof fn lemma_bshd_de_bshe_sum(
    x: Tensor,
    y: Tensor,
    m: Tensor,
    nb: usize,
    ns: usize,
    nh: usize,
    nd: usize,
    ne: usize,
    cb: int,
    cs: int,
    ch: int,
    ce: int,
)
    requires
        contracted("bshd,de->bshe"@, seq![x, y], m),
        x.shape == seq![nb, ns, nh, nd],
        y.shape == seq![nd, ne],
        m.shape == seq![nb, ns, nh, ne],
        0 <= cb < padded(nb),
        0 <= cs < padded(ns),
        0 <= ch < padded(nh),
        0 <= ce < padded(ne),
    ensures
        m.full(),
        m.get(seq![cb, cs, ch, ce]) == sum_to(
            |cd: int| x.get(seq![cb, cs, ch, cd]) * y.get(seq![cd, ce]),
            padded(nd),
        ),
{
    reveal_strlit("bshd,de->bshe");
    let e = "bshd,de->bshe"@;
    let (p, q, o) = (seq!['b', 's', 'h', 'd'], seq!['d', 'e'], seq!['b', 's', 'h', 'e']);
    assert(e =~= p + seq![','] + q + seq!['-', '>'] + o);
    lemma_two_inputs(e, p, q, o);
    let symbols = seq![p, q];
    let ins = seq![x, y];
    let a = |c: char|
        if c == 'b' {
            cb
        } else if c == 's' {
            cs
        } else if c == 'h' {
            ch
        } else if c == 'e' {
            ce
        } else {
            0
        };
    assert(address(o, a) =~= seq![cb, cs, ch, ce]);
    assert(addresses(m.shape, address(o, a)));
    assert forall|c: char| occurs(symbols, c) && c != 'd' implies #[trigger] o.contains(c) by {
        let i = choose|i: int| 0 <= i < symbols.len() && (#[trigger] symbols[i]).contains(c);
        assert(o[0] == 'b');
        assert(o[1] == 's');
        assert(o[2] == 'h');
        assert(o[3] == 'e');
    }
    assert(q[0] == 'd');
    assert(symbols[1].contains('d'));
    let shapes = seq![seq![nb, ns, nh, nd], seq![nd, ne]];
    assert(ins.map_values(|t: Tensor| t.shape) =~= shapes);
    let pairs = with_dims(p, seq![nb, ns, nh, nd]) + with_dims(q, seq![nd, ne]);
    lemma_symbol_dims(p, q, shapes[0], shapes[1]);
    assert(pairs[4].0 == 'd');
    lemma_size(e, shapes, pairs, 4);
    let size = padded(nd);
    lemma_one(e, ins, m, symbols, o, a, 'd', size);
    let f = |v: int| entry_product(ins, symbols, assigned(a, 'd', v));
    let h = |cd: int| x.get(seq![cb, cs, ch, cd]) * y.get(seq![cd, ce]);
    assert forall|v: int| 0 <= v < size implies #[trigger] f(v) == h(v) by {
        lemma_entry_product(ins, symbols, assigned(a, 'd', v));
        assert(address(p, assigned(a, 'd', v)) =~= seq![cb, cs, ch, v]);
        assert(address(q, assigned(a, 'd', v)) =~= seq![v, ce]);
    }
    lemma_sum_ext(f, h, size);
}

/// `bshd,sd->bshd`.
pub proof fn lemma_bshd_sd_bshd_sum(
    x: Tensor,
    y: Tensor,
    m: Tensor,
    nb: usize,
    ns: usize,
    nh: usize,
    nd: usize,
    cb: int,
    cs: int,
    ch: int,
    cd: int,
)
    requires
        contracted("bshd,sd->bshd"@, seq![x, y], m),
        x.shape == seq![nb, ns, nh, nd],
        y.shape == seq![ns, nd],
        m.shape == seq![nb, ns, nh, nd],
        0 <= cb < padded(nb),
        0 <= cs < padded(ns),
        0 <= ch < padded(nh),
        0 <= cd < padded(nd),
    ensures
        m.full(),
        m.get(seq![cb, cs, ch, cd]) == x.get(seq![cb, cs, ch, cd]) * y.get(seq![cs, cd]),
{
    reveal_strlit("bshd,sd->bshd");
    let e = "bshd,sd->bshd"@;
    let (p, q, o) = (seq!['b', 's', 'h', 'd'], seq!['s', 'd'], seq!['b', 's', 'h', 'd']);
    assert(e =~= p + seq![','] + q + seq!['-', '>'] + o);
    lemma_two_inputs(e, p, q, o);
    let symbols = seq![p, q];
    let ins = seq![x, y];
    let a = |c: char|
        if c == 'b' {
            cb
        } else if c == 's' {
            cs
        } else if c == 'h' {
            ch
        } else if c == 'd' {
            cd
        } else {
            0
        };
    assert(address(o, a) =~= seq![cb, cs, ch, cd]);
    assert(addresses(m.shape, address(o, a)));
    assert forall|c: char| occurs(symbols, c) implies #[trigger] o.contains(c) by {
        let i = choose|i: int| 0 <= i < symbols.len() && (#[trigger] symbols[i]).contains(c);
        assert(o[0] == 'b');
        assert(o[1] == 's');
        assert(o[2] == 'h');
        assert(o[3] == 'd');
    }
    lemma_none(e, ins, m, symbols, o, a);
    lemma_entry_product(ins, symbols, a);
    assert(address(p, a) =~= seq![cb, cs, ch, cd]);
    assert(address(q, a) =~= seq![cs, cd]);
}

/// `sv,vd->sd`.
pub proof fn lemma_sv_vd_sd_sum(
    x: Tensor,
    y: Tensor,
    m: Tensor,
    ns: usize,
    nv: usize,
    nd: usize,
    cs: int,
    cd: int,
)
    requires
        contracted("sv,vd->sd"@, seq![x, y], m),
        x.shape == seq![ns, nv],
        y.shape == seq![nv, nd],
        m.shape == seq![ns, nd],
        0 <= cs < padded(ns),
        0 <= cd < padded(nd),
    ensures
        m.full(),
        m.get(seq![cs, cd]) == sum_to(
            |cv: int| x.get(seq![cs, cv]) * y.get(seq![cv, cd]),
            padded(nv),
        ),
{
    reveal_strlit("sv,vd->sd");
    let e = "sv,vd->sd"@;
    let (p, q, o) = (seq!['s', 'v'], seq!['v', 'd'], seq!['s', 'd']);
    assert(e =~= p + seq![','] + q + seq!['-', '>'] + o);
    lemma_two_inputs(e, p, q, o);
    let symbols = seq![p, q];
    let ins = seq![x, y];
    let a = |c: char|
        if c == 's' {
            cs
        } else if c == 'd' {
            cd
        } else {
            0
        };
    assert(address(o, a) =~= seq![cs, cd]);
    assert(addresses(m.shape, address(o, a)));
    assert forall|c: char| occurs(symbols, c) && c != 'v' implies #[trigger] o.contains(c) by {
        let i = choose|i: int| 0 <= i < symbols.len() && (#[trigger] symbols[i]).contains(c);
        assert(o[0] == 's');
        assert(o[1] == 'd');
    }
    assert(q[0] == 'v');
    assert(symbols[1].contains('v'));
    let shapes = seq![seq![ns, nv], seq![nv, nd]];
    assert(ins.map_values(|t: Tensor| t.shape) =~= shapes);
    let pairs = with_dims(p, seq![ns, nv]) + with_dims(q, seq![nv, nd]);
    lemma_symbol_dims(p, q, shapes[0], shapes[1]);
    assert(pairs[2].0 == 'v');
    lemma_size(e, shapes, pairs, 2);
    let size = padded(nv);
    lemma_one(e, ins, m, symbols, o, a, 'v', size);
    let f = |v: int| entry_product(ins, symbols, assigned(a, 'v', v));
    let h = |cv: int| x.get(seq![cs, cv]) * y.get(seq![cv, cd]);
    assert forall|v: int| 0 <= v < size implies #[trigger] f(v) == h(v) by {
        lemma_entry_product(ins, symbols, assigned(a, 'v', v));
        assert(address(p, assigned(a, 'v', v)) =~= seq![cs, v]);
        assert(address(q, assigned(a, 'v', v)) =~= seq![v, cd]);
    }
    lemma_sum_ext(f, h, size);
}

/// `sv,sv->s`.
pub proof fn lemma_sv_sv_s_sum(
    x: Tensor,
    y: Tensor,
    m: Tensor,
    ns: usize,
    nv: usize,
    cs: int,
)
    requires
        contracted("sv,sv->s"@, seq![x, y], m),
        x.shape == seq![ns, nv],
        y.shape == seq![ns, nv],
        m.shape == seq![ns],
        0 <= cs < padded(ns),
    ensures
        m.full(),
        m.get(seq![cs]) == sum_to(|cv: int| x.get(seq![cs, cv]) * y.get(seq![cs, cv]), padded(nv)),
{
    reveal_strlit("sv,sv->s");
    let e = "sv,sv->s"@;
    let (p, q, o) = (seq!['s', 'v'], seq!['s', 'v'], seq!['s']);
    assert(e =~= p + seq![','] + q + seq!['-', '>'] + o);
    lemma_two_inputs(e, p, q, o);
    let symbols = seq![p, q];
    let ins = seq![x, y];
    let a = |c: char|
        if c == 's' {
            cs
        } else {
            0
        };
    assert(address(o, a) =~= seq![cs]);
    assert(addresses(m.shape, address(o, a)));
    assert forall|c: char| occurs(symbols, c) && c != 'v' implies #[trigger] o.contains(c) by {
        let i = choose|i: int| 0 <= i < symbols.len() && (#[trigger] symbols[i]).contains(c);
        assert(o[0] == 's');
    }
    assert(q[1] == 'v');
    assert(symbols[1].contains('v'));
    let shapes = seq![seq![ns, nv], seq![ns, nv]];
    assert(ins.map_values(|t: Tensor| t.shape) =~= shapes);
    let pairs = with_dims(p, seq![ns, nv]) + with_dims(q, seq![ns, nv]);
    lemma_symbol_dims(p, q, shapes[0], shapes[1]);
    assert(pairs[3].0 == 'v');
    lemma_size(e, shapes, pairs, 3);
    let size = padded(nv);
    lemma_one(e, ins, m, symbols, o, a, 'v', size);
    let f = |v: int| entry_product(ins, symbols, assigned(a, 'v', v));
    let h = |cv: int| x.get(seq![cs, cv]) * y.get(seq![cs, cv]);
    assert forall|v: int| 0 <= v < size implies #[trigger] f(v) == h(v) by {
        lemma_entry_product(ins, symbols, assigned(a, 'v', v));
        assert(address(p, assigned(a, 'v', v)) =~= seq![cs, v]);
        assert(address(q, assigned(a, 'v', v)) =~= seq![cs, v]);
    }
    lemma_sum_ext(f, h, size);
}

/// `bsd,vd->bsv`.
pub proof fn lemma_bsd_vd_bsv_sum(
    x: Tensor,
    y: Tensor,
    m: Tensor,
    nb: usize,
    ns: usize,
    nd: usize,
    nv: usize,
    cb: int,
    cs: int,
    cv: int,
)
    requires
        contracted("bsd,vd->bsv"@, seq![x, y], m),
        x.shape == seq![nb, ns, nd],
        y.shape == seq![nv, nd],
        m.shape == seq![nb, ns, nv],
        0 <= cb < padded(nb),
        0 <= cs < padded(ns),
        0 <= cv < padded(nv),
    ensures
        m.full(),
        m.get(seq![cb, cs, cv]) == sum_to(
            |cd: int| x.get(seq![cb, cs, cd]) * y.get(seq![cv, cd]),
            padded(nd),
        ),
{
    reveal_strlit("bsd,vd->bsv");
    let e = "bsd,vd->bsv"@;
    let (p, q, o) = (seq!['b', 's', 'd'], seq!['v', 'd'], seq!['b', 's', 'v']);
    assert(e =~= p + seq![','] + q + seq!['-', '>'] + o);
    lemma_two_inputs(e, p, q, o);
    let symbols = seq![p, q];
    let ins = seq![x, y];
    let a = |c: char|
        if c == 'b' {
            cb
        } else if c == 's' {
            cs
        } else if c == 'v' {
            cv
        } else {
            0
        };
    assert(address(o, a) =~= seq![cb, cs, cv]);
    assert(addresses(m.shape, address(o, a)));
    assert forall|c: char| occurs(symbols, c) && c != 'd' implies #[trigger] o.contains(c) by {
        let i = choose|i: int| 0 <= i < symbols.len() && (#[trigger] symbols[i]).contains(c);
        assert(o[0] == 'b');
        assert(o[1] == 's');
        assert(o[2] == 'v');
    }
    assert(q[1] == 'd');
    assert(symbols[1].contains('d'));
    let shapes = seq![seq![nb, ns, nd], seq![nv, nd]];
    assert(ins.map_values(|t: Tensor| t.shape) =~= shapes);
    let pairs = with_dims(p, seq![nb, ns, nd]) + with_dims(q, seq![nv, nd]);
    lemma_symbol_dims(p, q, shapes[0], shapes[1]);
    assert(pairs[4].0 == 'd');
    lemma_size(e, shapes, pairs, 4);
    let size = padded(nd);
    lemma_one(e, ins, m, symbols, o, a, 'd', size);
    let f = |v: int| entry_product(ins, symbols, assigned(a, 'd', v));
    let h = |cd: int| x.get(seq![cb, cs, cd]) * y.get(seq![cv, cd]);
    assert forall|v: int| 0 <= v < size implies #[trigger] f(v) == h(v) by {
        lemma_entry_product(ins, symbols, assigned(a, 'd', v));
        assert(address(p, assigned(a, 'd', v)) =~= seq![cb, cs, v]);
        assert(address(q, assigned(a, 'd', v)) =~= seq![cv, v]);
    }
    lemma_sum_ext(f, h, size);
}

/// `btv,ve->bte`.
pub proof fn lemma_btv_ve_bte_sum(
    x: Tensor,
    y: Tensor,
    m: Tensor,
    nb: usize,
    nt: usize,
    nv: usize,
    ne: usize,
    cb: int,
    ct: int,
    ce: int,
)
    requires
        contracted("btv,ve->bte"@, seq![x, y], m),
        x.shape == seq![nb, nt, nv],
        y.shape == seq![nv, ne],
        m.shape == seq![nb, nt, ne],
        0 <= cb < padded(nb),
        0 <= ct < padded(nt),
        0 <= ce < padded(ne),
    ensures
        m.full(),
        m.get(seq![cb, ct, ce]) == sum_to(
            |cv: int| x.get(seq![cb, ct, cv]) * y.get(seq![cv, ce]),
            padded(nv),
        ),
{
    reveal_strlit("btv,ve->bte");
    let e = "btv,ve->bte"@;
    let (p, q, o) = (seq!['b', 't', 'v'], seq!['v', 'e'], seq!['b', 't', 'e']);
    assert(e =~= p + seq![','] + q + seq!['-', '>'] + o);
    lemma_two_inputs(e, p, q, o);
    let symbols = seq![p, q];
    let ins = seq![x, y];
    let a = |c: char|
        if c == 'b' {
            cb
        } else if c == 't' {
            ct
        } else if c == 'e' {
            ce
        } else {
            0
        };
    assert(address(o, a) =~= seq![cb, ct, ce]);
    assert(addresses(m.shape, address(o, a)));
    assert forall|c: char| occurs(symbols, c) && c != 'v' implies #[trigger] o.contains(c) by {
        let i = choose|i: int| 0 <= i < symbols.len() && (#[trigger] symbols[i]).contains(c);
        assert(o[0] == 'b');
        assert(o[1] == 't');
        assert(o[2] == 'e');
    }
    assert(q[0] == 'v');
    assert(symbols[1].contains('v'));
    let shapes = seq![seq![nb, nt, nv], seq![nv, ne]];
    assert(ins.map_values(|t: Tensor| t.shape) =~= shapes);
    let pairs = with_dims(p, seq![nb, nt, nv]) + with_dims(q, seq![nv, ne]);
    lemma_symbol_dims(p, q, shapes[0], shapes[1]);
    assert(pairs[3].0 == 'v');
    lemma_size(e, shapes, pairs, 3);
    let size = padded(nv);
    lemma_one(e, ins, m, symbols, o, a, 'v', size);
    let f = |v: int| entry_product(ins, symbols, assigned(a, 'v', v));
    let h = |cv: int| x.get(seq![cb, ct, cv]) * y.get(seq![cv, ce]);
    assert forall|v: int| 0 <= v < size implies #[trigger] f(v) == h(v) by {
        lemma_entry_product(ins, symbols, assigned(a, 'v', v));
        assert(address(p, assigned(a, 'v', v)) =~= seq![cb, ct, v]);
        assert(address(q, assigned(a, 'v', v)) =~= seq![v, ce]);
    }
    lemma_sum_ext(f, h, size);
}

/// `bte,ve->btv`.
pub proof fn lemma_bte_ve_btv_sum(
    x: Tensor,
    y: Tensor,
    m: Tensor,
    nb: usize,
    nt: usize,
    ne: usize,
    nv: usize,
    cb: int,
    ct: int,
    cv: int,
)
    requires
        contracted("bte,ve->btv"@, seq![x, y], m),
        x.shape == seq![nb, nt, ne],
        y.shape == seq![nv, ne],
        m.shape == seq![nb, nt, nv],
        0 <= cb < padded(nb),
        0 <= ct < padded(nt),
        0 <= cv < padded(nv),
    ensures
        m.full(),
        m.get(seq![cb, ct, cv]) == sum_to(
            |ce: int| x.get(seq![cb, ct, ce]) * y.get(seq![cv, ce]),
            padded(ne),
        ),
{
    reveal_strlit("bte,ve->btv");
    let e = "bte,ve->btv"@;
    let (p, q, o) = (seq!['b', 't', 'e'], seq!['v', 'e'], seq!['b', 't', 'v']);
    assert(e =~= p + seq![','] + q + seq!['-', '>'] + o);
    lemma_two_inputs(e, p, q, o);
    let symbols = seq![p, q];
    let ins = seq![x, y];
    let a = |c: char|
        if c == 'b' {
            cb
        } else if c == 't' {
            ct
        } else if c == 'v' {
            cv
        } else {
            0
        };
    assert(address(o, a) =~= seq![cb, ct, cv]);
    assert(addresses(m.shape, address(o, a)));
    assert forall|c: char| occurs(symbols, c) && c != 'e' implies #[trigger] o.contains(c) by {
        let i = choose|i: int| 0 <= i < symbols.len() && (#[trigger] symbols[i]).contains(c);
        assert(o[0] == 'b');
        assert(o[1] == 't');
        assert(o[2] == 'v');
    }
    assert(q[1] == 'e');
    assert(symbols[1].contains('e'));
    let shapes = seq![seq![nb, nt, ne], seq![nv, ne]];
    assert(ins.map_values(|t: Tensor| t.shape) =~= shapes);
    let pairs = with_dims(p, seq![nb, nt, ne]) + with_dims(q, seq![nv, ne]);
    lemma_symbol_dims(p, q, shapes[0], shapes[1]);
    assert(pairs[4].0 == 'e');
    lemma_size(e, shapes, pairs, 4);
    let size = padded(ne);
    lemma_one(e, ins, m, symbols, o, a, 'e', size);
    let f = |v: int| entry_product(ins, symbols, assigned(a, 'e', v));
    let h = |ce: int| x.get(seq![cb, ct, ce]) * y.get(seq![cv, ce]);
    assert forall|v: int| 0 <= v < size implies #[trigger] f(v) == h(v) by {
        lemma_entry_product(ins, symbols, assigned(a, 'e', v));
        assert(address(p, assigned(a, 'e', v)) =~= seq![cb, ct, v]);
        assert(address(q, assigned(a, 'e', v)) =~= seq![cv, v]);
    }
    lemma_sum_ext(f, h, size);
}

/// `bij,jk->ik`, with one `b`.
pub proof fn lemma_bij_jk_ik_sum(
    x: Tensor,
    y: Tensor,
    m: Tensor,
    ni: usize,
    nj: usize,
    nk: usize,
    ci: int,
    ck: int,
)
    requires
        contracted("bij,jk->ik"@, seq![x, y], m),
        x.shape == seq![1, ni, nj],
        y.shape == seq![nj, nk],
        m.shape == seq![ni, nk],
        0 <= ci < padded(ni),
        0 <= ck < padded(nk),
    ensures
        m.full(),
        m.get(seq![ci, ck]) == sum_to(
            |cj: int| x.get(seq![0, ci, cj]) * y.get(seq![cj, ck]),
            padded(nj),
        ),
{
    reveal_strlit("bij,jk->ik");
    let e = "bij,jk->ik"@;
    let (p, q, o) = (seq!['b', 'i', 'j'], seq!['j', 'k'], seq!['i', 'k']);
    assert(e =~= p + seq![','] + q + seq!['-', '>'] + o);
    lemma_two_inputs(e, p, q, o);
    let symbols = seq![p, q];
    let ins = seq![x, y];
    let a = |c: char|
        if c == 'i' {
            ci
        } else if c == 'k' {
            ck
        } else {
            0
        };
    assert(address(o, a) =~= seq![ci, ck]);
    assert(addresses(m.shape, address(o, a)));
    let shapes = seq![seq![1, ni, nj], seq![nj, nk]];
    assert(ins.map_values(|t: Tensor| t.shape) =~= shapes);
    let pairs = with_dims(p, seq![1, ni, nj]) + with_dims(q, seq![nj, nk]);
    lemma_symbol_dims(p, q, shapes[0], shapes[1]);
    assert(pairs[0].0 == 'b');
    lemma_size(e, shapes, pairs, 0);
    assert(pairs[3].0 == 'j');
    lemma_size(e, shapes, pairs, 3);
    let sizes = |s: char| symbol_size(e, shapes, s);
    let summed = seq!['j', 'b'];
    assert forall|c: char| #[trigger]
        summed.contains(c) <==> occurs(symbols, c) && !o.contains(c) by {
        assert(summed[0] == 'j' && summed[1] == 'b');
        assert(o[0] == 'i' && o[1] == 'k');
        assert(p[0] == 'b' && p[2] == 'j');
        assert(symbols[0].contains('b') && symbols[0].contains('j'));
        if occurs(symbols, c) {
            let i = choose|i: int| 0 <= i < symbols.len() && (#[trigger] symbols[i]).contains(c);
        }
    }
    assert(is_summed(symbols, o, summed));
    assert(m.get(address(o, a)) == entry_sum(ins, symbols, sizes, summed, a));
    lemma_padded_one();
    let inner = assigned(a, 'b', 0);
    assert(summed.drop_last() =~= seq!['j']);
    assert(sizes('b') == 1);
    assert(entry_sum(ins, symbols, sizes, summed, a) == entry_sum_to(
        ins,
        symbols,
        sizes,
        summed,
        a,
        1,
    ));
    assert(entry_sum_to(ins, symbols, sizes, summed, a, 0) == 0);
    assert(entry_sum(ins, symbols, sizes, summed, a) == entry_sum(
        ins,
        symbols,
        sizes,
        seq!['j'],
        inner,
    ));
    lemma_padded_positive(e, shapes, 'j');
    let size = padded(nj);
    lemma_sum_to(ins, symbols, sizes, 'j', inner, size as nat);
    let f = |v: int| entry_product(ins, symbols, assigned(inner, 'j', v));
    let h = |cj: int| x.get(seq![0, ci, cj]) * y.get(seq![cj, ck]);
    assert forall|v: int| 0 <= v < size implies #[trigger] f(v) == h(v) by {
        lemma_entry_product(ins, symbols, assigned(inner, 'j', v));
        assert(address(p, assigned(inner, 'j', v)) =~= seq![0, ci, v]);
        assert(address(q, assigned(inner, 'j', v)) =~= seq![v, ck]);
    }
    lemma_sum_ext(f, h, size);
}

/// A dimension of one is not padded.
pub proof fn lemma_padded_one()
    ensures
        padded(1) == 1,
{
    lemma_padded_power(0);
    crate::math::lemma_pow2_small();
}

/// A power of two is not padded.
pub proof fn lemma_padded_power(n: nat)
    requires
        n < usize::BITS,
    ensures
        padded(pow2(n) as usize) == pow2(n),
        0 < pow2(n) <= usize::MAX,
{
    lemma_pow2_mono(n, (usize::BITS - 1) as nat);
    vstd::arithmetic::power2::lemma2_to64();
    vstd::arithmetic::power2::lemma2_to64_rest();
    vstd::arithmetic::power2::lemma_pow2_pos(n);
    if n > 0 {
        lemma_pow2_step((n - 1) as nat);
        vstd::arithmetic::power2::lemma_pow2_pos((n - 1) as nat);
    }
    lemma_ceil_log_unique(pow2(n) as int, n);
}

/// `a,a->a`, place by place.
pub proof fn lemma_a_a_a_sum(x: Tensor, y: Tensor, m: Tensor, n: nat, p: int)
    requires
        contracted("a,a->a"@, seq![x, y], m),
        n < usize::BITS,
        x.shape == seq![pow2(n) as usize],
        y.shape == x.shape,
        m.shape == x.shape,
        0 <= p < pow2(n),
    ensures
        m.table.len() == pow2(n),
        m.table[p] == x.table[p] * y.table[p],
{
    reveal_strlit("a,a->a");
    let e = "a,a->a"@;
    let o = seq!['a'];
    assert(e =~= o + seq![','] + o + seq!['-', '>'] + o);
    lemma_two_inputs(e, o, o, o);
    let symbols = seq![o, o];
    let ins = seq![x, y];
    let a = |c: char| p;
    assert(address(o, a) =~= seq![p]);
    lemma_padded_power(n);
    assert(addresses(m.shape, address(o, a)));
    assert forall|c: char| occurs(symbols, c) implies #[trigger] o.contains(c) by {
        let i = choose|i: int| 0 <= i < symbols.len() && (#[trigger] symbols[i]).contains(c);
    }
    lemma_none(e, ins, m, symbols, o, a);
    lemma_entry_product(ins, symbols, a);
    lemma_places(x.shape, seq![p]);
    lemma_flat_vars(n);
}

/// The variables of a flat shape.
pub proof fn lemma_flat_vars(n: nat)
    requires
        n < usize::BITS,
    ensures
        num_vars(seq![pow2(n) as usize]) == n,
{
    lemma_padded_power(n);
    if n > 0 {
        lemma_pow2_step((n - 1) as nat);
        vstd::arithmetic::power2::lemma_pow2_pos((n - 1) as nat);
    }
    lemma_ceil_log_unique(pow2(n) as int, n);
    let flat = seq![pow2(n) as usize];
    assert(flat.drop_last() =~= seq![]);
    reveal_with_fuel(num_vars, 2);
}

/// The product of tensors of the same shape, place by place.
pub proof fn lemma_entrywise_sum(x: Tensor, y: Tensor, m: Tensor, shape: Seq<usize>, p: int)
    requires
        shape.len() <= 26,
        ({
            let s = letters_of(shape.len());
            contracted(s + ","@ + s + "->"@ + s, seq![x, y], m)
        }),
        x.shape == shape,
        y.shape == shape,
        m.shape == shape,
        0 <= p < pow2(num_vars(shape)),
    ensures
        m.full(),
        m.table[p] == x.table[p] * y.table[p],
{
    reveal_strlit(",");
    reveal_strlit("->");
    let o = letters_of(shape.len());
    let e = o + ","@ + o + "->"@ + o;
    assert(","@ =~= seq![',']);
    assert("->"@ =~= seq!['-', '>']);
    lemma_two_inputs(e, o, o, o);
    let symbols = seq![o, o];
    let ins = seq![x, y];
    let c = address_of(shape, p);
    lemma_address(shape, p);
    let a = |l: char| c[l as int - 97];
    assert(address(o, a) =~= c);
    assert forall|l: char| occurs(symbols, l) implies #[trigger] o.contains(l) by {
        let i = choose|i: int| 0 <= i < symbols.len() && (#[trigger] symbols[i]).contains(l);
    }
    lemma_none(e, ins, m, symbols, o, a);
    lemma_entry_product(ins, symbols, a);
}

/// A sum or difference of tensors of the same shape, place by place.
pub proof fn lemma_same_combined(x: Tensor, y: Tensor, m: Tensor, difference: bool, p: int)
    requires
        combined(x, y, m, difference),
        x.shape == m.shape,
        y.shape == m.shape,
        0 <= p < pow2(num_vars(m.shape)),
    ensures
        m.full(),
        m.table[p] == if difference {
            x.table[p] - y.table[p]
        } else {
            x.table[p] + y.table[p]
        },
{
    let c = address_of(m.shape, p);
    lemma_address(m.shape, p);
    lemma_aligned(m.shape, c);
}

/// Coordinates are aligned with their own shape.
pub proof fn lemma_aligned(shape: Seq<usize>, c: Seq<int>)
    requires
        addresses(shape, c),
    ensures
        aligned(shape, c) == c,
{
    lemma_padded_one();
    assert(aligned(shape, c) =~= c);
}

/// A sum or difference with a tensor of one entry on the right, place by place.
pub proof fn lemma_right_combined(x: Tensor, y: Tensor, m: Tensor, difference: bool, p: int)
    requires
        combined(x, y, m, difference),
        x.shape == m.shape,
        m.shape.len() >= 1,
        y.shape == seq![1usize],
        0 <= p < pow2(num_vars(m.shape)),
    ensures
        m.full(),
        m.table[p] == if difference {
            x.table[p] - y.table[0]
        } else {
            x.table[p] + y.table[0]
        },
{
    let c = address_of(m.shape, p);
    lemma_address(m.shape, p);
    lemma_aligned(m.shape, c);
    assert(aligned(y.shape, c) =~= seq![0int]);
    lemma_places(y.shape, seq![0int]);
}

/// A difference with a tensor of one entry on the left, place by place.
pub proof fn lemma_left_combined(x: Tensor, y: Tensor, m: Tensor, difference: bool, p: int)
    requires
        combined(x, y, m, difference),
        y.shape == m.shape,
        m.shape.len() >= 1,
        x.shape == seq![1usize],
        0 <= p < pow2(num_vars(m.shape)),
    ensures
        m.full(),
        m.table[p] == if difference {
            x.table[0] - y.table[p]
        } else {
            x.table[0] + y.table[p]
        },
{
    let c = address_of(m.shape, p);
    lemma_address(m.shape, p);
    lemma_aligned(m.shape, c);
    assert(aligned(x.shape, c) =~= seq![0int]);
    lemma_places(x.shape, seq![0int]);
}

} // verus!
