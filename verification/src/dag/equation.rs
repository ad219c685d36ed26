//! Equations over tensor dimensions, such as `"ij,jk->ik"`.
use vstd::prelude::*;
use vstd::string::{StrSliceExecFns, StringExecFns};

verus! {

/// The characters with the Unicode property `White_Space`.
pub open spec fn white(c: char) -> bool {
    let k = c as int;
    ||| 0x9 <= k <= 0xd
    ||| k == 0x20
    ||| k == 0x85
    ||| k == 0xa0
    ||| k == 0x1680
    ||| 0x2000 <= k <= 0x200a
    ||| k == 0x2028
    ||| k == 0x2029
    ||| k == 0x202f
    ||| k == 0x205f
    ||| k == 0x3000
}

/// Whether a character has the Unicode property `White_Space`.
fn char_is_white(c: char) -> (r: bool)
    ensures
        r == white(c),
{
    let k = c as u32;
    (0x9 <= k && k <= 0xd) || k == 0x20 || k == 0x85 || k == 0xa0 || k == 0x1680 || (0x2000 <= k
        && k <= 0x200a) || k == 0x2028 || k == 0x2029 || k == 0x202f || k == 0x205f || k == 0x3000
}

/// `String::push`: appends a character to a string.
#[verifier::external_body]
fn string_push(s: &mut String, c: char)
    ensures
        final(s)@ == old(s)@.push(c),
{
    s.push(c)
}

/// The first `a` letters from `'a'` on.
pub open spec fn letters_of(a: nat) -> Seq<char> {
    Seq::new(a, |i: int| (97 + i) as char)
}

/// The first `a` letters from `'a'` on.
pub fn letters(a: usize) -> (r: String)
    requires
        a <= 159,
    ensures
        r@ == letters_of(a as nat),
{
    let mut r = String::new();
    let mut i: usize = 0;
    while i < a
        invariant
            i <= a <= 159,
            r@ == letters_of(i as nat),
        decreases a - i,
    {
        let c = (97u8 + i as u8) as char;
        string_push(&mut r, c);
        assert(r@ =~= letters_of((i + 1) as nat));
        i += 1;
    }
    r
}

/// The first place at or after `from` where an arrow begins; the end where there is none.
pub open spec fn first_arrow(s: Seq<char>, from: int) -> int
    decreases s.len() - from,
{
    if from + 1 >= s.len() {
        s.len() as int
    } else if s[from] == '-' && s[from + 1] == '>' {
        from
    } else {
        first_arrow(s, from + 1)
    }
}

/// The first place at or after `from` that holds a comma; the end where there is none.
pub open spec fn first_comma(s: Seq<char>, from: int) -> int
    decreases s.len() - from,
{
    if from >= s.len() {
        s.len() as int
    } else if s[from] == ',' {
        from
    } else {
        first_comma(s, from + 1)
    }
}

proof fn lemma_first_comma(s: Seq<char>, from: int)
    requires
        0 <= from <= s.len(),
    ensures
        from <= first_comma(s, from) <= s.len(),
    decreases s.len() - from,
{
    if from < s.len() && s[from] != ',' {
        lemma_first_comma(s, from + 1);
    }
}

proof fn lemma_first_arrow(s: Seq<char>, from: int)
    requires
        0 <= from <= s.len(),
    ensures
        from <= first_arrow(s, from) <= s.len(),
        first_arrow(s, from) < s.len() ==> first_arrow(s, from) + 2 <= s.len(),
    decreases s.len() - from,
{
    if from + 1 < s.len() && !(s[from] == '-' && s[from + 1] == '>') {
        lemma_first_arrow(s, from + 1);
    }
}

/// The characters without the white space at either end.
pub open spec fn trimmed(s: Seq<char>) -> Seq<char>
    decreases s.len(),
{
    if s.len() == 0 {
        s
    } else if white(s[0]) {
        trimmed(s.skip(1))
    } else if white(s.last()) {
        trimmed(s.drop_last())
    } else {
        s
    }
}

/// The parts between commas, each without the white space at its ends.
pub open spec fn symbols_of(s: Seq<char>) -> Seq<Seq<char>>
    decreases s.len(),
{
    let c = first_comma(s, 0);
    let first = trimmed(s.take(c));
    if 0 <= c < s.len() {
        seq![first] + symbols_of(s.skip(c + 1))
    } else {
        seq![first]
    }
}

/// The symbols of the inputs.
pub open spec fn input_symbols(equation: Seq<char>) -> Seq<Seq<char>> {
    symbols_of(equation.take(first_arrow(equation, 0)))
}

/// The symbols of the output.
pub open spec fn output_symbols(equation: Seq<char>) -> Seq<char> {
    let a = first_arrow(equation, 0);
    equation.subrange(a + 2, first_arrow(equation, a + 2))
}

/// Every symbol of the inputs with the dimension that it stands for, in order.
pub open spec fn symbol_dims(symbols: Seq<Seq<char>>, shapes: Seq<Seq<usize>>) -> Seq<(char, usize)>
    decreases symbols.len(),
{
    if symbols.len() == 0 {
        seq![]
    } else {
        let i = symbols.len() - 1;
        symbol_dims(symbols.drop_last(), shapes) + Seq::new(
            symbols[i].len(),
            |j: int| (symbols[i][j], shapes[i][j]),
        )
    }
}

/// The dimension of a symbol: that of its last occurrence.
pub open spec fn dim_of(pairs: Seq<(char, usize)>, c: char) -> Option<usize>
    decreases pairs.len(),
{
    if pairs.len() == 0 {
        None
    } else if pairs.last().0 == c {
        Some(pairs.last().1)
    } else {
        dim_of(pairs.drop_last(), c)
    }
}

/// The equation has an arrow, a shape with enough dimensions for each input that it names, and a
/// dimension for each symbol of the output.
pub open spec fn equation_ok(equation: Seq<char>, shapes: Seq<Seq<usize>>) -> bool {
    let symbols = input_symbols(equation);
    &&& first_arrow(equation, 0) < equation.len()
    &&& symbols.len() <= shapes.len()
    &&& forall|i: int|
        0 <= i < symbols.len() ==> (#[trigger] symbols[i]).len() <= shapes[i].len()
    &&& forall|k: int|
        0 <= k < output_symbols(equation).len() ==> dim_of(
            symbol_dims(symbols, shapes),
            #[trigger] output_symbols(equation)[k],
        ) is Some
}

/// The shape of the output.
pub open spec fn equation_shape(equation: Seq<char>, shapes: Seq<Seq<usize>>) -> Seq<usize> {
    let pairs = symbol_dims(input_symbols(equation), shapes);
    output_symbols(equation).map_values(|c: char| dim_of(pairs, c)->0)
}

/// The characters of a string.
fn chars_of(s: &str) -> (r: Vec<char>)
    ensures
        r@ == s@,
{
    let n = s.unicode_len();
    let mut r: Vec<char> = Vec::with_capacity(n);
    let mut i: usize = 0;
    while i < n
        invariant
            i <= n,
            n == s@.len(),
            r@ == s@.take(i as int),
        decreases n - i,
    {
        r.push(s.get_char(i));
        i += 1;
    }
    assert(r@ =~= s@);
    r
}

fn find_arrow(s: &Vec<char>, from: usize) -> (r: usize)
    requires
        from <= s@.len(),
    ensures
        r == first_arrow(s@, from as int),
{
    let mut i = from;
    assert(s.len() == s@.len());
    while i < s.len() && i + 1 < s.len()
        invariant
            from <= i <= s@.len(),
            s.len() == s@.len(),
            first_arrow(s@, from as int) == first_arrow(s@, i as int),
        decreases s.len() - i,
    {
        if s[i] == '-' && s[i + 1] == '>' {
            return i;
        }
        i += 1;
    }
    s.len()
}

/// The characters of a part that are left without the white space at either end.
fn trim_bounds(s: &Vec<char>, from: usize, to: usize) -> (r: (usize, usize))
    requires
        from <= to <= s@.len(),
    ensures
        from <= r.0 <= r.1 <= to,
        trimmed(s@.subrange(from as int, to as int)) == s@.subrange(r.0 as int, r.1 as int),
{
    let ghost part = trimmed(s@.subrange(from as int, to as int));
    let (mut a, mut b) = (from, to);
    while a < b && char_is_white(s[a])
        invariant
            from <= a <= b <= to <= s@.len(),
            part == trimmed(s@.subrange(a as int, b as int)),
        ensures
            part == trimmed(s@.subrange(a as int, b as int)),
            from <= a <= b <= to <= s@.len(),
            a < b ==> !white(s@[a as int]),
        decreases b - a,
    {
        assert(s@.subrange(a as int, b as int).skip(1) =~= s@.subrange(a + 1, b as int));
        a += 1;
    }
    while a < b && char_is_white(s[b - 1])
        invariant
            from <= a <= b <= to <= s@.len(),
            a < b ==> !white(s@[a as int]),
            part == trimmed(s@.subrange(a as int, b as int)),
        ensures
            part == trimmed(s@.subrange(a as int, b as int)),
            from <= a <= b <= to <= s@.len(),
            a < b ==> !white(s@[a as int]) && !white(s@[b - 1]),
        decreases b - a,
    {
        assert(s@.subrange(a as int, b as int).drop_last() =~= s@.subrange(a as int, b - 1));
        b -= 1;
    }
    assert(part =~= s@.subrange(a as int, b as int));
    (a, b)
}

/// Adds the pairs of symbols and dimensions of one input.
fn push_pairs(
    s: &Vec<char>,
    from: usize,
    to: usize,
    shape: &[usize],
    pairs: &mut Vec<(char, usize)>,
)
    requires
        from <= to <= s@.len(),
        to - from <= shape@.len(),
    ensures
        final(pairs)@ == old(pairs)@ + Seq::new(
            (to - from) as nat,
            |j: int| (s@.subrange(from as int, to as int)[j], shape@[j]),
        ),
{
    let ghost part = s@.subrange(from as int, to as int);
    let ghost before = pairs@;
    let mut j: usize = 0;
    while j < to - from
        invariant
            j <= to - from,
            from <= to <= s@.len(),
            part == s@.subrange(from as int, to as int),
            to - from <= shape@.len(),
            pairs@ == before + Seq::new(j as nat, |j: int| (part[j], shape@[j])),
        decreases to - from - j,
    {
        pairs.push((s[from + j], shape[j]));
        assert(pairs@ =~= before + Seq::new((j + 1) as nat, |j: int| (part[j], shape@[j])));
        j += 1;
    }
}

/// The symbols of a text, one part more than commas.
proof fn lemma_symbols_step(s: Seq<char>)
    ensures
        symbols_of(s).len() >= 1,
        first_comma(s, 0) < s.len() ==> symbols_of(s).skip(1) == symbols_of(
            s.skip(first_comma(s, 0) + 1),
        ) && symbols_of(s)[0] == trimmed(s.take(first_comma(s, 0))),
        first_comma(s, 0) >= s.len() ==> symbols_of(s) == seq![trimmed(s.take(first_comma(s, 0)))],
{
    lemma_first_comma(s, 0);
    let c = first_comma(s, 0);
    if c < s.len() {
        assert(symbols_of(s).skip(1) =~= symbols_of(s.skip(c + 1)));
    }
}

proof fn lemma_comma_shift(s: Seq<char>, k: int, from: int)
    requires
        0 <= k <= from <= s.len(),
    ensures
        first_comma(s, from) == first_comma(s.skip(k), from - k) + k,
    decreases s.len() - from,
{
    if from < s.len() {
        assert(s.skip(k)[from - k] == s[from]);
        if s[from] != ',' {
            lemma_comma_shift(s, k, from + 1);
        }
    }
}

/// The shape of the output of an equation, where there is one.
pub fn output_shape(equation: &str, shapes: &Vec<Vec<usize>>) -> (r: Option<Vec<usize>>)
    ensures
        r is Some <==> equation_ok(equation@, shapes_view(shapes@)),
        r matches Some(v) ==> v@ == equation_shape(equation@, shapes_view(shapes@)),
{
    let chars = chars_of(equation);
    let ghost e = equation@;
    let ghost dims = shapes_view(shapes@);
    let arrow = find_arrow(&chars, 0);
    proof {
        lemma_first_arrow(e, 0);
    }
    if arrow >= chars.len() {
        return None;
    }
    let ghost text = e.take(arrow as int);
    let ghost symbols = symbols_of(text);
    let mut pairs: Vec<(char, usize)> = Vec::new();
    let mut i: usize = 0;
    let mut from: usize = 0;
    let mut more = true;
    proof {
        assert(text.skip(0) =~= text);
        assert(symbols.take(0) =~= Seq::<Seq<char>>::empty());
        assert(symbols.skip(0) =~= symbols);
    }
    while more
        invariant
            chars@ == e,
            arrow < chars@.len(),
            text == e.take(arrow as int),
            symbols == symbols_of(text),
            e == equation@,
            arrow == first_arrow(e, 0),
            dims == shapes_view(shapes@),
            from <= arrow,
            i <= symbols.len(),
            i <= dims.len(),
            more ==> symbols.skip(i as int) == symbols_of(text.skip(from as int)) && i
                < symbols.len(),
            !more ==> i == symbols.len(),
            forall|k: int| 0 <= k < i ==> (#[trigger] symbols[k]).len() <= dims[k].len(),
            pairs@ == symbol_dims(symbols.take(i as int), dims),
        decreases (if more {
            arrow - from + 1
        } else {
            0
        }),
    {
        let mut end = from;
        while end < arrow && chars[end] != ','
            invariant
                from <= end <= arrow < chars@.len(),
                chars@ == e,
                text == e.take(arrow as int),
                first_comma(text, from as int) == first_comma(text, end as int),
            decreases arrow - end,
        {
            end += 1;
        }
        proof {
            let rest = text.skip(from as int);
            lemma_comma_shift(text, from as int, from as int);
            assert(first_comma(text, end as int) == end);
            lemma_symbols_step(rest);
            assert(rest.take(end - from) =~= e.subrange(from as int, end as int));
            assert(symbols[i as int] == symbols.skip(i as int)[0]);
        }
        if i >= shapes.len() {
            assert(symbols.len() > dims.len());
            return None;
        }
        let (first, past) = trim_bounds(&chars, from, end);
        assert(dims[i as int] == shapes@[i as int]@);
        if past - first > shapes[i].len() {
            assert(symbols[i as int].len() > dims[i as int].len());
            return None;
        }
        push_pairs(&chars, first, past, shapes[i].as_slice(), &mut pairs);
        proof {
            let longer = symbols.take(i + 1);
            assert(longer.drop_last() =~= symbols.take(i as int));
            assert(longer[i as int] == symbols[i as int]);
            assert(pairs@ =~= symbol_dims(longer, dims));
        }
        i += 1;
        if end < arrow {
            proof {
                let rest = text.skip(from as int);
                assert(rest.skip(end - from + 1) =~= text.skip(end + 1));
                assert(symbols.skip(i as int) =~= symbols.skip(i - 1).skip(1));
                lemma_symbols_step(text.skip(end + 1));
                assert(symbols.skip(i as int).len() >= 1);
            }
            from = end + 1;
        } else {
            proof {
                assert(symbols.skip(i - 1).len() == 1);
            }
            more = false;
        }
    }
    assert(symbols.take(i as int) =~= symbols);
    let stop = find_arrow(&chars, arrow + 2);
    proof {
        lemma_first_arrow(e, arrow + 2);
    }
    let ghost outs = output_symbols(e);
    let mut shape: Vec<usize> = Vec::new();
    let mut k = arrow + 2;
    while k < stop
        invariant
            arrow + 2 <= k <= stop <= chars@.len(),
            chars@ == e,
            outs == e.subrange(arrow + 2, stop as int),
            outs == output_symbols(e),
            e == equation@,
            arrow == first_arrow(e, 0),
            dims == shapes_view(shapes@),
            pairs@ == symbol_dims(input_symbols(e), dims),
            forall|j: int|
                0 <= j < k - arrow - 2 ==> dim_of(pairs@, #[trigger] outs[j]) is Some,
            shape@ == equation_shape(e, dims).take(k - arrow - 2),
        decreases stop - k,
    {
        let found = lookup(&pairs, chars[k]);
        assert(outs[k - arrow - 2] == e[k as int]);
        match found {
            None => {
                return None;
            },
            Some(d) => {
                shape.push(d);
                assert(shape@ =~= equation_shape(e, dims).take(k + 1 - arrow - 2));
            },
        }
        k += 1;
    }
    assert(equation_shape(e, dims).take(outs.len() as int) =~= equation_shape(e, dims));
    Some(shape)
}

/// The shapes as sequences.
pub open spec fn shapes_view(shapes: Seq<Vec<usize>>) -> Seq<Seq<usize>> {
    shapes.map_values(|s: Vec<usize>| s@)
}

/// The dimension of a symbol.
fn lookup(pairs: &Vec<(char, usize)>, c: char) -> (r: Option<usize>)
    ensures
        r == dim_of(pairs@, c),
{
    let mut i: usize = pairs.len();
    assert(pairs@.take(pairs@.len() as int) =~= pairs@);
    while i > 0
        invariant
            i <= pairs@.len(),
            dim_of(pairs@, c) == dim_of(pairs@.take(i as int), c),
        decreases i,
    {
        let ghost part = pairs@.take(i as int);
        assert(part.drop_last() =~= pairs@.take(i - 1));
        assert(part.last() == pairs@[i - 1]);
        i -= 1;
        if pairs[i].0 == c {
            return Some(pairs[i].1);
        }
    }
    None
}

/// A small Latin letter.
pub open spec fn is_letter(c: char) -> bool {
    97 <= c as int <= 122
}

pub open spec fn all_letters(s: Seq<char>) -> bool {
    forall|i: int| 0 <= i < s.len() ==> is_letter(#[trigger] s[i])
}

proof fn lemma_letters_trimmed(s: Seq<char>)
    requires
        all_letters(s),
    ensures
        trimmed(s) == s,
{
    if s.len() > 0 {
        assert(is_letter(s[0]) && is_letter(s[s.len() - 1]));
    }
}

proof fn lemma_no_arrow_before(s: Seq<char>, from: int, at: int)
    requires
        0 <= from <= at,
        at + 1 < s.len(),
        s[at] == '-' && s[at + 1] == '>',
        forall|i: int| from <= i < at ==> #[trigger] s[i] != '-',
    ensures
        first_arrow(s, from) == at,
    decreases at - from,
{
    if from < at {
        lemma_no_arrow_before(s, from + 1, at);
    }
}

proof fn lemma_no_arrow(s: Seq<char>, from: int)
    requires
        0 <= from <= s.len(),
        forall|i: int| from <= i < s.len() ==> #[trigger] s[i] != '-',
    ensures
        first_arrow(s, from) == s.len(),
    decreases s.len() - from,
{
    if from + 1 < s.len() {
        lemma_no_arrow(s, from + 1);
    }
}

proof fn lemma_comma_at(s: Seq<char>, from: int, at: int)
    requires
        0 <= from <= at <= s.len(),
        at < s.len() ==> s[at] == ',',
        forall|i: int| from <= i < at ==> #[trigger] s[i] != ',',
    ensures
        first_comma(s, from) == at,
    decreases at - from,
{
    if from < at {
        lemma_comma_at(s, from + 1, at);
    }
}

/// The symbols of an equation with one input.
pub proof fn lemma_one_input(e: Seq<char>, a: Seq<char>, out: Seq<char>)
    requires
        all_letters(a),
        all_letters(out),
        e == a + seq!['-', '>'] + out,
    ensures
        first_arrow(e, 0) < e.len(),
        input_symbols(e) == seq![a],
        output_symbols(e) == out,
{
    let n = a.len() as int;
    assert forall|i: int| 0 <= i < n implies #[trigger] e[i] != '-' by {
        assert(e[i] == a[i] && is_letter(a[i]));
    }
    assert(e[n] == '-' && e[n + 1] == '>');
    lemma_no_arrow_before(e, 0, n);
    assert forall|i: int| n + 2 <= i < e.len() implies #[trigger] e[i] != '-' by {
        assert(e[i] == out[i - n - 2] && is_letter(out[i - n - 2]));
    }
    lemma_no_arrow(e, n + 2);
    assert(output_symbols(e) =~= out);
    let text = e.take(n);
    assert(text =~= a);
    assert forall|i: int| 0 <= i < n implies #[trigger] text[i] != ',' by {
        assert(is_letter(a[i]));
    }
    lemma_comma_at(text, 0, n);
    assert(text.take(n) =~= a);
    lemma_letters_trimmed(a);
    assert(input_symbols(e) =~= seq![a]);
}

/// The symbols of an equation with two inputs.
pub proof fn lemma_two_inputs(e: Seq<char>, a: Seq<char>, b: Seq<char>, out: Seq<char>)
    requires
        all_letters(a),
        all_letters(b),
        all_letters(out),
        e == a + seq![','] + b + seq!['-', '>'] + out,
    ensures
        first_arrow(e, 0) < e.len(),
        input_symbols(e) == seq![a, b],
        output_symbols(e) == out,
{
    let m = a.len() as int;
    let n = m + 1 + b.len();
    assert forall|i: int| 0 <= i < n implies #[trigger] e[i] != '-' by {
        if i < m {
            assert(e[i] == a[i] && is_letter(a[i]));
        } else if i > m {
            assert(e[i] == b[i - m - 1] && is_letter(b[i - m - 1]));
        }
    }
    assert(e[n] == '-' && e[n + 1] == '>');
    lemma_no_arrow_before(e, 0, n);
    assert forall|i: int| n + 2 <= i < e.len() implies #[trigger] e[i] != '-' by {
        assert(e[i] == out[i - n - 2] && is_letter(out[i - n - 2]));
    }
    lemma_no_arrow(e, n + 2);
    assert(output_symbols(e) =~= out);
    let text = e.take(n);
    assert forall|i: int| 0 <= i < m implies #[trigger] text[i] != ',' by {
        assert(text[i] == a[i] && is_letter(a[i]));
    }
    assert(text[m] == ',');
    lemma_comma_at(text, 0, m);
    assert(text.take(m) =~= a);
    let rest = text.skip(m + 1);
    assert(rest =~= b);
    assert forall|i: int| 0 <= i < b.len() implies #[trigger] rest[i] != ',' by {
        assert(is_letter(b[i]));
    }
    lemma_comma_at(rest, 0, b.len() as int);
    assert(rest.take(b.len() as int) =~= b);
    lemma_letters_trimmed(a);
    lemma_letters_trimmed(b);
    assert(symbols_of(rest) =~= seq![b]);
    assert(input_symbols(e) =~= seq![a, b]);
}

/// The symbols of a text with their dimensions.
pub open spec fn with_dims(a: Seq<char>, shape: Seq<usize>) -> Seq<(char, usize)> {
    Seq::new(a.len(), |j: int| (a[j], shape[j]))
}

/// The dimensions of one input or two.
pub proof fn lemma_symbol_dims(a: Seq<char>, b: Seq<char>, s: Seq<usize>, t: Seq<usize>)
    ensures
        symbol_dims(seq![a], seq![s]) == with_dims(a, s),
        symbol_dims(seq![a, b], seq![s, t]) == with_dims(a, s) + with_dims(b, t),
{
    let one = seq![a];
    let two = seq![a, b];
    assert(symbol_dims(one.drop_last(), seq![s]) =~= seq![]);
    assert(symbol_dims(one, seq![s]) =~= with_dims(a, s));
    assert(two.drop_last() =~= one);
    assert(symbol_dims(one.drop_last(), seq![s, t]) =~= seq![]);
    assert(symbol_dims(one, seq![s, t]) =~= with_dims(a, s));
    assert(symbol_dims(two, seq![s, t]) =~= with_dims(a, s) + with_dims(b, t));
}

/// The dimension of a symbol is that of its last occurrence.
pub proof fn lemma_dim_at(pairs: Seq<(char, usize)>, k: int)
    requires
        0 <= k < pairs.len(),
        forall|j: int| k < j < pairs.len() ==> (#[trigger] pairs[j]).0 != pairs[k].0,
    ensures
        dim_of(pairs, pairs[k].0) == Some(pairs[k].1),
    decreases pairs.len() - k,
{
    if k < pairs.len() - 1 {
        assert(pairs[pairs.len() - 1].0 != pairs[k].0);
        let rest = pairs.drop_last();
        assert(rest[k] == pairs[k]);
        assert forall|j: int| k < j < rest.len() implies (#[trigger] rest[j]).0 != rest[k].0 by {
            assert(rest[j] == pairs[j]);
        }
        lemma_dim_at(rest, k);
    }
}

} // verus!
