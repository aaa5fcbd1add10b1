//! Einstein summation equations such as `bsi,ij->bsj`.
//!
//! Before the arrow stand the symbols of the dimensions of each input,
//! separated by commas; after it those of the output.
use vstd::prelude::*;

verus! {

/// White space as Unicode has it.
pub open spec fn is_space(c: char) -> bool {
    let x = c as u32;
    ||| 0x09 <= x <= 0x0d
    ||| x == 0x20
    ||| x == 0x85
    ||| x == 0xa0
    ||| x == 0x1680
    ||| 0x2000 <= x <= 0x200a
    ||| x == 0x2028
    ||| x == 0x2029
    ||| x == 0x202f
    ||| x == 0x205f
    ||| x == 0x3000
}

/// An arrow starts at position `k`.
pub open spec fn arrow_at(eq: Seq<char>, k: int) -> bool {
    0 <= k && k + 1 < eq.len() && eq[k] == '-' && eq[k + 1] == '>'
}

/// Position of the first arrow at or after `from`, the length where there is none.
pub open spec fn next_arrow(eq: Seq<char>, from: int) -> int
    decreases eq.len() - from,
{
    if from >= eq.len() {
        eq.len() as int
    } else if arrow_at(eq, from) {
        from
    } else {
        next_arrow(eq, from + 1)
    }
}

/// The part before the first arrow.
pub open spec fn left_side(eq: Seq<char>) -> Seq<char> {
    eq.take(next_arrow(eq, 0))
}

/// The part between the first arrow and the second, or the end.
pub open spec fn right_side(eq: Seq<char>) -> Seq<char> {
    let k = next_arrow(eq, 0);
    eq.subrange(k + 2, next_arrow(eq, k + 2))
}

/// The pieces between commas.
pub open spec fn split_commas(s: Seq<char>) -> Seq<Seq<char>>
    decreases s.len(),
{
    if s.len() == 0 {
        seq![Seq::empty()]
    } else {
        let rest = split_commas(s.drop_last());
        if s.last() == ',' {
            rest.push(Seq::empty())
        } else {
            rest.update(rest.len() - 1, rest.last().push(s.last()))
        }
    }
}

/// Without white space at the end.
pub open spec fn trim_end(s: Seq<char>) -> Seq<char>
    decreases s.len(),
{
    if s.len() > 0 && is_space(s.last()) {
        trim_end(s.drop_last())
    } else {
        s
    }
}

/// Without white space at the start.
pub open spec fn trim_start(s: Seq<char>) -> Seq<char>
    decreases s.len(),
{
    if s.len() > 0 && is_space(s[0]) {
        trim_start(s.drop_first())
    } else {
        s
    }
}

/// Without white space at both ends.
pub open spec fn trim(s: Seq<char>) -> Seq<char> {
    trim_end(trim_start(s))
}

/// The symbols of one input with the dimensions they stand for.
pub open spec fn bind(symbols: Seq<char>, shape: Seq<usize>) -> Seq<(char, usize)> {
    Seq::new(symbols.len(), |j: int| (symbols[j], shape[j]))
}

/// The symbols of the first `k` inputs with the dimensions they stand for.
pub open spec fn bindings(eq: Seq<char>, shapes: Seq<Seq<usize>>, k: nat) -> Seq<(char, usize)>
    decreases k,
{
    if k == 0 {
        Seq::empty()
    } else {
        bindings(eq, shapes, (k - 1) as nat) + bind(
            trim(split_commas(left_side(eq))[k - 1]),
            shapes[k - 1],
        )
    }
}

/// The dimension that a symbol stands for: the last one it was bound to.
pub open spec fn size_of_symbol(b: Seq<(char, usize)>, c: char) -> Option<usize>
    decreases b.len(),
{
    if b.len() == 0 {
        None
    } else if b.last().0 == c {
        Some(b.last().1)
    } else {
        size_of_symbol(b.drop_last(), c)
    }
}

/// Number of inputs that an equation names.
pub open spec fn num_inputs(eq: Seq<char>) -> nat {
    split_commas(left_side(eq)).len()
}

/// The equation has an arrow, names no more inputs and dimensions than there are, and the output
/// uses only symbols of the inputs.
pub open spec fn equation_ok(eq: Seq<char>, shapes: Seq<Seq<usize>>) -> bool {
    &&& next_arrow(eq, 0) < eq.len()
    &&& num_inputs(eq) <= shapes.len()
    &&& forall|i: int|
        0 <= i < num_inputs(eq) ==> trim(#[trigger] split_commas(left_side(eq))[i]).len()
            <= shapes[i].len()
    &&& forall|k: int|
        0 <= k < right_side(eq).len() ==> size_of_symbol(
            bindings(eq, shapes, num_inputs(eq)),
            #[trigger] right_side(eq)[k],
        ) is Some
}

/// The shape of the output.
pub open spec fn output_shape(eq: Seq<char>, shapes: Seq<Seq<usize>>) -> Seq<usize> {
    let b = bindings(eq, shapes, num_inputs(eq));
    Seq::new(right_side(eq).len(), |k: int| size_of_symbol(b, right_side(eq)[k])->0)
}

proof fn lemma_next_arrow(eq: Seq<char>, from: int)
    requires
        0 <= from <= eq.len(),
    ensures
        from <= next_arrow(eq, from) <= eq.len(),
        next_arrow(eq, from) < eq.len() ==> arrow_at(eq, next_arrow(eq, from)),
    decreases eq.len() - from,
{
    if from < eq.len() && !arrow_at(eq, from) {
        lemma_next_arrow(eq, from + 1);
    }
}

fn space(c: char) -> (r: bool)
    ensures
        r == is_space(c),
{
    let x: u32 = c as u32;
    (0x09 <= x && x <= 0x0d) || x == 0x20 || x == 0x85 || x == 0xa0 || x == 0x1680 || (0x2000 <= x
        && x <= 0x200a) || x == 0x2028 || x == 0x2029 || x == 0x202f || x == 0x205f || x == 0x3000
}

fn find_arrow(eq: &Vec<char>, from: usize) -> (r: usize)
    requires
        from <= eq.len(),
    ensures
        r == next_arrow(eq@, from as int),
        from <= r <= eq.len(),
        r < eq.len() ==> arrow_at(eq@, r as int),
{
    let n: usize = eq.len();
    let mut k: usize = from;
    proof {
        lemma_next_arrow(eq@, from as int);
    }
    while k < n
        invariant
            from <= k <= n,
            n == eq.len(),
            next_arrow(eq@, from as int) == next_arrow(eq@, k as int),
        decreases n - k,
    {
        if n - k > 1 && eq[k] == '-' && eq[k + 1] == '>' {
            return k;
        }
        k = k + 1;
    }
    k
}

/// The pieces of the first `end` characters.
fn split_at_commas(eq: &Vec<char>, end: usize) -> (r: Vec<Vec<char>>)
    requires
        end <= eq.len(),
    ensures
        r.len() == split_commas(eq@.take(end as int)).len(),
        forall|i: int| 0 <= i < r.len() ==> (#[trigger] r[i])@ == split_commas(eq@.take(end as int))[i],
{
    let mut r: Vec<Vec<char>> = Vec::new();
    let mut cur: Vec<char> = Vec::new();
    let mut k: usize = 0;
    assert(eq@.take(0) =~= Seq::<char>::empty());
    while k < end
        invariant
            k <= end <= eq.len(),
            r.len() + 1 == split_commas(eq@.take(k as int)).len(),
            forall|i: int|
                0 <= i < r.len() ==> (#[trigger] r[i])@ == split_commas(eq@.take(k as int))[i],
            cur@ == split_commas(eq@.take(k as int)).last(),
        decreases end - k,
    {
        let ghost before = split_commas(eq@.take(k as int));
        proof {
            assert(eq@.take(k as int + 1).drop_last() =~= eq@.take(k as int));
        }
        let c: char = eq[k];
        if c == ',' {
            r.push(cur);
            cur = Vec::new();
            assert(cur@ =~= Seq::<char>::empty());
        } else {
            cur.push(c);
        }
        k = k + 1;
    }
    r.push(cur);
    r
}

/// Without white space at both ends.
fn trimmed(s: &Vec<char>) -> (r: Vec<char>)
    ensures
        r@ == trim(s@),
{
    let mut from: usize = 0;
    assert(s@.skip(0) =~= s@);
    while from < s.len() && space(s[from])
        invariant
            from <= s.len(),
            trim_start(s@) == trim_start(s@.skip(from as int)),
        decreases s.len() - from,
    {
        proof {
            assert(s@.skip(from as int).drop_first() =~= s@.skip(from as int + 1));
            assert(s@.skip(from as int)[0] == s[from as int]);
        }
        from = from + 1;
    }
    let ghost t = s@.skip(from as int);
    proof {
        if from < s.len() {
            assert(t[0] == s[from as int]);
        }
        assert(trim_start(s@) == t);
    }
    let mut to: usize = s.len();
    assert(t =~= s@.subrange(from as int, to as int));
    while to > from && space(s[to - 1])
        invariant
            from <= to <= s.len(),
            trim_end(t) == trim_end(s@.subrange(from as int, to as int)),
        decreases to,
    {
        proof {
            assert(s@.subrange(from as int, to as int).drop_last() =~= s@.subrange(
                from as int,
                to - 1,
            ));
            assert(s@.subrange(from as int, to as int).last() == s[to - 1]);
        }
        to = to - 1;
    }
    let ghost u = s@.subrange(from as int, to as int);
    proof {
        if to > from {
            assert(u.last() == s[to - 1]);
        }
        assert(trim_end(t) == u);
    }
    let mut r: Vec<char> = Vec::new();
    let mut k: usize = from;
    while k < to
        invariant
            from <= k <= to <= s.len(),
            r@ == s@.subrange(from as int, k as int),
        decreases to - k,
    {
        r.push(s[k]);
        k = k + 1;
        assert(r@ =~= s@.subrange(from as int, k as int));
    }
    r
}

/// The shape of the output of an equation.
pub fn einsum_shape(eq: &Vec<char>, shapes: &Vec<Vec<usize>>) -> (r: Vec<usize>)
    requires
        equation_ok(eq@, crate::dag::block::nested(shapes@)),
    ensures
        r@ == output_shape(eq@, crate::dag::block::nested(shapes@)),
{
    let ghost ss = crate::dag::block::nested(shapes@);
    let arrow: usize = find_arrow(eq, 0);
    let groups: Vec<Vec<char>> = split_at_commas(eq, arrow);
    let mut bound: Vec<(char, usize)> = Vec::new();
    let mut i: usize = 0;
    while i < groups.len()
        invariant
            i <= groups.len(),
            ss == crate::dag::block::nested(shapes@),
            equation_ok(eq@, ss),
            groups.len() == num_inputs(eq@),
            forall|k: int|
                0 <= k < groups.len() ==> (#[trigger] groups[k])@ == split_commas(
                    left_side(eq@),
                )[k],
            bound@ == bindings(eq@, ss, i as nat),
        decreases groups.len() - i,
    {
        let symbols: Vec<char> = trimmed(&groups[i]);
        let ghost before = bound@;
        let ghost piece = split_commas(left_side(eq@))[i as int];
        assert(trim(piece).len() <= ss[i as int].len());
        let mut j: usize = 0;
        assert(bound@ =~= before + bind(symbols@, ss[i as int]).take(0));
        while j < symbols.len()
            invariant
                j <= symbols.len(),
                i < shapes.len(),
                symbols.len() <= shapes[i as int].len(),
                ss[i as int] == shapes[i as int]@,
                bound@ == before + bind(symbols@, ss[i as int]).take(j as int),
            decreases symbols.len() - j,
        {
            bound.push((symbols[j], shapes[i][j]));
            j = j + 1;
            assert(bound@ =~= before + bind(symbols@, ss[i as int]).take(j as int));
        }
        assert(bind(symbols@, ss[i as int]).take(j as int) =~= bind(symbols@, ss[i as int]));
        i = i + 1;
    }
    let from: usize = arrow + 2;
    let to: usize = find_arrow(eq, from);
    let ghost rhs = right_side(eq@);
    let ghost target = output_shape(eq@, ss);
    let mut r: Vec<usize> = Vec::new();
    let mut k: usize = from;
    while k < to
        invariant
            from <= k <= to <= eq.len(),
            rhs == eq@.subrange(from as int, to as int),
            rhs == right_side(eq@),
            equation_ok(eq@, ss),
            bound@ == bindings(eq@, ss, num_inputs(eq@)),
            target == output_shape(eq@, ss),
            r@ == target.take(k - from),
        decreases to - k,
    {
        assert(rhs[k - from] == eq[k as int]);
        let size: Option<usize> = lookup_symbol(&bound, eq[k]);
        match size {
            Some(d) => {
                r.push(d);
            },
            None => {},
        }
        k = k + 1;
        assert(r@ =~= target.take(k - from));
    }
    assert(target.take(k - from) =~= target);
    r
}

fn lookup_symbol(bound: &Vec<(char, usize)>, c: char) -> (r: Option<usize>)
    ensures
        r == size_of_symbol(bound@, c),
{
    let mut i: usize = bound.len();
    assert(bound@.take(i as int) =~= bound@);
    while i > 0
        invariant
            i <= bound.len(),
            size_of_symbol(bound@, c) == size_of_symbol(bound@.take(i as int), c),
        decreases i,
    {
        proof {
            assert(bound@.take(i as int).drop_last() =~= bound@.take(i - 1));
            assert(bound@.take(i as int).last() == bound[i - 1]);
        }
        i = i - 1;
        if bound[i].0 == c {
            return Some(bound[i].1);
        }
    }
    None
}

} // verus!
