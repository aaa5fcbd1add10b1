//! Lines, fields and numbers in text.
use vstd::prelude::*;

verus! {

/// The values of a list of texts.
pub open spec fn texts(v: Seq<Vec<char>>) -> Seq<Seq<char>> {
    v.map_values(|t: Vec<char>| t@)
}

/// The parts of a text between separators. There is always one more part than separators.
pub open spec fn pieces(t: Seq<char>, sep: char) -> Seq<Seq<char>>
    decreases t.len(),
{
    if t.len() == 0 {
        seq![Seq::empty()]
    } else {
        let p = pieces(t.drop_last(), sep);
        if t.last() == sep {
            p.push(Seq::empty())
        } else {
            p.drop_last().push(p.last().push(t.last()))
        }
    }
}

/// The parts of a text between separators.
pub fn split(t: &[char], sep: char) -> (r: Vec<Vec<char>>)
    ensures
        texts(r@) == pieces(t@, sep),
        r.len() > 0,
{
    let mut done: Vec<Vec<char>> = Vec::new();
    let mut cur: Vec<char> = Vec::new();
    let mut i: usize = 0;
    assert(texts(done@).push(cur@) =~= pieces(t@.take(0), sep));
    while i < t.len()
        invariant
            i <= t.len(),
            texts(done@).push(cur@) == pieces(t@.take(i as int), sep),
        decreases t.len() - i,
    {
        let c: char = t[i];
        let ghost before = texts(done@).push(cur@);
        assert(t@.take(i as int + 1).drop_last() =~= t@.take(i as int));
        if c == sep {
            done.push(cur);
            cur = Vec::new();
            assert(texts(done@).push(cur@) =~= before.push(Seq::empty()));
        } else {
            cur.push(c);
            assert(texts(done@).push(cur@) =~= before.drop_last().push(before.last().push(c)));
        }
        i = i + 1;
    }
    assert(t@.take(i as int) =~= t@);
    let ghost before = texts(done@).push(cur@);
    done.push(cur);
    assert(texts(done@) =~= before);
    done
}

/// A text without a carriage return at its end.
pub open spec fn without_return(t: Seq<char>) -> Seq<char> {
    if t.len() > 0 && t.last() == '\r' {
        t.drop_last()
    } else {
        t
    }
}

/// The lines of a text. A line feed, with or without a carriage return in front of it, ends a line;
/// what follows the last line feed is a line where it is not empty.
pub open spec fn line_list(t: Seq<char>) -> Seq<Seq<char>> {
    let p = pieces(t, '\n');
    let whole = p.drop_last().map_values(|l: Seq<char>| without_return(l));
    if p.last().len() == 0 {
        whole
    } else {
        whole.push(p.last())
    }
}

/// The lines of a text.
pub fn lines(t: &[char]) -> (r: Vec<Vec<char>>)
    ensures
        texts(r@) == line_list(t@),
{
    let mut p: Vec<Vec<char>> = split(t, '\n');
    let ghost all = texts(p@);
    let last: Vec<char> = p.remove(p.len() - 1);
    assert(texts(p@) =~= all.drop_last());
    assert(last@ == all.last());
    let ghost whole = all.drop_last().map_values(|l: Seq<char>| without_return(l));
    let mut r: Vec<Vec<char>> = Vec::new();
    let mut i: usize = 0;
    while i < p.len()
        invariant
            i <= p.len(),
            texts(p@) == all.drop_last(),
            whole == all.drop_last().map_values(|l: Seq<char>| without_return(l)),
            texts(r@) == whole.take(i as int),
        decreases p.len() - i,
    {
        let ghost before = texts(r@);
        assert(texts(p@)[i as int] == p[i as int]@);
        let line: Vec<char> = if p[i].len() > 0 && p[i][p[i].len() - 1] == '\r' {
            copy_text(&p[i], 0, p[i].len() - 1)
        } else {
            copy_text(&p[i], 0, p[i].len())
        };
        assert(line@ =~= without_return(p[i as int]@));
        r.push(line);
        assert(texts(r@) =~= before.push(line@));
        i = i + 1;
        assert(texts(r@) =~= whole.take(i as int));
    }
    assert(texts(r@) =~= whole);
    if last.len() > 0 {
        r.push(last);
        assert(texts(r@) =~= whole.push(last@));
    }
    r
}

/// A part of a text.
pub fn copy_text(t: &[char], from: usize, to: usize) -> (r: Vec<char>)
    requires
        from <= to <= t.len(),
    ensures
        r@ == t@.subrange(from as int, to as int),
{
    let mut r: Vec<char> = Vec::new();
    let mut i: usize = from;
    while i < to
        invariant
            from <= i <= to <= t.len(),
            r@ == t@.subrange(from as int, i as int),
        decreases to - i,
    {
        r.push(t[i]);
        i = i + 1;
        assert(r@ =~= t@.subrange(from as int, i as int));
    }
    r
}

/// The text begins with a key.
pub open spec fn begins(t: Seq<char>, key: Seq<char>) -> bool {
    key.len() <= t.len() && t.take(key.len() as int) == key
}

/// Whether a text begins with a key.
pub fn starts_with(t: &[char], key: &[char]) -> (r: bool)
    ensures
        r == begins(t@, key@),
{
    if key.len() > t.len() {
        return false;
    }
    let mut i: usize = 0;
    while i < key.len()
        invariant
            i <= key.len() <= t.len(),
            forall|j: int| 0 <= j < i ==> t[j] == #[trigger] key[j],
        decreases key.len() - i,
    {
        if t[i] != key[i] {
            assert(t@.take(key.len() as int)[i as int] != key[i as int]);
            return false;
        }
        i = i + 1;
    }
    assert(t@.take(key.len() as int) =~= key@);
    true
}

/// White space, as Unicode has it.
pub open spec fn white(c: char) -> bool {
    let v = c as u32;
    9 <= v <= 13 || v == 0x20 || v == 0x85 || v == 0xA0 || v == 0x1680 || 0x2000 <= v <= 0x200A || v == 0x2028
        || v == 0x2029 || v == 0x202F || v == 0x205F || v == 0x3000
}

/// Whether a character is white space.
pub fn is_white(c: char) -> (r: bool)
    ensures
        r == white(c),
{
    let v: u32 = c as u32;
    (9 <= v && v <= 13) || v == 0x20 || v == 0x85 || v == 0xA0 || v == 0x1680 || (0x2000 <= v && v <= 0x200A)
        || v == 0x2028 || v == 0x2029 || v == 0x202F || v == 0x205F || v == 0x3000
}

/// The runs of characters other than white space.
pub open spec fn word_list(t: Seq<char>) -> Seq<Seq<char>>
    decreases t.len(),
{
    if t.len() == 0 {
        Seq::empty()
    } else {
        let rest = t.drop_last();
        let p = word_list(rest);
        if white(t.last()) {
            p
        } else if rest.len() == 0 || white(rest.last()) {
            p.push(seq![t.last()])
        } else {
            p.drop_last().push(p.last().push(t.last()))
        }
    }
}

/// The runs of characters other than white space.
pub fn words(t: &[char]) -> (r: Vec<Vec<char>>)
    ensures
        texts(r@) == word_list(t@),
{
    let mut done: Vec<Vec<char>> = Vec::new();
    let mut cur: Vec<char> = Vec::new();
    let mut i: usize = 0;
    assert(texts(done@) =~= word_list(t@.take(0)));
    while i < t.len()
        invariant
            i <= t.len(),
            cur.len() > 0 <==> i > 0 && !white(t[i - 1]),
            word_list(t@.take(i as int)) == if cur.len() > 0 {
                texts(done@).push(cur@)
            } else {
                texts(done@)
            },
        decreases t.len() - i,
    {
        let c: char = t[i];
        let ghost before = word_list(t@.take(i as int));
        let ghost old_cur = cur@;
        assert(t@.take(i as int + 1).drop_last() =~= t@.take(i as int));
        assert(i > 0 ==> t@.take(i as int).last() == t[i - 1]);
        if is_white(c) {
            if cur.len() > 0 {
                done.push(cur);
                cur = Vec::new();
                assert(texts(done@) =~= before);
            }
        } else {
            cur.push(c);
            proof {
                if old_cur.len() == 0 {
                    assert(cur@ =~= seq![c]);
                    assert(texts(done@).push(cur@) =~= before.push(seq![c]));
                } else {
                    assert(texts(done@).push(cur@) =~= before.drop_last().push(before.last().push(c)));
                }
            }
        }
        i = i + 1;
    }
    assert(t@.take(i as int) =~= t@);
    if cur.len() > 0 {
        let ghost before = texts(done@).push(cur@);
        done.push(cur);
        assert(texts(done@) =~= before);
    }
    done
}

/// A decimal digit.
pub open spec fn digit(c: char) -> bool {
    '0' <= c <= '9'
}

/// Nothing but digits, and at least one.
pub open spec fn all_digits(t: Seq<char>) -> bool {
    t.len() > 0 && forall|i: int| 0 <= i < t.len() ==> digit(#[trigger] t[i])
}

/// The number that digits write.
pub open spec fn decimal(t: Seq<char>) -> nat
    decreases t.len(),
{
    if t.len() == 0 {
        0
    } else {
        decimal(t.drop_last()) * 10 + (t.last() as u32 - '0' as u32) as nat
    }
}

/// The digits behind an optional sign.
pub open spec fn unsigned_part(t: Seq<char>, signed: bool) -> Seq<char> {
    if t.len() > 0 && (t[0] == '+' || (signed && t[0] == '-')) {
        t.skip(1)
    } else {
        t
    }
}

/// The number that a text writes: digits, with a plus in front where there is one; up to `max`.
pub open spec fn number(t: Seq<char>, max: nat) -> Option<nat> {
    let d = unsigned_part(t, false);
    if all_digits(d) && decimal(d) <= max {
        Some(decimal(d))
    } else {
        None
    }
}

/// The signed number that a text writes, if it fits in 32 bits.
pub open spec fn signed_number(t: Seq<char>) -> Option<int> {
    let d = unsigned_part(t, true);
    let v = if t.len() > 0 && t[0] == '-' {
        -decimal(d)
    } else {
        decimal(d) as int
    };
    if all_digits(d) && i32::MIN <= v <= i32::MAX {
        Some(v)
    } else {
        None
    }
}

/// Leading digits do not make a number smaller.
proof fn lemma_decimal_prefix(t: Seq<char>, i: int)
    requires
        0 <= i <= t.len(),
        forall|k: int| 0 <= k < t.len() ==> digit(#[trigger] t[k]),
    ensures
        decimal(t.take(i)) <= decimal(t),
    decreases t.len() - i,
{
    if i < t.len() {
        lemma_decimal_prefix(t, i + 1);
        assert(t.take(i + 1).drop_last() =~= t.take(i));
    } else {
        assert(t.take(i) =~= t);
    }
}

/// Reads the digits of a text from a position on. `None` where there are none, where something else
/// stands among them, or where the number is above `max`.
fn read_digits(t: &[char], from: usize, max: u64) -> (r: Option<u64>)
    requires
        from <= t.len(),
    ensures
        r is Some <==> all_digits(t@.skip(from as int)) && decimal(t@.skip(from as int)) <= max,
        r matches Some(v) ==> v == decimal(t@.skip(from as int)),
{
    let ghost d = t@.skip(from as int);
    if from == t.len() {
        return None;
    }
    let mut v: u128 = 0;
    let mut i: usize = from;
    while i < t.len()
        invariant
            from <= i <= t.len(),
            d == t@.skip(from as int),
            v == decimal(d.take(i - from)),
            v <= max,
            forall|k: int| 0 <= k < i - from ==> digit(#[trigger] d[k]),
        decreases t.len() - i,
    {
        let c: char = t[i];
        assert(d[i - from] == c);
        assert(d.take(i - from + 1).drop_last() =~= d.take(i - from));
        if !('0' <= c && c <= '9') {
            return None;
        }
        v = v * 10 + (c as u32 - '0' as u32) as u128;
        if v > max as u128 {
            proof {
                if all_digits(d) {
                    lemma_decimal_prefix(d, i - from + 1);
                }
            }
            return None;
        }
        i = i + 1;
    }
    assert(d.take(i - from) =~= d);
    Some(v as u64)
}

/// Reads a number. `None` where the text is no number or one that does not fit.
pub fn parse_usize(t: &[char]) -> (r: Option<usize>)
    ensures
        r is Some <==> number(t@, usize::MAX as nat) is Some,
        r matches Some(v) ==> number(t@, usize::MAX as nat) == Some(v as nat),
{
    let from: usize = if t.len() > 0 && t[0] == '+' {
        1
    } else {
        0
    };
    assert(t@.skip(from as int) =~= unsigned_part(t@, false));
    match read_digits(t, from, usize::MAX as u64) {
        Some(v) => Some(v as usize),
        None => None,
    }
}

/// Reads a signed number. `None` where the text is no number or one that does not fit.
pub fn parse_i32(t: &[char]) -> (r: Option<i32>)
    ensures
        r is Some <==> signed_number(t@) is Some,
        r matches Some(v) ==> signed_number(t@) == Some(v as int),
{
    let negative: bool = t.len() > 0 && t[0] == '-';
    let from: usize = if t.len() > 0 && (t[0] == '+' || t[0] == '-') {
        1
    } else {
        0
    };
    assert(t@.skip(from as int) =~= unsigned_part(t@, true));
    let max: u64 = if negative {
        0x8000_0000
    } else {
        0x7FFF_FFFF
    };
    match read_digits(t, from, max) {
        Some(v) => if negative {
            Some((0 - v as i64) as i32)
        } else {
            Some(v as i32)
        },
        None => None,
    }
}

} // verus!
