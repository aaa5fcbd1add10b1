//! The text that comes with exported weights, and the labels of images.
use vstd::prelude::*;

use crate::plan::text::{
    begins, copy_text, line_list, lines, number, parse_i32, parse_usize, pieces, signed_number, split,
    starts_with, texts, word_list, words,
};

verus! {

/// A convolution: channels in, channels out and the kernel.
pub type ConvSize = (usize, usize, usize, usize);

/// What the text says: the scale, how many convolutions there are, and their sizes.
#[verifier::ext_equal]
pub struct Meta {
    pub sf_log: usize,
    pub num_conv: usize,
    pub configs: Seq<ConvSize>,
}

/// The key of the scale.
pub open spec fn scale_key() -> Seq<char> {
    seq!['s', 'f', '_', 'l', 'o', 'g', '=']
}

/// The key of the number of convolutions.
pub open spec fn count_key() -> Seq<char> {
    seq!['n', 'u', 'm', '_', 'c', 'o', 'n', 'v', '=']
}

/// The key of the number of classes.
pub open spec fn classes_key() -> Seq<char> {
    seq!['n', 'u', 'm', '_', 'c', 'l', 'a', 's', 's', 'e', 's', '=']
}

/// How the key of a convolution begins.
pub open spec fn conv_key() -> Seq<char> {
    seq!['c', 'o', 'n', 'v', '_']
}

/// The first `k` fields, if all are numbers.
pub open spec fn numbers(fields: Seq<Seq<char>>, k: nat) -> Option<Seq<usize>>
    decreases k,
{
    if k == 0 {
        Some(Seq::empty())
    } else {
        match (numbers(fields, (k - 1) as nat), number(fields[k - 1], usize::MAX as nat)) {
            (Some(list), Some(v)) => Some(list.push(v as usize)),
            _ => None,
        }
    }
}

/// What a line adds; `None` for a line with a known key and a value that is no number. A line of a
/// convolution counts where it has one equals sign and four numbers.
pub open spec fn with_line(m: Meta, line: Seq<char>) -> Option<Meta> {
    if begins(line, scale_key()) {
        match number(line.skip(7), usize::MAX as nat) {
            Some(v) => Some(Meta { sf_log: v as usize, ..m }),
            None => None,
        }
    } else if begins(line, count_key()) {
        match number(line.skip(9), usize::MAX as nat) {
            Some(v) => Some(Meta { num_conv: v as usize, ..m }),
            None => None,
        }
    } else if begins(line, classes_key()) {
        if signed_number(line.skip(12)) is Some {
            Some(m)
        } else {
            None
        }
    } else if begins(line, conv_key()) {
        let sides = pieces(line, '=');
        if sides.len() != 2 {
            Some(m)
        } else {
            let fields = pieces(sides[1], ',');
            match numbers(fields, fields.len()) {
                Some(n) => if n.len() == 4 {
                    Some(Meta { configs: m.configs.push((n[0], n[1], n[2], n[3])), ..m })
                } else {
                    Some(m)
                },
                None => None,
            }
        }
    } else {
        Some(m)
    }
}

/// What the first `k` lines say; the scale is ten where they do not give it.
pub open spec fn after_lines(list: Seq<Seq<char>>, k: nat) -> Option<Meta>
    decreases k,
{
    if k == 0 {
        Some(Meta { sf_log: 10, num_conv: 0, configs: Seq::empty() })
    } else {
        match after_lines(list, (k - 1) as nat) {
            Some(m) => with_line(m, list[k - 1]),
            None => None,
        }
    }
}

/// What a text says, if it is in order: there are as many convolutions as it counts.
pub open spec fn metadata_of(t: Seq<char>) -> Option<Meta> {
    match after_lines(line_list(t), line_list(t).len()) {
        Some(m) => if m.configs.len() == m.num_conv {
            Some(m)
        } else {
            None
        },
        None => None,
    }
}

/// The scale of exported weights, the number of their convolutions, and their sizes.
pub struct Metadata {
    pub sf_log: usize,
    pub num_conv: usize,
    pub configs: Vec<ConvSize>,
}

impl View for Metadata {
    type V = Meta;

    open spec fn view(&self) -> Meta {
        Meta { sf_log: self.sf_log, num_conv: self.num_conv, configs: self.configs@ }
    }
}

/// A line that is wrong early stays wrong.
proof fn lemma_stuck(list: Seq<Seq<char>>, j: nat, k: nat)
    requires
        j <= k,
        after_lines(list, j) is None,
    ensures
        after_lines(list, k) is None,
    decreases k,
{
    if j < k {
        lemma_stuck(list, j, (k - 1) as nat);
    }
}

proof fn lemma_numbers_stuck(list: Seq<Seq<char>>, j: nat, k: nat)
    requires
        j <= k,
        numbers(list, j) is None,
    ensures
        numbers(list, k) is None,
    decreases k,
{
    if j < k {
        lemma_numbers_stuck(list, j, (k - 1) as nat);
    }
}

/// Reads all fields as numbers.
fn read_numbers(fields: &Vec<Vec<char>>) -> (r: Option<Vec<usize>>)
    ensures
        r is Some <==> numbers(texts(fields@), fields@.len()) is Some,
        r matches Some(v) ==> numbers(texts(fields@), fields@.len()) == Some(v@),
{
    let mut r: Vec<usize> = Vec::new();
    let mut i: usize = 0;
    while i < fields.len()
        invariant
            i <= fields.len(),
            numbers(texts(fields@), i as nat) == Some(r@),
        decreases fields.len() - i,
    {
        assert(texts(fields@)[i as int] == fields[i as int]@);
        match parse_usize(fields[i].as_slice()) {
            Some(v) => {
                r.push(v);
            },
            None => {
                proof {
                    lemma_numbers_stuck(texts(fields@), (i + 1) as nat, fields@.len());
                }
                return None;
            },
        }
        i = i + 1;
    }
    Some(r)
}

/// Reads the number behind a key.
fn value_behind(line: &Vec<char>, at: usize) -> (r: Option<usize>)
    requires
        at <= line.len(),
    ensures
        r is Some <==> number(line@.skip(at as int), usize::MAX as nat) is Some,
        r matches Some(v) ==> number(line@.skip(at as int), usize::MAX as nat) == Some(v as nat),
{
    let value: Vec<char> = copy_text(line.as_slice(), at, line.len());
    assert(value@ =~= line@.skip(at as int));
    parse_usize(value.as_slice())
}

/// Takes a line into account.
fn take_line(m: &mut Metadata, line: &Vec<char>) -> (r: bool)
    ensures
        r == (with_line(old(m)@, line@) is Some),
        r ==> with_line(old(m)@, line@) == Some(final(m)@),
{
    let scale: Vec<char> = vec!['s', 'f', '_', 'l', 'o', 'g', '='];
    let count: Vec<char> = vec!['n', 'u', 'm', '_', 'c', 'o', 'n', 'v', '='];
    let classes: Vec<char> = vec!['n', 'u', 'm', '_', 'c', 'l', 'a', 's', 's', 'e', 's', '='];
    let one: Vec<char> = vec!['c', 'o', 'n', 'v', '_'];
    assert(scale@ =~= scale_key());
    assert(count@ =~= count_key());
    assert(classes@ =~= classes_key());
    assert(one@ =~= conv_key());
    if starts_with(line.as_slice(), scale.as_slice()) {
        match value_behind(line, 7) {
            Some(v) => {
                m.sf_log = v;
                true
            },
            None => false,
        }
    } else if starts_with(line.as_slice(), count.as_slice()) {
        match value_behind(line, 9) {
            Some(v) => {
                m.num_conv = v;
                true
            },
            None => false,
        }
    } else if starts_with(line.as_slice(), classes.as_slice()) {
        let value: Vec<char> = copy_text(line.as_slice(), 12, line.len());
        assert(value@ =~= line@.skip(12));
        match parse_i32(value.as_slice()) {
            Some(_) => true,
            None => false,
        }
    } else if starts_with(line.as_slice(), one.as_slice()) {
        let sides: Vec<Vec<char>> = split(line.as_slice(), '=');
        if sides.len() != 2 {
            return true;
        }
        assert(texts(sides@)[1] == sides[1]@);
        let fields: Vec<Vec<char>> = split(sides[1].as_slice(), ',');
        match read_numbers(&fields) {
            Some(n) => {
                if n.len() == 4 {
                    m.configs.push((n[0], n[1], n[2], n[3]));
                }
                true
            },
            None => false,
        }
    } else {
        true
    }
}

/// Reads the text that comes with exported weights. `None` where a value is no number or the
/// convolutions are not as many as the text counts.
pub fn read_metadata(content: &[char]) -> (r: Option<Metadata>)
    ensures
        r is Some <==> metadata_of(content@) is Some,
        r matches Some(m) ==> metadata_of(content@) == Some(m@),
{
    let list: Vec<Vec<char>> = lines(content);
    let ghost all = line_list(content@);
    let mut m: Metadata = Metadata { sf_log: 10, num_conv: 0, configs: Vec::new() };
    let mut i: usize = 0;
    assert(m@ =~= after_lines(all, 0)->0);
    while i < list.len()
        invariant
            i <= list.len(),
            texts(list@) == all,
            all == line_list(content@),
            after_lines(all, i as nat) == Some(m@),
        decreases list.len() - i,
    {
        assert(all[i as int] == list[i as int]@);
        let fine: bool = take_line(&mut m, &list[i]);
        if !fine {
            proof {
                lemma_stuck(all, (i + 1) as nat, all.len());
            }
            return None;
        }
        i = i + 1;
    }
    if m.configs.len() == m.num_conv {
        Some(m)
    } else {
        None
    }
}

/// The number of an image and its class, where a line has both.
pub open spec fn label_of(line: Seq<char>) -> Option<(usize, i32)> {
    let w = word_list(line);
    if w.len() < 2 {
        None
    } else {
        match (number(w[0], usize::MAX as nat), signed_number(w[1])) {
            (Some(image), Some(class)) => Some((image as usize, class as i32)),
            _ => None,
        }
    }
}

/// The labels in the first `k` lines; other lines are passed over.
pub open spec fn labels_of(list: Seq<Seq<char>>, k: nat) -> Seq<(usize, i32)>
    decreases k,
{
    if k == 0 {
        Seq::empty()
    } else {
        match label_of(list[k - 1]) {
            Some(l) => labels_of(list, (k - 1) as nat).push(l),
            None => labels_of(list, (k - 1) as nat),
        }
    }
}

/// Reads the label in a line.
fn read_label(line: &Vec<char>) -> (r: Option<(usize, i32)>)
    ensures
        r == label_of(line@),
{
    let w: Vec<Vec<char>> = words(line.as_slice());
    if w.len() < 2 {
        return None;
    }
    assert(texts(w@)[0] == w[0]@);
    assert(texts(w@)[1] == w[1]@);
    match (parse_usize(w[0].as_slice()), parse_i32(w[1].as_slice())) {
        (Some(image), Some(class)) => Some((image, class)),
        _ => None,
    }
}

/// Reads the labels of images: a number and a class in each line; other lines are passed over.
pub fn read_labels(content: &[char]) -> (r: Vec<(usize, i32)>)
    ensures
        r@ == labels_of(line_list(content@), line_list(content@).len()),
{
    let list: Vec<Vec<char>> = lines(content);
    let ghost all = line_list(content@);
    let mut r: Vec<(usize, i32)> = Vec::new();
    let mut i: usize = 0;
    while i < list.len()
        invariant
            i <= list.len(),
            texts(list@) == all,
            r@ == labels_of(all, i as nat),
        decreases list.len() - i,
    {
        assert(all[i as int] == list[i as int]@);
        match read_label(&list[i]) {
            Some(l) => {
                r.push(l);
            },
            None => {},
        }
        i = i + 1;
    }
    r
}

} // verus!
