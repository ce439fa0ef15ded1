//! Bytes that are text, and bytes that are lists of it.

use vstd::prelude::*;
use vstd::slice::*;
use vstd::string::*;

verus! {

/// Calls `core::str::from_utf8`: the bytes as text if they are valid UTF-8, and
/// nothing if they are not.
#[verifier::external_body]
pub(crate) fn from_utf8<'a>(bytes: &'a [u8]) -> (r: Option<&'a str>)
    ensures
        match r {
            Some(text) => vstd::utf8::valid_utf8(bytes@) && text@ == vstd::utf8::decode_utf8(
                bytes@,
            ),
            None => !vstd::utf8::valid_utf8(bytes@),
        },
{
    core::str::from_utf8(bytes).ok()
}

/// The bytes as text, if they are text.
pub fn as_text<'a>(bytes: &'a [u8]) -> (r: Option<&'a str>)
    ensures
        r is Some == vstd::utf8::valid_utf8(bytes@),
        r is Some ==> r->0.spec_bytes() == bytes@,
{
    match from_utf8(bytes) {
        Some(text) => {
            proof {
                vstd::utf8::decode_utf8_encode_utf8(bytes@);
            }
            Some(text)
        },
        None => None,
    }
}

/// Are these the same bytes?
pub fn same(one: &[u8], two: &[u8]) -> (r: bool)
    ensures
        r == (one@ == two@),
{
    if one.len() != two.len() {
        return false;
    }
    let mut i: usize = 0;
    while i < one.len()
        invariant
            one@.len() == two@.len(),
            i <= one@.len(),
            forall|j: int| 0 <= j < i ==> one@[j] == two@[j],
        decreases one@.len() - i,
    {
        if one[i] != two[i] {
            assert(one@[i as int] != two@[i as int]);
            return false;
        }
        i += 1;
    }
    assert(one@ =~= two@);
    true
}

/// Where `wanted` first occurs in `bytes` from `from` on, or `to` if it does
/// not occur before `to`.
pub open spec fn first(bytes: Seq<u8>, wanted: u8, from: int, to: int) -> int
    decreases to - from,
{
    if from >= to {
        to
    } else if bytes[from] == wanted {
        from
    } else {
        first(bytes, wanted, from + 1, to)
    }
}

/// The first occurrence is one, and there is none before it.
pub proof fn lemma_first(bytes: Seq<u8>, wanted: u8, from: int, to: int)
    requires
        from <= to,
    ensures
        from <= first(bytes, wanted, from, to) <= to,
        first(bytes, wanted, from, to) < to ==> bytes[first(bytes, wanted, from, to)] == wanted,
        forall|i: int|
            from <= i < first(bytes, wanted, from, to) ==> #[trigger] bytes[i] != wanted,
    decreases to - from,
{
    if from < to && bytes[from] != wanted {
        lemma_first(bytes, wanted, from + 1, to);
    }
}

/// Find the first `wanted` in `bytes[from..to]`, or `to`.
pub fn find(bytes: &[u8], wanted: u8, from: usize, to: usize) -> (r: usize)
    requires
        from <= to <= bytes@.len(),
    ensures
        r == first(bytes@, wanted, from as int, to as int),
        from <= r <= to,
        r < to ==> bytes@[r as int] == wanted,
{
    let mut i: usize = from;
    while i < to
        invariant
            from <= i <= to <= bytes@.len(),
            first(bytes@, wanted, from as int, to as int) == first(
                bytes@,
                wanted,
                i as int,
                to as int,
            ),
        decreases to - i,
    {
        if bytes[i] == wanted {
            return i;
        }
        i += 1;
    }
    to
}

/// The pieces of `bytes` between separators. There is always at least one, and
/// pieces may be empty.
pub open spec fn split(bytes: Seq<u8>, separator: u8) -> Seq<Seq<u8>>
    decreases bytes.len(),
{
    if bytes.len() == 0 {
        seq![Seq::<u8>::empty()]
    } else {
        let before = split(bytes.drop_last(), separator);
        if bytes.last() == separator {
            before.push(Seq::empty())
        } else {
            before.drop_last().push(before.last().push(bytes.last()))
        }
    }
}

/// There is always a last piece.
proof fn lemma_split_some(bytes: Seq<u8>, separator: u8)
    ensures
        split(bytes, separator).len() > 0,
    decreases bytes.len(),
{
    if bytes.len() > 0 {
        lemma_split_some(bytes.drop_last(), separator);
    }
}

/// One byte further: the last piece grows, or a new one starts.
proof fn lemma_split_step(bytes: Seq<u8>, separator: u8, i: int)
    requires
        0 <= i < bytes.len(),
    ensures
        ({
            let before = split(bytes.take(i), separator);
            let after = split(bytes.take(i + 1), separator);
            &&& before.len() > 0
            &&& if bytes[i] == separator {
                after == before.push(Seq::empty())
            } else {
                after == before.drop_last().push(before.last().push(bytes[i]))
            }
        }),
{
    lemma_split_some(bytes.take(i), separator);
    assert(bytes.take(i + 1).drop_last() =~= bytes.take(i));
}

/// Is `wanted` one of the NUL separated strings in this list?
pub fn list_contains(list: &[u8], wanted: &[u8]) -> (r: bool)
    ensures
        r == split(list@, 0).contains(wanted@),
{
    let ghost all = split(list@, 0);
    let mut found: bool = false;
    let mut start: usize = 0;
    let mut i: usize = 0;
    assert(list@.take(0) =~= Seq::<u8>::empty());
    assert(list@.subrange(0, 0) =~= Seq::<u8>::empty());
    while i < list.len()
        invariant
            start <= i <= list@.len(),
            ({
                let pieces = split(list@.take(i as int), 0);
                &&& pieces.len() > 0
                &&& pieces.last() == list@.subrange(start as int, i as int)
                &&& found == pieces.drop_last().contains(wanted@)
            }),
        decreases list@.len() - i,
    {
        let ghost pieces = split(list@.take(i as int), 0);
        proof {
            lemma_split_step(list@, 0, i as int);
        }
        if list[i] == 0 {
            if same(slice_subrange(list, start, i), wanted) {
                found = true;
            }
            start = i + 1;
            proof {
                let after = split(list@.take(i + 1), 0);
                assert(after.drop_last() =~= pieces);
                assert(list@.subrange(i + 1, i + 1) =~= Seq::<u8>::empty());
                lemma_contains_last(pieces, wanted@);
            }
        } else {
            proof {
                let after = split(list@.take(i + 1), 0);
                assert(after.drop_last() =~= pieces.drop_last());
                assert(list@.subrange(start as int, i + 1) =~= list@.subrange(
                    start as int,
                    i as int,
                ).push(list@[i as int]));
            }
        }
        i += 1;
    }
    assert(list@.take(i as int) =~= list@);
    proof {
        lemma_contains_last(all, wanted@);
    }
    found || same(slice_subrange(list, start, i), wanted)
}

/// A sequence holds what its front holds, and its last element.
proof fn lemma_contains_last(pieces: Seq<Seq<u8>>, wanted: Seq<u8>)
    requires
        pieces.len() > 0,
    ensures
        pieces.contains(wanted) == (pieces.drop_last().contains(wanted) || pieces.last() == wanted),
{
    if pieces.contains(wanted) {
        let i = choose|i: int| 0 <= i < pieces.len() && pieces[i] == wanted;
        if i < pieces.len() - 1 {
            assert(pieces.drop_last()[i] == wanted);
        }
    }
    if pieces.drop_last().contains(wanted) {
        let i = choose|i: int|
            0 <= i < pieces.drop_last().len() && pieces.drop_last()[i] == wanted;
        assert(pieces[i] == wanted);
    }
    if pieces.last() == wanted {
        assert(pieces[pieces.len() - 1] == wanted);
    }
}

/// The pieces that are not empty.
pub open spec fn filled(pieces: Seq<Seq<u8>>) -> Seq<Seq<u8>>
    decreases pieces.len(),
{
    if pieces.len() == 0 {
        Seq::empty()
    } else if pieces.last().len() == 0 {
        filled(pieces.drop_last())
    } else {
        filled(pieces.drop_last()).push(pieces.last())
    }
}

/// The parts of a path.
pub open spec fn parts(path: Seq<u8>) -> Seq<Seq<u8>> {
    filled(split(path, 47))
}

/// Take a path apart at its slashes, leaving out what is empty.
pub fn components<'a>(path: &'a [u8]) -> (r: Vec<&'a [u8]>)
    ensures
        r@.len() == parts(path@).len(),
        forall|i: int| 0 <= i < r@.len() ==> (#[trigger] r@[i])@ == parts(path@)[i],
{
    let mut out: Vec<&'a [u8]> = Vec::new();
    let mut start: usize = 0;
    let mut i: usize = 0;
    assert(path@.take(0) =~= Seq::<u8>::empty());
    assert(path@.subrange(0, 0) =~= Seq::<u8>::empty());
    assert(split(path@.take(0), 47).drop_last() =~= Seq::<Seq<u8>>::empty());
    while i < path.len()
        invariant
            start <= i <= path@.len(),
            ({
                let pieces = split(path@.take(i as int), 47);
                let done = filled(pieces.drop_last());
                &&& pieces.len() > 0
                &&& pieces.last() == path@.subrange(start as int, i as int)
                &&& out@.len() == done.len()
                &&& forall|j: int| 0 <= j < out@.len() ==> (#[trigger] out@[j])@ == done[j]
            }),
        decreases path@.len() - i,
    {
        let ghost pieces = split(path@.take(i as int), 47);
        proof {
            lemma_split_step(path@, 47, i as int);
        }
        if path[i] == 47 {
            if start < i {
                out.push(slice_subrange(path, start, i));
            }
            start = i + 1;
            proof {
                let after = split(path@.take(i + 1), 47);
                assert(after.drop_last() =~= pieces);
                assert(path@.subrange(i + 1, i + 1) =~= Seq::<u8>::empty());
            }
        } else {
            proof {
                let after = split(path@.take(i + 1), 47);
                assert(after.drop_last() =~= pieces.drop_last());
                assert(path@.subrange(start as int, i + 1) =~= path@.subrange(
                    start as int,
                    i as int,
                ).push(path@[i as int]));
            }
        }
        i += 1;
    }
    assert(path@.take(i as int) =~= path@);
    if start < i {
        out.push(slice_subrange(path, start, i));
    }
    out
}

/// The bytes that pieces make with a separator between them.
pub open spec fn joined(pieces: Seq<Seq<u8>>, separator: u8) -> Seq<u8>
    decreases pieces.len(),
{
    if pieces.len() == 0 {
        Seq::empty()
    } else if pieces.len() == 1 {
        pieces[0]
    } else {
        joined(pieces.drop_last(), separator).push(separator) + pieces.last()
    }
}

/// Splitting takes bytes apart at every separator and nowhere else: no piece
/// has one in it, and putting one between each two pieces gives the bytes back.
pub proof fn lemma_split_comes_apart(bytes: Seq<u8>, separator: u8)
    ensures
        split(bytes, separator).len() > 0,
        joined(split(bytes, separator), separator) == bytes,
        forall|i: int|
            0 <= i < split(bytes, separator).len() ==> !(#[trigger] split(
                bytes,
                separator,
            )[i]).contains(separator),
    decreases bytes.len(),
{
    let pieces = split(bytes, separator);
    if bytes.len() == 0 {
        assert(joined(pieces, separator) =~= bytes);
    } else {
        let front = bytes.drop_last();
        let before = split(front, separator);
        lemma_split_comes_apart(front, separator);
        if bytes.last() == separator {
            assert(pieces.drop_last() =~= before);
            assert(joined(pieces, separator) =~= bytes);
        } else {
            let last = before.last().push(bytes.last());
            assert(pieces.drop_last() =~= before.drop_last());
            assert(joined(pieces, separator) =~= bytes) by {
                if pieces.len() == 1 {
                    assert(before[0] == front);
                    assert(pieces[0] == last);
                    assert(last =~= bytes);
                } else {
                    let head = joined(before.drop_last(), separator).push(separator);
                    assert(head + before.last() == front);
                    assert(pieces.last() == last);
                    assert(head + last =~= (head + before.last()).push(bytes.last()));
                    assert(front.push(bytes.last()) =~= bytes);
                }
            }
            assert forall|i: int| 0 <= i < pieces.len() implies !(#[trigger] pieces[i]).contains(
                separator,
            ) by {
                if i < pieces.len() - 1 {
                    assert(pieces[i] == before[i]);
                } else {
                    assert(pieces[i] == last);
                    assert(!before[before.len() - 1].contains(separator));
                    if last.contains(separator) {
                        let j = choose|j: int| 0 <= j < last.len() && last[j] == separator;
                        assert(before.last()[j] == separator);
                    }
                }
            }
        }
    }
}

proof fn lemma_filled(pieces: Seq<Seq<u8>>, i: int)
    requires
        0 <= i < filled(pieces).len(),
    ensures
        filled(pieces)[i].len() > 0,
        pieces.contains(filled(pieces)[i]),
        filled(pieces).len() <= pieces.len(),
    decreases pieces.len(),
{
    let front = pieces.drop_last();
    if i < filled(front).len() {
        lemma_filled(front, i);
        let j = choose|j: int| 0 <= j < front.len() && front[j] == filled(front)[i];
        assert(pieces[j] == filled(front)[i]);
    } else {
        assert(pieces[pieces.len() - 1] == pieces.last());
        if filled(front).len() > 0 {
            lemma_filled(front, 0);
        }
    }
}

proof fn lemma_filled_keeps(pieces: Seq<Seq<u8>>, k: int)
    requires
        0 <= k < pieces.len(),
        pieces[k].len() > 0,
    ensures
        filled(pieces).contains(pieces[k]),
    decreases pieces.len(),
{
    let front = pieces.drop_last();
    if k < front.len() {
        lemma_filled_keeps(front, k);
        let j = choose|j: int| 0 <= j < filled(front).len() && filled(front)[j] == front[k];
        assert(filled(pieces)[j] == pieces[k]);
    } else {
        assert(filled(pieces).last() == pieces[k]);
    }
}

/// The parts of a path are what stands between its slashes, without what is
/// empty: each is one, none has a slash in it, and none is missing.
pub proof fn lemma_parts_of_a_path<'a>(path: &'a [u8], r: Vec<&'a [u8]>, i: int, k: int)
    requires
        call_ensures(components, (path,), r),
        0 <= i < r@.len(),
        0 <= k < split(path@, 47).len(),
    ensures
        r@[i]@.len() > 0,
        !r@[i]@.contains(47),
        split(path@, 47).contains(r@[i]@),
        split(path@, 47)[k].len() > 0 ==> exists|j: int|
            0 <= j < r@.len() && (#[trigger] r@[j])@ == split(path@, 47)[k],
{
    let pieces = split(path@, 47);
    lemma_split_comes_apart(path@, 47);
    lemma_filled(pieces, i);
    let j = choose|j: int| 0 <= j < pieces.len() && pieces[j] == r@[i]@;
    assert(!pieces[j].contains(47));
    if pieces[k].len() > 0 {
        lemma_filled_keeps(pieces, k);
        let x = choose|x: int| 0 <= x < filled(pieces).len() && filled(pieces)[x] == pieces[k];
        assert(r@[x]@ == pieces[k]);
    }
}

/// A list of strings contains one of them exactly if it stands between two
/// zero bytes, or between one and an end of the list.
pub proof fn lemma_listed_is_contained<'a>(list: &'a [u8], wanted: &'a [u8], r: bool)
    requires
        call_ensures(list_contains, (list, wanted), r),
    ensures
        r ==> !wanted@.contains(0),
        r == split(list@, 0).contains(wanted@),
        joined(split(list@, 0), 0) == list@,
{
    lemma_split_comes_apart(list@, 0);
    if r {
        let j = choose|j: int| 0 <= j < split(list@, 0).len() && split(list@, 0)[j] == wanted@;
        assert(!split(list@, 0)[j].contains(0));
    }
}

} // verus!
