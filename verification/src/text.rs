//! Cutting a block of bytes at each occurrence of a separator, and joining
//! pieces back together.

use vstd::prelude::*;
use vstd::slice::{slice_subrange, slice_to_vec};

verus! {

/// Whether a character of UTF-8 text can begin at offset `i`: at the end of
/// the text, or at a byte that is no continuation byte.
pub open spec fn is_boundary(text: Seq<u8>, i: int) -> bool {
    0 <= i <= text.len() && (i == text.len() || !vstd::utf8::is_continuation_byte(text[i]))
}

/// Whether the separator is found in `text` at offset `i`. The empty
/// separator is found between any two characters, before the first and
/// after the last.
pub open spec fn occurs_at(text: Seq<u8>, sep: Seq<u8>, i: int) -> bool {
    &&& 0 <= i
    &&& i + sep.len() <= text.len()
    &&& text.subrange(i, i + sep.len()) == sep
    &&& sep.len() == 0 ==> is_boundary(text, i)
}

/// Where the search goes on after an occurrence at `pos`: behind it, and at
/// least one byte further.
pub open spec fn resume(sep: Seq<u8>, pos: int) -> int {
    if sep.len() == 0 {
        pos + 1
    } else {
        pos + sep.len()
    }
}

/// The pieces that are still to come when the current piece began at
/// `start` and the separator is searched from `pos` on. Occurrences are
/// taken leftmost first and do not overlap.
pub open spec fn pieces_from(text: Seq<u8>, sep: Seq<u8>, start: int, pos: int) -> Seq<Seq<u8>>
    decreases text.len() + 1 - pos,
{
    if pos < 0 || pos + sep.len() > text.len() {
        seq![text.subrange(start, text.len() as int)]
    } else if occurs_at(text, sep, pos) {
        seq![text.subrange(start, pos)] + pieces_from(
            text,
            sep,
            pos + sep.len(),
            resume(sep, pos),
        )
    } else {
        pieces_from(text, sep, start, pos + 1)
    }
}

/// The pieces of `text` between the occurrences of `sep`, in order. There
/// is one piece more than there are occurrences.
pub open spec fn split(text: Seq<u8>, sep: Seq<u8>) -> Seq<Seq<u8>> {
    pieces_from(text, sep, 0, 0)
}

/// The pieces in order, with `joiner` between each two neighbours.
pub open spec fn join(pieces: Seq<Seq<u8>>, joiner: Seq<u8>) -> Seq<u8>
    decreases pieces.len(),
{
    if pieces.len() == 0 {
        Seq::empty()
    } else if pieces.len() == 1 {
        pieces[0]
    } else {
        join(pieces.drop_last(), joiner) + joiner + pieces.last()
    }
}

/// The contents of a list of byte buffers.
pub open spec fn views(pieces: Seq<Vec<u8>>) -> Seq<Seq<u8>> {
    Seq::new(pieces.len(), |i: int| pieces[i]@)
}

/// In well-formed UTF-8, `is_boundary` holds exactly at the offsets where
/// a character begins or the text ends.
pub proof fn lemma_boundary_is_char_boundary(text: Seq<u8>, i: int)
    requires
        vstd::utf8::valid_utf8(text),
        0 <= i <= text.len(),
    ensures
        is_boundary(text, i) == vstd::utf8::is_char_boundary(text, i),
{
    if i == text.len() {
        vstd::utf8::is_char_boundary_start_end_of_seq(text);
    } else {
        vstd::utf8::is_char_boundary_iff_not_is_continuation_byte(text, i);
    }
}

/// Joining two non-empty lists of pieces one after the other is joining
/// each and putting the joiner between the two results.
pub proof fn lemma_join_concat(x: Seq<Seq<u8>>, y: Seq<Seq<u8>>, joiner: Seq<u8>)
    requires
        x.len() > 0,
        y.len() > 0,
    ensures
        join(x + y, joiner) == join(x, joiner) + joiner + join(y, joiner),
    decreases y.len(),
{
    assert((x + y).drop_last() =~= x + y.drop_last());
    assert((x + y).last() == y.last());
    if y.len() == 1 {
        assert(x + y.drop_last() =~= x);
    } else {
        lemma_join_concat(x, y.drop_last(), joiner);
        assert(join(x + y, joiner) =~= join(x, joiner) + joiner + join(y, joiner));
    }
}

/// A search always yields at least one piece.
pub proof fn lemma_pieces_nonempty(text: Seq<u8>, sep: Seq<u8>, start: int, pos: int)
    ensures
        pieces_from(text, sep, start, pos).len() > 0,
    decreases text.len() + 1 - pos,
{
    if pos < 0 || pos + sep.len() > text.len() {
    } else if occurs_at(text, sep, pos) {
    } else {
        lemma_pieces_nonempty(text, sep, start, pos + 1);
    }
}

proof fn lemma_join_pieces(text: Seq<u8>, sep: Seq<u8>, start: int, pos: int)
    requires
        0 <= start <= pos,
        start <= text.len(),
    ensures
        join(pieces_from(text, sep, start, pos), sep) == text.subrange(start, text.len() as int),
    decreases text.len() + 1 - pos,
{
    if pos + sep.len() > text.len() {
    } else if occurs_at(text, sep, pos) {
        let rest = pieces_from(text, sep, pos + sep.len(), resume(sep, pos));
        lemma_pieces_nonempty(text, sep, pos + sep.len(), resume(sep, pos));
        lemma_join_pieces(text, sep, pos + sep.len(), resume(sep, pos));
        lemma_join_concat(seq![text.subrange(start, pos)], rest, sep);
        assert(text.subrange(start, pos) + text.subrange(pos, pos + sep.len()) + text.subrange(
            pos + sep.len(),
            text.len() as int,
        ) =~= text.subrange(start, text.len() as int));
    } else {
        lemma_join_pieces(text, sep, start, pos + 1);
    }
}

/// Splitting on a separator and joining with the same separator gives the
/// text back.
pub proof fn lemma_join_split(text: Seq<u8>, sep: Seq<u8>)
    ensures
        join(split(text, sep), sep) == text,
{
    lemma_join_pieces(text, sep, 0, 0);
    assert(text.subrange(0, text.len() as int) =~= text);
}

proof fn lemma_pieces_clean(text: Seq<u8>, sep: Seq<u8>, start: int, pos: int, j: int, i: int)
    requires
        sep.len() > 0,
        0 <= start <= pos,
        start <= text.len(),
        forall|q: int| start <= q < pos ==> !occurs_at(text, sep, q),
        0 <= j < pieces_from(text, sep, start, pos).len(),
    ensures
        !occurs_at(pieces_from(text, sep, start, pos)[j], sep, i),
    decreases text.len() + 1 - pos,
{
    let m = sep.len() as int;
    if pos + m > text.len() {
        let piece = text.subrange(start, text.len() as int);
        if occurs_at(piece, sep, i) {
            assert(text.subrange(start + i, start + i + m) =~= piece.subrange(i, i + m));
            assert(occurs_at(text, sep, start + i));
        }
    } else if occurs_at(text, sep, pos) {
        if j == 0 {
            let piece = text.subrange(start, pos);
            if occurs_at(piece, sep, i) {
                assert(text.subrange(start + i, start + i + m) =~= piece.subrange(i, i + m));
                assert(occurs_at(text, sep, start + i));
            }
        } else {
            lemma_pieces_clean(text, sep, pos + m, pos + m, j - 1, i);
        }
    } else {
        lemma_pieces_clean(text, sep, start, pos + 1, j, i);
    }
}

/// No piece holds the separator, unless the separator is empty.
pub proof fn lemma_split_clean(text: Seq<u8>, sep: Seq<u8>, j: int, i: int)
    requires
        sep.len() > 0,
        0 <= j < split(text, sep).len(),
    ensures
        !occurs_at(split(text, sep)[j], sep, i),
{
    lemma_pieces_clean(text, sep, 0, 0, j, i);
}

proof fn lemma_pieces_absent(text: Seq<u8>, sep: Seq<u8>, start: int, pos: int)
    requires
        forall|i: int| pos <= i ==> !occurs_at(text, sep, i),
    ensures
        pieces_from(text, sep, start, pos) == seq![text.subrange(start, text.len() as int)],
    decreases text.len() + 1 - pos,
{
    if pos < 0 || pos + sep.len() > text.len() {
    } else {
        lemma_pieces_absent(text, sep, start, pos + 1);
    }
}

/// A text in which the separator does not occur is its own single piece.
pub proof fn lemma_split_absent(text: Seq<u8>, sep: Seq<u8>)
    requires
        forall|i: int| !occurs_at(text, sep, i),
    ensures
        split(text, sep) == seq![text],
{
    lemma_pieces_absent(text, sep, 0, 0);
    assert(text.subrange(0, text.len() as int) =~= text);
}

/// Whether the separator is found in `text` at offset `pos`.
fn found_at(text: &[u8], sep: &[u8], pos: usize) -> (found: bool)
    requires
        pos + sep.len() <= text.len(),
    ensures
        found == occurs_at(text@, sep@, pos as int),
{
    if sep.len() == 0 {
        assert(text@.subrange(pos as int, pos as int) =~= sep@);
        return pos == text.len() || !(0x80 <= text[pos] && text[pos] <= 0xbf);
    }
    let mut k: usize = 0;
    while k < sep.len()
        invariant
            k <= sep.len(),
            pos + sep.len() <= text.len(),
            forall|j: int| 0 <= j < k ==> text@[pos + j] == sep@[j],
        decreases sep.len() - k,
    {
        if text[pos + k] != sep[k] {
            assert(text@.subrange(pos as int, pos + sep.len())[k as int] != sep@[k as int]);
            return false;
        }
        k += 1;
    }
    assert(text@.subrange(pos as int, pos + sep.len()) =~= sep@);
    true
}

/// A copy of `text[from..to]`.
fn copy_range(text: &[u8], from: usize, to: usize) -> (piece: Vec<u8>)
    requires
        from <= to <= text.len(),
    ensures
        piece@ == text@.subrange(from as int, to as int),
{
    slice_to_vec(slice_subrange(text, from, to))
}

/// Cuts `text` at each occurrence of `sep` and returns the pieces between
/// them, in order.
pub fn split_bytes(text: &[u8], sep: &[u8]) -> (pieces: Vec<Vec<u8>>)
    ensures
        views(pieces@) == split(text@, sep@),
{
    let n: usize = text.len();
    let m: usize = sep.len();
    let mut pieces: Vec<Vec<u8>> = Vec::new();
    let mut start: usize = 0;
    if m <= n {
        let last: usize = n - m;
        let mut pos: usize = 0;
        assert(views(pieces@) + pieces_from(text@, sep@, 0, 0) =~= split(text@, sep@));
        while pos < last
            invariant
                n == text.len(),
                m == sep.len(),
                last == n - m,
                start <= pos <= n,
                views(pieces@) + pieces_from(text@, sep@, start as int, pos as int) == split(
                    text@,
                    sep@,
                ),
            decreases n - pos,
        {
            if found_at(text, sep, pos) {
                let ghost before = views(pieces@);
                pieces.push(copy_range(text, start, pos));
                assert(views(pieces@) =~= before + seq![text@.subrange(start as int, pos as int)]);
                assert(views(pieces@) + pieces_from(
                    text@,
                    sep@,
                    pos + m,
                    resume(sep@, pos as int),
                ) =~= before + pieces_from(text@, sep@, start as int, pos as int));
                start = pos + m;
                pos = if m == 0 {
                    pos + 1
                } else {
                    pos + m
                };
            } else {
                pos += 1;
            }
        }
        if pos == last && found_at(text, sep, pos) {
            let ghost before = views(pieces@);
            pieces.push(copy_range(text, start, pos));
            assert(views(pieces@) =~= before + seq![text@.subrange(start as int, pos as int)]);
            assert(views(pieces@) + pieces_from(text@, sep@, pos + m, resume(sep@, pos as int))
                =~= before + pieces_from(text@, sep@, start as int, pos as int));
            start = pos + m;
        } else if pos == last {
            assert(pieces_from(text@, sep@, start as int, pos + 1) == seq![
                text@.subrange(start as int, n as int),
            ]);
        }
    }
    assert(views(pieces@) + seq![text@.subrange(start as int, n as int)] == split(text@, sep@));
    let ghost before = views(pieces@);
    pieces.push(copy_range(text, start, n));
    assert(views(pieces@) =~= before + seq![text@.subrange(start as int, n as int)]);
    pieces
}

} // verus!
