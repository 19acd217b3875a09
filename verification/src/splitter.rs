//! The splitter: what to do with the pieces of a stream, and the pass over
//! the stream itself.

use crate::selection::{parse_selection, selection, ParseError};
use crate::text::{
    join, lemma_join_concat, lemma_join_split, lemma_split_absent, occurs_at, split, split_bytes,
    views,
};
use std::collections::HashSet;
use vstd::prelude::*;
use vstd::slice::slice_subrange;
use vstd::utf8::{encode_utf8, valid_utf8};

verus! {

broadcast use vstd::std_specs::hash::group_hash_axioms;

/// Number of bytes that are read, decoded and split at a time.
pub const CHUNK_SIZE: usize = 16384;

/// One more than the largest ordinal that can be selected.
pub const ORDINAL_LIMIT: u64 = 0x1_0000_0000;

/// What is done with the pieces of a stream.
#[derive(Debug)]
pub enum Splitter {
    /// Every piece is written, with the joiner between neighbours.
    Replace(String),
    /// Only the pieces whose ordinal is in `indices` are written, with the
    /// joiner between them.
    Indices { indices: HashSet<u32>, delimiter: String },
}

/// Why a pass over a stream stopped early.
#[derive(Debug, Clone, Copy, PartialEq, Eq, Structural)]
pub enum StreamError {
    /// A chunk is not well-formed UTF-8.
    Decode,
}

/// How far a pass over a stream has come.
#[derive(Debug, Clone, Copy, PartialEq, Eq, Structural)]
pub struct Progress {
    /// Number of pieces met so far; it stops counting at `ORDINAL_LIMIT`.
    pub seen: u64,
    /// Whether a selected piece has been written yet.
    pub wrote: bool,
}

/// `n`, or `ORDINAL_LIMIT` where `n` is beyond it.
pub open spec fn saturate(n: int) -> int {
    if n < ORDINAL_LIMIT {
        n
    } else {
        ORDINAL_LIMIT as int
    }
}

/// Whether the piece with this ordinal is selected.
pub open spec fn is_chosen(indices: Set<u32>, ordinal: int) -> bool {
    0 <= ordinal < ORDINAL_LIMIT && indices.contains(ordinal as u32)
}

/// The selected ones among `pieces`, in order, where the ordinal of the
/// first of `pieces` is `first`.
pub open spec fn chosen(pieces: Seq<Seq<u8>>, indices: Set<u32>, first: int) -> Seq<Seq<u8>>
    decreases pieces.len(),
{
    if pieces.len() == 0 {
        Seq::empty()
    } else {
        let before = chosen(pieces.drop_last(), indices, first);
        if is_chosen(indices, first + pieces.len() - 1) {
            before.push(pieces.last())
        } else {
            before
        }
    }
}

/// The pieces joined, behind a joiner of their own where something was
/// written before them. No pieces, no bytes.
pub open spec fn continued(pieces: Seq<Seq<u8>>, joiner: Seq<u8>, wrote: bool) -> Seq<u8> {
    if pieces.len() == 0 {
        Seq::empty()
    } else if wrote {
        joiner + join(pieces, joiner)
    } else {
        join(pieces, joiner)
    }
}

/// The chunks in which a stream is read: `CHUNK_SIZE` bytes each, but for
/// the last, which holds what is left.
pub open spec fn chunks(input: Seq<u8>) -> Seq<Seq<u8>> {
    Seq::new(
        ((input.len() + CHUNK_SIZE - 1) / (CHUNK_SIZE as int)) as nat,
        |k: int|
            input.subrange(
                k * CHUNK_SIZE,
                if (k + 1) * CHUNK_SIZE < input.len() {
                    (k + 1) * CHUNK_SIZE
                } else {
                    input.len() as int
                },
            ),
    )
}

/// The pieces of every chunk, in the order of the stream. A separator that
/// lies across two chunks is not seen.
pub open spec fn stream_pieces(chunks: Seq<Seq<u8>>, sep: Seq<u8>) -> Seq<Seq<u8>>
    decreases chunks.len(),
{
    if chunks.len() == 0 {
        Seq::empty()
    } else {
        stream_pieces(chunks.drop_last(), sep) + split(chunks.last(), sep)
    }
}

/// Every chunk split and joined again, one after the other. No joiner
/// stands between two chunks.
pub open spec fn rejoined(chunks: Seq<Seq<u8>>, sep: Seq<u8>, joiner: Seq<u8>) -> Seq<u8>
    decreases chunks.len(),
{
    if chunks.len() == 0 {
        Seq::empty()
    } else {
        rejoined(chunks.drop_last(), sep, joiner) + join(split(chunks.last(), sep), joiner)
    }
}

/// Whether chunk `k` is the first that is not well-formed UTF-8.
pub open spec fn first_invalid(chunks: Seq<Seq<u8>>, k: int) -> bool {
    &&& 0 <= k < chunks.len()
    &&& !valid_utf8(chunks[k])
    &&& forall|j: int| 0 <= j < k ==> valid_utf8(#[trigger] chunks[j])
}

impl StreamError {
    /// The text of `message`.
    pub open spec fn text(&self) -> Seq<char> {
        match self {
            StreamError::Decode => "input is not valid UTF-8"@,
        }
    }

    /// One line that says what is wrong, for a person to read.
    pub fn message(&self) -> (s: String)
        ensures
            s@ == self.text(),
    {
        match self {
            StreamError::Decode => "input is not valid UTF-8".to_owned(),
        }
    }
}

impl Progress {
    /// The count never passes `ORDINAL_LIMIT`.
    pub open spec fn wf(&self) -> bool {
        self.seen <= ORDINAL_LIMIT
    }

    /// The state before the first chunk.
    pub fn new() -> (p: Progress)
        ensures
            p.seen == 0,
            !p.wrote,
            p.wf(),
    {
        Progress { seen: 0, wrote: false }
    }
}

impl Splitter {
    /// The bytes written between two pieces.
    pub open spec fn joiner(&self) -> Seq<u8> {
        match self {
            Splitter::Replace(with) => encode_utf8(with@),
            Splitter::Indices { delimiter, .. } => encode_utf8(delimiter@),
        }
    }

    /// What is written for the pieces of one chunk.
    pub open spec fn chunk_output(&self, pieces: Seq<Seq<u8>>, before: Progress) -> Seq<u8> {
        match self {
            Splitter::Replace(_) => join(pieces, self.joiner()),
            Splitter::Indices { indices, .. } => continued(
                chosen(pieces, indices@, before.seen as int),
                self.joiner(),
                before.wrote,
            ),
        }
    }

    /// The state after the pieces of one chunk. Only a selection keeps count.
    pub open spec fn chunk_progress(&self, pieces: Seq<Seq<u8>>, before: Progress) -> Progress {
        match self {
            Splitter::Replace(_) => before,
            Splitter::Indices { indices, .. } => Progress {
                seen: saturate(before.seen as int + pieces.len()) as u64,
                wrote: before.wrote || chosen(pieces, indices@, before.seen as int).len() > 0,
            },
        }
    }

    /// What a pass over these chunks writes.
    pub open spec fn stream_output(&self, chunks: Seq<Seq<u8>>, sep: Seq<u8>) -> Seq<u8> {
        match self {
            Splitter::Replace(_) => rejoined(chunks, sep, self.joiner()),
            Splitter::Indices { indices, .. } => join(
                chosen(stream_pieces(chunks, sep), indices@, 0),
                self.joiner(),
            ),
        }
    }

    /// The state in which a pass over these chunks ends.
    pub open spec fn stream_progress(&self, chunks: Seq<Seq<u8>>, sep: Seq<u8>) -> Progress {
        match self {
            Splitter::Replace(_) => Progress { seen: 0, wrote: false },
            Splitter::Indices { indices, .. } => Progress {
                seen: saturate(stream_pieces(chunks, sep).len() as int) as u64,
                wrote: chosen(stream_pieces(chunks, sep), indices@, 0).len() > 0,
            },
        }
    }

    /// Builds the splitter: without an index list every piece is kept;
    /// with one, the pieces that it selects.
    pub fn try_from_idx(idx: Option<String>, delimiter: String) -> (r: Result<
        Splitter,
        ParseError,
    >)
        ensures
            match idx {
                None => r matches Ok(Splitter::Replace(with)) && with@ == delimiter@,
                Some(text) => match selection(text@) {
                    Ok(set) => r matches Ok(Splitter::Indices { indices, delimiter: d })
                        && indices@ == set && d@ == delimiter@,
                    Err(e) => r matches Err(err) && err == e,
                },
            },
    {
        match idx {
            None => Ok(Splitter::Replace(delimiter)),
            Some(text) => match parse_selection(text.as_str()) {
                Ok(indices) => Ok(Splitter::Indices { indices, delimiter }),
                Err(e) => Err(e),
            },
        }
    }

    /// Splits one chunk of a stream on `split` and appends to `output` what
    /// this splitter writes for it. A chunk that is not well-formed UTF-8
    /// is refused and changes nothing.
    pub fn split_chunk(
        &self,
        chunk: &[u8],
        split: &str,
        progress: &mut Progress,
        output: &mut Vec<u8>,
    ) -> (r: Result<(), StreamError>)
        requires
            old(progress).wf(),
        ensures
            final(progress).wf(),
            r is Ok <==> valid_utf8(chunk@),
            r is Err ==> r->Err_0 == StreamError::Decode && *final(progress) == *old(progress)
                && final(output)@ == old(output)@,
            r is Ok ==> final(output)@ == old(output)@ + self.chunk_output(
                crate::text::split(chunk@, encode_utf8(split@)),
                *old(progress),
            ) && *final(progress) == self.chunk_progress(
                crate::text::split(chunk@, encode_utf8(split@)),
                *old(progress),
            ),
    {
        if !is_utf8(chunk) {
            return Err(StreamError::Decode);
        }
        let pieces = split_bytes(chunk, split.as_bytes());
        match self {
            Splitter::Replace(with) => {
                write_all(&pieces, with.as_str().as_bytes(), output);
            },
            Splitter::Indices { indices, delimiter } => {
                write_chosen(&pieces, indices, delimiter.as_str().as_bytes(), progress, output);
            },
        }
        Ok(())
    }

    /// Passes over the whole of `input`, chunk by chunk, and appends to
    /// `output` what this splitter writes for it. The pass stops at the
    /// first chunk that is not well-formed UTF-8; what the chunks before it
    /// gave stays written.
    pub fn split_stream(&self, input: &[u8], output: &mut Vec<u8>, split: &str) -> (r: Result<
        (),
        StreamError,
    >)
        ensures
            r is Ok <==> forall|k: int|
                0 <= k < chunks(input@).len() ==> valid_utf8(#[trigger] chunks(input@)[k]),
            r is Ok ==> final(output)@ == old(output)@ + self.stream_output(
                chunks(input@),
                encode_utf8(split@),
            ),
            r is Err ==> r->Err_0 == StreamError::Decode && exists|k: int|
                #[trigger] first_invalid(chunks(input@), k) && final(output)@ == old(output)@
                    + self.stream_output(chunks(input@).take(k), encode_utf8(split@)),
    {
        let ghost all = chunks(input@);
        let ghost sep = encode_utf8(split@);
        let ghost mut k: int = 0;
        let mut progress = Progress::new();
        let mut offset: usize = 0;
        proof {
            assert(all.take(0) =~= Seq::<Seq<u8>>::empty());
            assert(stream_pieces(all.take(0), sep) =~= Seq::<Seq<u8>>::empty());
            assert(output@ =~= old(output)@ + self.stream_output(all.take(0), sep));
        }
        while offset < input.len()
            invariant
                all == chunks(input@),
                sep == encode_utf8(split@),
                0 <= k <= all.len(),
                offset <= input.len(),
                offset == if k * CHUNK_SIZE < input.len() {
                    k * CHUNK_SIZE
                } else {
                    input.len() as int
                },
                forall|j: int| 0 <= j < k ==> valid_utf8(#[trigger] all[j]),
                progress.wf(),
                progress == self.stream_progress(all.take(k), sep),
                output@ == old(output)@ + self.stream_output(all.take(k), sep),
            decreases input.len() - offset,
        {
            let end: usize = if input.len() - offset > CHUNK_SIZE {
                offset + CHUNK_SIZE
            } else {
                input.len()
            };
            let chunk = slice_subrange(input, offset, end);
            assert(chunk@ == all[k]);
            match self.split_chunk(chunk, split, &mut progress, output) {
                Ok(()) => {},
                Err(e) => {
                    assert(first_invalid(all, k));
                    return Err(e);
                },
            }
            proof {
                self.lemma_stream_step(all.take(k), all[k], sep);
                assert(all.take(k + 1) =~= all.take(k).push(all[k]));
                assert(output@ =~= old(output)@ + self.stream_output(all.take(k + 1), sep));
                k = k + 1;
            }
            offset = end;
        }
        assert(all.take(k) =~= all);
        Ok(())
    }

    /// A pass is a chain of chunk steps: one chunk more adds to the output
    /// what the step writes for it in the state that the chunks before it
    /// left, and leaves the state that the step leaves.
    pub proof fn lemma_stream_step(&self, before: Seq<Seq<u8>>, chunk: Seq<u8>, sep: Seq<u8>)
        ensures
            self.stream_output(before.push(chunk), sep) == self.stream_output(before, sep)
                + self.chunk_output(split(chunk, sep), self.stream_progress(before, sep)),
            self.stream_progress(before.push(chunk), sep) == self.chunk_progress(
                split(chunk, sep),
                self.stream_progress(before, sep),
            ),
    {
        assert(before.push(chunk).drop_last() =~= before);
        match self {
            Splitter::Replace(_) => {},
            Splitter::Indices { indices, .. } => {
                let a = stream_pieces(before, sep);
                let b = split(chunk, sep);
                let ca = chosen(a, indices@, 0);
                let cb = chosen(b, indices@, a.len() as int);
                lemma_chosen_concat(a, b, indices@, 0);
                if a.len() >= ORDINAL_LIMIT {
                    lemma_chosen_beyond(b, indices@, a.len() as int);
                    lemma_chosen_beyond(b, indices@, ORDINAL_LIMIT as int);
                }
                if cb.len() == 0 {
                    assert(ca + cb =~= ca);
                    assert(join(ca, self.joiner()) + Seq::<u8>::empty() =~= join(
                        ca,
                        self.joiner(),
                    ));
                } else if ca.len() == 0 {
                    assert(ca + cb =~= cb);
                    assert(Seq::<u8>::empty() + join(cb, self.joiner()) =~= join(
                        cb,
                        self.joiner(),
                    ));
                } else {
                    lemma_join_concat(ca, cb, self.joiner());
                    assert(join(ca, self.joiner()) + self.joiner() + join(cb, self.joiner())
                        =~= join(ca, self.joiner()) + (self.joiner() + join(
                        cb,
                        self.joiner(),
                    )));
                }
            },
        }
    }
}

/// The selected ones among two runs of pieces, one after the other, are
/// those of the first run followed by those of the second.
pub proof fn lemma_chosen_concat(
    a: Seq<Seq<u8>>,
    b: Seq<Seq<u8>>,
    indices: Set<u32>,
    first: int,
)
    ensures
        chosen(a + b, indices, first) == chosen(a, indices, first) + chosen(
            b,
            indices,
            first + a.len(),
        ),
    decreases b.len(),
{
    if b.len() == 0 {
        assert(a + b =~= a);
        assert(chosen(a, indices, first) + Seq::<Seq<u8>>::empty() =~= chosen(a, indices, first));
    } else {
        assert((a + b).drop_last() =~= a + b.drop_last());
        assert((a + b).last() == b.last());
        lemma_chosen_concat(a, b.drop_last(), indices, first);
        assert(chosen(a + b, indices, first) =~= chosen(a, indices, first) + chosen(
            b,
            indices,
            first + a.len(),
        ));
    }
}

/// No piece with an ordinal of `ORDINAL_LIMIT` or more is selected.
pub proof fn lemma_chosen_beyond(pieces: Seq<Seq<u8>>, indices: Set<u32>, first: int)
    requires
        first >= ORDINAL_LIMIT,
    ensures
        chosen(pieces, indices, first).len() == 0,
    decreases pieces.len(),
{
    if pieces.len() > 0 {
        lemma_chosen_beyond(pieces.drop_last(), indices, first);
    }
}

/// Where every selected ordinal lies beyond the pieces, none is chosen.
pub proof fn lemma_chosen_none(pieces: Seq<Seq<u8>>, indices: Set<u32>)
    requires
        forall|i: u32| indices.contains(i) ==> i >= pieces.len(),
    ensures
        chosen(pieces, indices, 0).len() == 0,
    decreases pieces.len(),
{
    if pieces.len() > 0 {
        lemma_chosen_none(pieces.drop_last(), indices);
    }
}

/// A selection whose every ordinal lies beyond the pieces of the stream
/// writes nothing.
pub proof fn lemma_out_of_reach(splitter: Splitter, chunks: Seq<Seq<u8>>, sep: Seq<u8>)
    requires
        splitter matches Splitter::Indices { indices, .. } && forall|i: u32|
            indices@.contains(i) ==> i >= stream_pieces(chunks, sep).len(),
    ensures
        splitter.stream_output(chunks, sep) == Seq::<u8>::empty(),
{
    match splitter {
        Splitter::Indices { indices, .. } => {
            lemma_chosen_none(stream_pieces(chunks, sep), indices@);
            assert(chosen(stream_pieces(chunks, sep), indices@, 0) =~= Seq::<Seq<u8>>::empty());
        },
        Splitter::Replace(_) => {},
    }
}

/// An empty stream has no chunk, and nothing is written for it.
pub proof fn lemma_empty_stream(splitter: Splitter, sep: Seq<u8>)
    ensures
        chunks(Seq::<u8>::empty()).len() == 0,
        splitter.stream_output(chunks(Seq::<u8>::empty()), sep) == Seq::<u8>::empty(),
{
    let none = chunks(Seq::<u8>::empty());
    assert(stream_pieces(none, sep).len() == 0);
}

/// A stream that fits in one chunk is split as a whole: every piece is
/// joined, or the chosen ones are.
pub proof fn lemma_short_stream(splitter: Splitter, input: Seq<u8>, sep: Seq<u8>)
    requires
        0 < input.len() <= CHUNK_SIZE,
    ensures
        chunks(input) == seq![input],
        splitter.stream_output(chunks(input), sep) == match splitter {
            Splitter::Replace(_) => join(split(input, sep), splitter.joiner()),
            Splitter::Indices { indices, .. } => join(
                chosen(split(input, sep), indices@, 0),
                splitter.joiner(),
            ),
        },
{
    let all = chunks(input);
    assert(all.len() == 1);
    assert(all[0] =~= input);
    assert(all =~= seq![input]);
    let none = all.drop_last();
    assert(none.len() == 0);
    assert(all.last() == input);
    assert(stream_pieces(none, sep) =~= Seq::<Seq<u8>>::empty());
    assert(stream_pieces(all, sep) =~= split(input, sep));
    assert(rejoined(none, sep, splitter.joiner()) =~= Seq::<u8>::empty());
    assert(rejoined(all, sep, splitter.joiner()) =~= join(split(input, sep), splitter.joiner()));
}

proof fn lemma_rejoined_prefix(input: Seq<u8>, sep: Seq<u8>, joiner: Seq<u8>, k: int)
    requires
        0 <= k <= chunks(input).len(),
        forall|j: int|
            0 <= j < chunks(input).len() ==> join(split(#[trigger] chunks(input)[j], sep), joiner)
                == chunks(input)[j],
    ensures
        rejoined(chunks(input).take(k), sep, joiner) == input.take(
            if k * CHUNK_SIZE < input.len() {
                k * CHUNK_SIZE
            } else {
                input.len() as int
            },
        ),
    decreases k,
{
    let all = chunks(input);
    if k == 0 {
        assert(rejoined(all.take(0), sep, joiner) =~= input.take(0));
    } else {
        lemma_rejoined_prefix(input, sep, joiner, k - 1);
        assert(all.take(k).drop_last() =~= all.take(k - 1));
        assert(all.take(k).last() == all[k - 1]);
        let end = if k * CHUNK_SIZE < input.len() {
            k * CHUNK_SIZE
        } else {
            input.len() as int
        };
        assert(input.take((k - 1) * CHUNK_SIZE) + input.subrange((k - 1) * CHUNK_SIZE, end)
            =~= input.take(end));
    }
}

/// Replacing the separator by itself gives the stream back.
pub proof fn lemma_same_joiner(splitter: Splitter, input: Seq<u8>, sep: Seq<u8>)
    requires
        splitter is Replace,
        splitter.joiner() == sep,
    ensures
        splitter.stream_output(chunks(input), sep) == input,
{
    let all = chunks(input);
    assert forall|j: int| 0 <= j < all.len() implies join(split(#[trigger] all[j], sep), sep)
        == all[j] by {
        lemma_join_split(all[j], sep);
    }
    lemma_rejoined_prefix(input, sep, sep, all.len() as int);
    assert(all.take(all.len() as int) =~= all);
    assert(all.len() * CHUNK_SIZE >= input.len());
    assert(input.take(input.len() as int) =~= input);
}

/// A stream in which the separator does not occur comes out unchanged
/// when every piece is kept.
pub proof fn lemma_absent_separator(splitter: Splitter, input: Seq<u8>, sep: Seq<u8>)
    requires
        splitter is Replace,
        forall|i: int| !occurs_at(input, sep, i),
    ensures
        splitter.stream_output(chunks(input), sep) == input,
{
    let all = chunks(input);
    let joiner = splitter.joiner();
    if sep.len() == 0 {
        assert(input.subrange(input.len() as int, input.len() as int + sep.len()) =~= sep);
        assert(occurs_at(input, sep, input.len() as int));
    }
    assert forall|j: int| 0 <= j < all.len() implies join(split(#[trigger] all[j], sep), joiner)
        == all[j] by {
        let chunk = all[j];
        assert forall|i: int| !occurs_at(chunk, sep, i) by {
            if occurs_at(chunk, sep, i) {
                let at = j * CHUNK_SIZE + i;
                assert(input.subrange(at, at + sep.len()) =~= chunk.subrange(i, i + sep.len()));
                assert(occurs_at(input, sep, at));
            }
        }
        lemma_split_absent(chunk, sep);
    }
    lemma_rejoined_prefix(input, sep, joiner, all.len() as int);
    assert(all.take(all.len() as int) =~= all);
    assert(all.len() * CHUNK_SIZE >= input.len());
    assert(input.take(input.len() as int) =~= input);
}

/// `std::str::from_utf8`, asked only whether it accepts the bytes: it does
/// so exactly when they are well-formed UTF-8.
#[verifier::external_body]
fn is_utf8(bytes: &[u8]) -> (ok: bool)
    ensures
        ok == valid_utf8(bytes@),
{
    std::str::from_utf8(bytes).is_ok()
}

/// Appends `bytes` to `output`.
fn append(output: &mut Vec<u8>, bytes: &[u8])
    ensures
        final(output)@ == old(output)@ + bytes@,
{
    let mut i: usize = 0;
    while i < bytes.len()
        invariant
            i <= bytes.len(),
            output@ == old(output)@ + bytes@.take(i as int),
        decreases bytes.len() - i,
    {
        output.push(bytes[i]);
        assert(bytes@.take(i + 1) =~= bytes@.take(i as int).push(bytes@[i as int]));
        i += 1;
    }
    assert(bytes@.take(i as int) =~= bytes@);
}

/// Appends every piece to `output`, with `joiner` between neighbours.
fn write_all(pieces: &Vec<Vec<u8>>, joiner: &[u8], output: &mut Vec<u8>)
    ensures
        final(output)@ == old(output)@ + join(views(pieces@), joiner@),
{
    let ghost all = views(pieces@);
    let mut j: usize = 0;
    while j < pieces.len()
        invariant
            j <= pieces.len(),
            all == views(pieces@),
            output@ == old(output)@ + join(all.take(j as int), joiner@),
        decreases pieces.len() - j,
    {
        proof {
            assert(all.take(j + 1).drop_last() =~= all.take(j as int));
            assert(all.take(j + 1).last() == pieces@[j as int]@);
        }
        if j > 0 {
            append(output, joiner);
        }
        append(output, pieces[j].as_slice());
        j += 1;
    }
    assert(all.take(j as int) =~= all);
}

/// Appends the selected pieces to `output`, each behind `joiner` but the
/// first that the stream writes, and counts the pieces.
fn write_chosen(
    pieces: &Vec<Vec<u8>>,
    indices: &HashSet<u32>,
    joiner: &[u8],
    progress: &mut Progress,
    output: &mut Vec<u8>,
)
    requires
        old(progress).wf(),
    ensures
        final(progress).wf(),
        final(output)@ == old(output)@ + continued(
            chosen(views(pieces@), indices@, old(progress).seen as int),
            joiner@,
            old(progress).wrote,
        ),
        final(progress).seen == saturate(old(progress).seen as int + pieces.len()),
        final(progress).wrote == (old(progress).wrote || chosen(
            views(pieces@),
            indices@,
            old(progress).seen as int,
        ).len() > 0),
{
    let ghost all = views(pieces@);
    let ghost first: int = old(progress).seen as int;
    let mut j: usize = 0;
    while j < pieces.len()
        invariant
            j <= pieces.len(),
            all == views(pieces@),
            first == old(progress).seen,
            first <= ORDINAL_LIMIT,
            progress.seen == saturate(first + j),
            progress.wrote == (old(progress).wrote || chosen(
                all.take(j as int),
                indices@,
                first,
            ).len() > 0),
            output@ == old(output)@ + continued(
                chosen(all.take(j as int), indices@, first),
                joiner@,
                old(progress).wrote,
            ),
        decreases pieces.len() - j,
    {
        proof {
            assert(all.take(j + 1).drop_last() =~= all.take(j as int));
            assert(all.take(j + 1).last() == pieces@[j as int]@);
        }
        if progress.seen < ORDINAL_LIMIT {
            let ordinal: u32 = progress.seen as u32;
            if indices.contains(&ordinal) {
                let ghost so_far = chosen(all.take(j as int), indices@, first);
                if progress.wrote {
                    append(output, joiner);
                } else {
                    progress.wrote = true;
                }
                append(output, pieces[j].as_slice());
                proof {
                    let now = so_far.push(pieces@[j as int]@);
                    assert(now.drop_last() =~= so_far);
                    assert(output@ =~= old(output)@ + continued(
                        now,
                        joiner@,
                        old(progress).wrote,
                    ));
                }
            }
            progress.seen = progress.seen + 1;
        }
        j += 1;
    }
    assert(all.take(j as int) =~= all);
}

} // verus!
