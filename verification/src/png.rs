//! The whole-file container: a fixed 8-byte signature followed by an ordered
//! chunk sequence, with parse, serialize, append, lookup and remove.

use vstd::prelude::*;
use vstd::slice::slice_subrange;
use vstd::string::StringSliceAdditionalSpecFns;

use crate::chunk::{
    spec_be32, spec_chunk_bytes, spec_chunk_decode, spec_u32_to_be, Chunk, ChunkRep, chunk_rep_wf,
};
use crate::chunk_type::{tag_bytes_ok, ChunkType};
use crate::ChunkError;

verus! {

/// The fixed 8-byte signature that opens every container.
pub open spec fn spec_signature() -> Seq<u8> {
    seq![137u8, 80u8, 78u8, 71u8, 13u8, 10u8, 26u8, 10u8]
}

/// The signature as owned bytes.
pub fn signature() -> (r: Vec<u8>)
    ensures
        r@ == spec_signature(),
{
    let mut r: Vec<u8> = Vec::new();
    r.push(137);
    r.push(80);
    r.push(78);
    r.push(71);
    r.push(13);
    r.push(10);
    r.push(26);
    r.push(10);
    proof {
        assert(r@ =~= spec_signature());
    }
    r
}

/// The views of a sequence of chunks.
pub open spec fn views_of(cs: Seq<Chunk>) -> Seq<ChunkRep> {
    cs.map_values(|c: Chunk| c@)
}

/// The serialized bytes of a chunk sequence, in order.
pub open spec fn spec_chunks_bytes(cs: Seq<ChunkRep>) -> Seq<u8>
    decreases cs.len(),
{
    if cs.len() == 0 {
        Seq::empty()
    } else {
        spec_chunk_bytes(cs[0]) + spec_chunks_bytes(cs.drop_first())
    }
}

/// The serialized bytes of a whole container.
pub open spec fn spec_png_bytes(cs: Seq<ChunkRep>) -> Seq<u8> {
    spec_signature() + spec_chunks_bytes(cs)
}

/// How many leading bytes the next chunk claims: its declared length plus 12
/// where that fits in the buffer, otherwise everything that is left (whose
/// decoding then reports why it is malformed).
pub open spec fn chunk_span(b: Seq<u8>) -> int {
    if b.len() >= 4 && b.len() >= spec_be32(b.subrange(0, 4)) + 12 {
        spec_be32(b.subrange(0, 4)) + 12
    } else {
        b.len() as int
    }
}

/// Decoding chunks one after the other until the buffer is exhausted; the
/// first malformed chunk aborts the whole parse.
pub open spec fn spec_parse_chunks(b: Seq<u8>) -> Result<Seq<ChunkRep>, ChunkError>
    decreases b.len(),
{
    if b.len() == 0 {
        Ok(Seq::empty())
    } else {
        match spec_chunk_decode(b.subrange(0, chunk_span(b))) {
            Ok(c) => match spec_parse_chunks(b.skip(chunk_span(b))) {
                Ok(rest) => Ok(seq![c] + rest),
                Err(e) => Err(e),
            },
            Err(e) => Err(e),
        }
    }
}

/// Parsing a whole container: the signature first, then every chunk.
pub open spec fn spec_png_parse(b: Seq<u8>) -> Result<Seq<ChunkRep>, ChunkError> {
    if b.len() < 8 || b.subrange(0, 8) != spec_signature() {
        Err(ChunkError::InvalidSignature)
    } else {
        spec_parse_chunks(b.skip(8))
    }
}

/// The first chunk carrying `tag`, scanning in file order.
pub open spec fn spec_lookup(cs: Seq<ChunkRep>, tag: Seq<u8>) -> Option<ChunkRep>
    decreases cs.len(),
{
    if cs.len() == 0 {
        None
    } else if cs[0].tag == tag {
        Some(cs[0])
    } else {
        spec_lookup(cs.drop_first(), tag)
    }
}

/// The sequence with the first chunk carrying `tag` removed, or `None` when
/// no chunk carries it.
pub open spec fn spec_remove_first(cs: Seq<ChunkRep>, tag: Seq<u8>) -> Option<Seq<ChunkRep>>
    decreases cs.len(),
{
    if cs.len() == 0 {
        None
    } else if cs[0].tag == tag {
        Some(cs.drop_first())
    } else {
        match spec_remove_first(cs.drop_first(), tag) {
            Some(rest) => Some(seq![cs[0]] + rest),
            None => None,
        }
    }
}

/// How many chunks carry `tag`.
pub open spec fn spec_tag_count(cs: Seq<ChunkRep>, tag: Seq<u8>) -> nat
    decreases cs.len(),
{
    if cs.len() == 0 {
        0
    } else {
        (if cs[0].tag == tag {
            1nat
        } else {
            0nat
        }) + spec_tag_count(cs.drop_first(), tag)
    }
}

/// The container: the fixed signature (implicit) plus an ordered chunk
/// sequence, preserved on serialization except where explicitly mutated.
#[derive(Debug, Clone, PartialEq, Eq)]
pub struct Png {
    chunks: Vec<Chunk>,
}

impl View for Png {
    type V = Seq<ChunkRep>;

    closed spec fn view(&self) -> Seq<ChunkRep> {
        views_of(self.chunks@)
    }
}

impl Png {
    /// Well-formed: every held chunk is well-formed.
    pub open spec fn wf(&self) -> bool {
        forall|i: int| 0 <= i < self@.len() ==> chunk_rep_wf(#[trigger] self@[i])
    }

    /// Builds a container around an explicit chunk list.
    pub fn from_chunks(chunks: Vec<Chunk>) -> (r: Png)
        ensures
            r@ == views_of(chunks@),
    {
        Png { chunks }
    }

    /// Appends a chunk at the end of the sequence.
    pub fn append_chunk(&mut self, chunk: Chunk)
        ensures
            final(self)@ == old(self)@.push(chunk@),
    {
        self.chunks.push(chunk);
        proof {
            assert(views_of(self.chunks@) =~= views_of(old(self).chunks@).push(chunk@));
        }
    }

    /// The chunks, read-only, in file order.
    pub fn chunks(&self) -> (r: &[Chunk])
        ensures
            views_of(r@) == self@,
    {
        self.chunks.as_slice()
    }

    /// Serializes the container: the signature, then every chunk's bytes in
    /// list order.
    pub fn as_bytes(&self) -> (r: Vec<u8>)
        requires
            self.wf(),
        ensures
            r@ == spec_png_bytes(self@),
    {
        let mut out = signature();
        proof {
            assert(self@.subrange(0, 0) =~= Seq::<ChunkRep>::empty());
            assert(out@ =~= spec_signature() + spec_chunks_bytes(self@.subrange(0, 0)));
        }
        let mut i: usize = 0;
        while i < self.chunks.len()
            invariant
                i <= self@.len(),
                self.wf(),
                self@.len() == self.chunks@.len(),
                out@ == spec_signature() + spec_chunks_bytes(self@.subrange(0, i as int)),
            decreases self@.len() - i,
        {
            let c: &Chunk = &self.chunks[i];
            proof {
                assert(c@ == self@[i as int]);
            }
            let mut cb = c.as_bytes();
            out.append(&mut cb);
            proof {
                lemma_chunks_bytes_snoc(self@.subrange(0, i as int), self@[i as int]);
                assert(self@.subrange(0, i as int).push(self@[i as int]) =~= self@.subrange(
                    0,
                    i as int + 1,
                ));
            }
            i += 1;
        }
        proof {
            assert(self@.subrange(0, self@.len() as int) =~= self@);
        }
        out
    }

    /// Parses a complete byte buffer: the signature is checked first, then
    /// every chunk is decoded up front; the first malformed chunk aborts.
    pub fn parse(bytes: &[u8]) -> (r: Result<Png, ChunkError>)
        ensures
            r matches Ok(p) ==> spec_png_parse(bytes@) == Ok::<Seq<ChunkRep>, ChunkError>(p@)
                && p.wf(),
            r matches Err(e) ==> spec_png_parse(bytes@) == Err::<Seq<ChunkRep>, ChunkError>(e),
    {
        let n = bytes.len();
        if n < 8 {
            return Err(ChunkError::InvalidSignature);
        }
        let sig = signature();
        let mut k: usize = 0;
        while k < 8
            invariant
                k <= 8,
                n == bytes@.len(),
                n >= 8,
                sig@ == spec_signature(),
                forall|j: int| 0 <= j < k ==> bytes@[j] == spec_signature()[j],
            decreases 8 - k,
        {
            if bytes[k] != sig[k] {
                proof {
                    assert(bytes@.subrange(0, 8)[k as int] != spec_signature()[k as int]);
                }
                return Err(ChunkError::InvalidSignature);
            }
            k += 1;
        }
        proof {
            assert(bytes@.subrange(0, 8) =~= spec_signature());
        }
        let mut chunks: Vec<Chunk> = Vec::new();
        let mut pos: usize = 8;
        proof {
            assert(views_of(chunks@) =~= Seq::<ChunkRep>::empty());
        }
        while pos < n
            invariant
                8 <= pos <= n,
                n == bytes@.len(),
                bytes@.subrange(0, 8) == spec_signature(),
                forall|j: int|
                    0 <= j < views_of(chunks@).len() ==> chunk_rep_wf(
                        #[trigger] views_of(chunks@)[j],
                    ),
                match spec_parse_chunks(bytes@.skip(pos as int)) {
                    Ok(rest) => spec_parse_chunks(bytes@.skip(8)) == Ok::<
                        Seq<ChunkRep>,
                        ChunkError,
                    >(views_of(chunks@) + rest),
                    Err(e) => spec_parse_chunks(bytes@.skip(8)) == Err::<
                        Seq<ChunkRep>,
                        ChunkError,
                    >(e),
                },
            decreases n - pos,
        {
            let ghost s = bytes@.skip(pos as int);
            let rem = n - pos;
            let take: usize;
            if rem >= 4 {
                let len = crate::chunk::be32_at(bytes, pos);
                proof {
                    assert(bytes@.subrange(pos as int, pos as int + 4) =~= s.subrange(0, 4));
                }
                if (rem as u64) >= (len as u64) + 12 {
                    take = (len as usize) + 12;
                    proof {
                        assert(take as int == chunk_span(s));
                    }
                } else {
                    take = rem;
                    proof {
                        assert(take as int == chunk_span(s));
                    }
                }
            } else {
                take = rem;
                proof {
                    assert(take as int == chunk_span(s));
                }
            }
            let piece = slice_subrange(bytes, pos, pos + take);
            proof {
                assert(piece@ =~= s.subrange(0, chunk_span(s)));
            }
            match Chunk::decode(piece) {
                Ok(c) => {
                    let ghost prev = chunks@;
                    chunks.push(c);
                    proof {
                        assert(views_of(chunks@) =~= views_of(prev).push(c@));
                        assert(s.skip(chunk_span(s)) =~= bytes@.skip(pos as int + take as int));
                        match spec_parse_chunks(bytes@.skip(pos as int + take as int)) {
                            Ok(r2) => {
                                assert(spec_parse_chunks(s) == Ok::<Seq<ChunkRep>, ChunkError>(
                                    seq![c@] + r2,
                                ));
                                assert(views_of(prev) + (seq![c@] + r2) =~= views_of(chunks@)
                                    + r2);
                            },
                            Err(e2) => {
                                assert(spec_parse_chunks(s) == Err::<Seq<ChunkRep>, ChunkError>(
                                    e2,
                                ));
                            },
                        }
                    }
                },
                Err(e) => {
                    return Err(e);
                },
            }
            pos += take;
        }
        proof {
            assert(bytes@.skip(n as int) =~= Seq::<u8>::empty());
            assert(views_of(chunks@) + Seq::<ChunkRep>::empty() =~= views_of(chunks@));
        }
        Ok(Png { chunks })
    }

    /// The first chunk whose tag bytes equal the UTF-8 bytes of `tag_text`,
    /// or `None` when no chunk matches; text that is no valid tag matches
    /// nothing.
    pub fn chunk_by_type(&self, tag_text: &str) -> (r: Option<&Chunk>)
        requires
            self.wf(),
        ensures
            r matches Some(c) ==> spec_lookup(self@, tag_text.spec_bytes()) == Some(c@),
            r is None ==> spec_lookup(self@, tag_text.spec_bytes()) is None,
    {
        let tag = match ChunkType::from_text(tag_text) {
            Ok(t) => t,
            Err(_) => {
                proof {
                    lemma_no_wf_chunk_has_bad_tag(self@, tag_text.spec_bytes());
                }
                return None;
            },
        };
        let ghost q = tag_text.spec_bytes();
        let mut i: usize = 0;
        proof {
            assert(self@.skip(0) =~= self@);
        }
        while i < self.chunks.len()
            invariant
                i <= self@.len(),
                self@.len() == self.chunks@.len(),
                tag@ == q,
                q == tag_text.spec_bytes(),
                spec_lookup(self@, q) == spec_lookup(self@.skip(i as int), q),
            decreases self@.len() - i,
        {
            let c: &Chunk = &self.chunks[i];
            proof {
                assert(c@ == self@[i as int]);
            }
            if c.chunk_type().matches(&tag) {
                proof {
                    assert(self@.skip(i as int)[0] == self@[i as int]);
                }
                return Some(c);
            }
            proof {
                assert(self@.skip(i as int)[0] == self@[i as int]);
                assert(self@.skip(i as int).drop_first() =~= self@.skip(i as int + 1));
            }
            i += 1;
        }
        proof {
            assert(self@.skip(self@.len() as int) =~= Seq::<ChunkRep>::empty());
        }
        None
    }

    /// Removes the first chunk whose tag bytes equal the UTF-8 bytes of
    /// `tag_text`. Text that is no valid tag fails with `InvalidTagBytes`;
    /// a valid tag that no chunk carries fails with `ChunkNotFound`; either
    /// way the sequence is left unchanged.
    pub fn remove_chunk(&mut self, tag_text: &str) -> (r: Result<(), ChunkError>)
        ensures
            !tag_bytes_ok(tag_text.spec_bytes()) ==> r == Err::<(), ChunkError>(
                ChunkError::InvalidTagBytes,
            ) && final(self)@ == old(self)@,
            tag_bytes_ok(tag_text.spec_bytes()) ==> match spec_remove_first(
                old(self)@,
                tag_text.spec_bytes(),
            ) {
                Some(rest) => r == Ok::<(), ChunkError>(()) && final(self)@ == rest,
                None => r == Err::<(), ChunkError>(ChunkError::ChunkNotFound) && final(self)@
                    == old(self)@,
            },
    {
        let tag = match ChunkType::from_text(tag_text) {
            Ok(t) => t,
            Err(e) => {
                return Err(e);
            },
        };
        let ghost q = tag_text.spec_bytes();
        let mut i: usize = 0;
        while i < self.chunks.len()
            invariant
                i <= self@.len(),
                self@.len() == self.chunks@.len(),
                self == old(self),
                tag@ == q,
                q == tag_text.spec_bytes(),
                tag_bytes_ok(q),
                forall|j: int| 0 <= j < i ==> (#[trigger] self@[j]).tag != q,
            decreases self@.len() - i,
        {
            let c: &Chunk = &self.chunks[i];
            proof {
                assert(c@ == self@[i as int]);
            }
            if c.chunk_type().matches(&tag) {
                proof {
                    assert(self@[i as int].tag == q);
                    lemma_remove_first_at(self@, q, i as int);
                }
                self.chunks.remove(i);
                proof {
                    assert(views_of(self.chunks@) =~= views_of(old(self).chunks@).remove(
                        i as int,
                    ));
                }
                return Ok(());
            }
            i += 1;
        }
        proof {
            lemma_no_match_remove_none(self@, q);
        }
        Err(ChunkError::ChunkNotFound)
    }
}

/// Serializing a chunk list and one more chunk appends that chunk's bytes.
pub proof fn lemma_chunks_bytes_snoc(cs: Seq<ChunkRep>, c: ChunkRep)
    ensures
        spec_chunks_bytes(cs.push(c)) == spec_chunks_bytes(cs) + spec_chunk_bytes(c),
    decreases cs.len(),
{
    if cs.len() == 0 {
        assert(cs.push(c)[0] == c);
        assert(cs.push(c).drop_first() =~= Seq::<ChunkRep>::empty());
        assert(spec_chunks_bytes(cs.push(c)) == spec_chunk_bytes(c) + spec_chunks_bytes(
            Seq::<ChunkRep>::empty(),
        ));
        assert(spec_chunks_bytes(cs.push(c)) =~= spec_chunks_bytes(cs) + spec_chunk_bytes(c));
    } else {
        assert(cs.push(c)[0] == cs[0]);
        assert(cs.push(c).drop_first() =~= cs.drop_first().push(c));
        lemma_chunks_bytes_snoc(cs.drop_first(), c);
        assert(spec_chunks_bytes(cs.push(c)) == spec_chunk_bytes(cs[0]) + spec_chunks_bytes(
            cs.drop_first().push(c),
        ));
        assert(spec_chunks_bytes(cs) == spec_chunk_bytes(cs[0]) + spec_chunks_bytes(
            cs.drop_first(),
        ));
        assert(spec_chunks_bytes(cs.push(c)) =~= spec_chunks_bytes(cs) + spec_chunk_bytes(c));
    }
}

/// Parsing back a serialized chunk list yields the list, chunk for chunk.
pub proof fn lemma_parse_chunks_round_trip(cs: Seq<ChunkRep>)
    requires
        forall|i: int| 0 <= i < cs.len() ==> chunk_rep_wf(#[trigger] cs[i]),
    ensures
        spec_parse_chunks(spec_chunks_bytes(cs)) == Ok::<Seq<ChunkRep>, ChunkError>(cs),
    decreases cs.len(),
{
    let b = spec_chunks_bytes(cs);
    if cs.len() == 0 {
        assert(cs =~= Seq::<ChunkRep>::empty());
    } else {
        let c0 = cs[0];
        assert(chunk_rep_wf(c0));
        let cb = spec_chunk_bytes(c0);
        let rest = spec_chunks_bytes(cs.drop_first());
        crate::chunk::lemma_be32_round_trip(c0.data.len() as u32);
        assert(b.subrange(0, 4) =~= spec_u32_to_be(c0.data.len() as u32));
        assert(chunk_span(b) == c0.data.len() + 12);
        assert(b.subrange(0, chunk_span(b)) =~= cb);
        crate::chunk::lemma_chunk_round_trip(c0);
        assert(b.skip(chunk_span(b)) =~= rest);
        assert(forall|i: int|
            0 <= i < cs.drop_first().len() ==> chunk_rep_wf(#[trigger] cs.drop_first()[i]));
        lemma_parse_chunks_round_trip(cs.drop_first());
        assert(seq![c0] + cs.drop_first() =~= cs);
    }
}

/// Container round trip: parsing back a serialized container of well-formed
/// chunks yields the same chunk sequence under the same signature.
pub proof fn lemma_png_round_trip(cs: Seq<ChunkRep>)
    requires
        forall|i: int| 0 <= i < cs.len() ==> chunk_rep_wf(#[trigger] cs[i]),
    ensures
        spec_png_parse(spec_png_bytes(cs)) == Ok::<Seq<ChunkRep>, ChunkError>(cs),
{
    let b = spec_png_bytes(cs);
    assert(b.subrange(0, 8) =~= spec_signature());
    assert(b.skip(8) =~= spec_chunks_bytes(cs));
    lemma_parse_chunks_round_trip(cs);
}

/// Appending a chunk whose tag no present chunk carries, then looking that
/// tag up, finds exactly the appended chunk.
pub proof fn lemma_append_then_lookup(cs: Seq<ChunkRep>, c: ChunkRep)
    requires
        forall|i: int| 0 <= i < cs.len() ==> (#[trigger] cs[i]).tag != c.tag,
    ensures
        spec_lookup(cs.push(c), c.tag) == Some(c),
    decreases cs.len(),
{
    if cs.len() == 0 {
        assert(cs.push(c)[0] == c);
    } else {
        assert(cs.push(c)[0] == cs[0]);
        assert(cs.push(c).drop_first() =~= cs.drop_first().push(c));
        assert(forall|i: int|
            0 <= i < cs.drop_first().len() ==> (#[trigger] cs.drop_first()[i]).tag != c.tag);
        lemma_append_then_lookup(cs.drop_first(), c);
    }
}

/// Where no chunk carries the tag, lookup finds nothing.
pub proof fn lemma_count_zero_lookup_none(cs: Seq<ChunkRep>, tag: Seq<u8>)
    requires
        spec_tag_count(cs, tag) == 0,
    ensures
        spec_lookup(cs, tag) is None,
    decreases cs.len(),
{
    if cs.len() > 0 {
        lemma_count_zero_lookup_none(cs.drop_first(), tag);
    }
}

/// Removing a tag present exactly once: the removal succeeds, shortens the
/// sequence by exactly one, and a subsequent lookup of that tag finds
/// nothing.
pub proof fn lemma_remove_unique_tag(cs: Seq<ChunkRep>, tag: Seq<u8>)
    requires
        spec_tag_count(cs, tag) == 1,
    ensures
        spec_remove_first(cs, tag) matches Some(rest) && rest.len() == cs.len() - 1
            && spec_lookup(rest, tag) is None,
    decreases cs.len(),
{
    if cs[0].tag == tag {
        lemma_count_zero_lookup_none(cs.drop_first(), tag);
    } else {
        lemma_remove_unique_tag(cs.drop_first(), tag);
        match spec_remove_first(cs.drop_first(), tag) {
            Some(rest1) => {
                assert((seq![cs[0]] + rest1)[0] == cs[0]);
                assert((seq![cs[0]] + rest1).drop_first() =~= rest1);
            },
            None => {
                assert(false);
            },
        }
    }
}

/// A tag that is not 4 ASCII letters is carried by no well-formed chunk.
proof fn lemma_no_wf_chunk_has_bad_tag(cs: Seq<ChunkRep>, tag: Seq<u8>)
    requires
        !tag_bytes_ok(tag),
        forall|i: int| 0 <= i < cs.len() ==> chunk_rep_wf(#[trigger] cs[i]),
    ensures
        spec_lookup(cs, tag) is None,
    decreases cs.len(),
{
    if cs.len() > 0 {
        assert(chunk_rep_wf(cs[0]));
        assert(forall|i: int|
            0 <= i < cs.drop_first().len() ==> chunk_rep_wf(#[trigger] cs.drop_first()[i]));
        lemma_no_wf_chunk_has_bad_tag(cs.drop_first(), tag);
    }
}

/// Where no chunk carries the tag, removal finds nothing.
proof fn lemma_no_match_remove_none(cs: Seq<ChunkRep>, tag: Seq<u8>)
    requires
        forall|i: int| 0 <= i < cs.len() ==> (#[trigger] cs[i]).tag != tag,
    ensures
        spec_remove_first(cs, tag) is None,
    decreases cs.len(),
{
    if cs.len() > 0 {
        assert(forall|i: int|
            0 <= i < cs.drop_first().len() ==> (#[trigger] cs.drop_first()[i]).tag != tag);
        lemma_no_match_remove_none(cs.drop_first(), tag);
    }
}

/// Removal at the first matching index removes exactly that element.
proof fn lemma_remove_first_at(cs: Seq<ChunkRep>, tag: Seq<u8>, i: int)
    requires
        0 <= i < cs.len(),
        cs[i].tag == tag,
        forall|j: int| 0 <= j < i ==> (#[trigger] cs[j]).tag != tag,
    ensures
        spec_remove_first(cs, tag) == Some(cs.remove(i)),
    decreases cs.len(),
{
    if i == 0 {
        assert(cs.drop_first() =~= cs.remove(0));
    } else {
        assert(forall|j: int|
            0 <= j < i - 1 ==> (#[trigger] cs.drop_first()[j]).tag != tag);
        assert(cs.drop_first()[i - 1].tag == tag);
        lemma_remove_first_at(cs.drop_first(), tag, i - 1);
        assert(seq![cs[0]] + cs.drop_first().remove(i - 1) =~= cs.remove(i));
    }
}

} // verus!
