//! Matching of haystacks that know the chunks in which they lie.
use vstd::prelude::*;

use super::{hits, lemma_chunks_hold_haystack, Matcher, ResolvedChunks, SIMD_CHUNK_BYTES};
use crate::chunks::{chunk_total, claimed_chunk, num_chunks};
use crate::matches::Match;
use crate::pattern::Rule;
use crate::workers::chunk_texts;

verus! {

/// An item whose haystack lies in chunks of [`SIMD_CHUNK_BYTES`] bytes, the last of which is
/// padded. The chunks are found with the help of a context, such as the arena that holds them.
pub trait MatchableChunked: Sized {
    type Ctx;

    /// The length of the haystack, or nothing where the item is to be skipped.
    spec fn byte_len(&self, ctx: Self::Ctx) -> Option<u16>;

    /// A chunk of the haystack.
    spec fn chunk(&self, ctx: Self::Ctx, index: int) -> Seq<u8>;

    /// The number of chunks and of bytes of the haystack, or nothing where the item is to be
    /// skipped.
    fn haystack_info(&self, ctx: &Self::Ctx) -> (out: Option<(usize, u16)>)
        ensures
            match out {
                Some((chunk_count, byte_len)) => {
                    &&& self.byte_len(*ctx) == Some(byte_len)
                    &&& chunk_count == chunk_total(byte_len as int, SIMD_CHUNK_BYTES as int)
                },
                None => self.byte_len(*ctx) is None,
            },
    ;

    /// One of the chunks.
    fn haystack_chunk(&self, ctx: &Self::Ctx, index: usize) -> (out: [u8; SIMD_CHUNK_BYTES])
        requires
            self.byte_len(*ctx) is Some,
            index < chunk_total(self.byte_len(*ctx)->0 as int, SIMD_CHUNK_BYTES as int),
        ensures
            out@ == self.chunk(*ctx, index as int),
    ;
}

/// Chunks that lie with the item itself.
impl<const N: usize> MatchableChunked for ResolvedChunks<N> {
    type Ctx = ();

    open spec fn byte_len(&self, ctx: ()) -> Option<u16> {
        if self.wf() {
            Some(self.byte_len)
        } else {
            None
        }
    }

    open spec fn chunk(&self, ctx: (), index: int) -> Seq<u8> {
        self.chunks@[index]@
    }

    fn haystack_info(&self, ctx: &()) -> (out: Option<(usize, u16)>) {
        if self.chunk_count == num_chunks(self.byte_len as usize, SIMD_CHUNK_BYTES)
            && self.chunk_count <= N {
            Some((self.chunk_count, self.byte_len))
        } else {
            None
        }
    }

    fn haystack_chunk(&self, ctx: &(), index: usize) -> (out: [u8; SIMD_CHUNK_BYTES]) {
        self.chunks[index]
    }
}

/// The text of an item that lies in chunks.
pub open spec fn chunked_text<C: MatchableChunked>(item: C, ctx: C::Ctx) -> Option<Seq<u8>> {
    match item.byte_len(ctx) {
        Some(len) => Some(
            Seq::new(
                len as nat,
                |i: int|
                    item.chunk(ctx, i / SIMD_CHUNK_BYTES as int)[i % SIMD_CHUNK_BYTES as int],
            ),
        ),
        None => None,
    }
}

/// The texts of some items that lie in chunks.
pub open spec fn chunked_texts<C: MatchableChunked>(
    items: Seq<C>,
    ctx: C::Ctx,
) -> Seq<Option<Seq<u8>>> {
    items.map_values(|item: C| chunked_text(item, ctx))
}

/// Gathers the haystack of an item.
fn gather_item<C: MatchableChunked>(
    bytes: &mut Vec<u8>,
    item: &C,
    ctx: &C::Ctx,
    chunk_count: usize,
    byte_len: u16,
)
    requires
        item.byte_len(*ctx) == Some(byte_len),
        chunk_count == chunk_total(byte_len as int, SIMD_CHUNK_BYTES as int),
    ensures
        Some(final(bytes)@) == chunked_text(*item, *ctx),
{
    bytes.clear();
    for c in 0..chunk_count
        invariant
            item.byte_len(*ctx) == Some(byte_len),
            chunk_count == chunk_total(byte_len as int, SIMD_CHUNK_BYTES as int),
            bytes@.len() == c * SIMD_CHUNK_BYTES,
            forall|i: int|
                0 <= i < c * SIMD_CHUNK_BYTES ==> #[trigger] bytes@[i] == item.chunk(
                    *ctx,
                    i / SIMD_CHUNK_BYTES as int,
                )[i % SIMD_CHUNK_BYTES as int],
    {
        let chunk = item.haystack_chunk(ctx, c);
        for k in 0..SIMD_CHUNK_BYTES
            invariant
                chunk@ == item.chunk(*ctx, c as int),
                c < chunk_count,
                chunk_count == chunk_total(byte_len as int, SIMD_CHUNK_BYTES as int),
                bytes@.len() == c * SIMD_CHUNK_BYTES + k,
                forall|i: int|
                    0 <= i < c * SIMD_CHUNK_BYTES + k ==> #[trigger] bytes@[i] == item.chunk(
                        *ctx,
                        i / SIMD_CHUNK_BYTES as int,
                    )[i % SIMD_CHUNK_BYTES as int],
        {
            bytes.push(chunk[k]);
        }
    }
    bytes.truncate(byte_len as usize);
    assert(bytes@ =~= chunked_text(*item, *ctx)->0);
}

impl Matcher {
    /// Appends the matches of some items that lie in chunks, in the order of the items. The
    /// first item has the index `offset`.
    pub fn match_list_chunked_into<C: MatchableChunked>(
        &mut self,
        haystacks: &[C],
        ctx: &C::Ctx,
        offset: u32,
        matches: &mut Vec<Match>,
    )
        requires
            old(self).wf(),
            haystacks@.len() + offset <= u32::MAX,
        ensures
            final(self).wf(),
            final(self).rules() == old(self).rules(),
            final(self).configuration() == old(self).configuration(),
            final(matches)@ == old(matches)@ + hits(
                old(self).rules(),
                chunked_texts(haystacks@, *ctx),
                offset as int,
            ),
    {
        let ghost texts = chunked_texts(haystacks@, *ctx);
        let ghost rules = self.rules();
        let mut bytes: Vec<u8> = Vec::new();
        assert(hits(rules, texts.take(0), offset as int) =~= Seq::empty());
        for i in 0..haystacks.len()
            invariant
                self.wf(),
                haystacks@.len() + offset <= u32::MAX,
                self.rules() == rules,
                rules == old(self).rules(),
                texts == chunked_texts(haystacks@, *ctx),
                self.configuration() == old(self).configuration(),
                matches@ == old(matches)@ + hits(rules, texts.take(i as int), offset as int),
        {
            proof {
                assert(texts.take(i + 1).drop_last() =~= texts.take(i as int));
                assert(texts.take(i + 1).last() == chunked_text(haystacks@[i as int], *ctx));
            }
            let item = &haystacks[i];
            if let Some((chunk_count, byte_len)) = item.haystack_info(ctx) {
                gather_item(&mut bytes, item, ctx, chunk_count, byte_len);
                if let Some((score, exact)) = self.match_one(bytes.as_slice()) {
                    matches.push(Match { index: offset + i as u32, score, exact });
                }
            }
            assert(matches@ =~= old(matches)@ + hits(rules, texts.take(i + 1), offset as int));
        }
        assert(texts.take(haystacks@.len() as int) =~= texts);
    }

    /// Matches the chunk of the list that a worker has claimed, its haystacks in chunks of their
    /// own, and appends the matches. Without such a chunk there is nothing left to do.
    pub fn match_chunk_chunked_into<C: MatchableChunked>(
        &mut self,
        haystacks: &[C],
        ctx: &C::Ctx,
        chunk_idx: usize,
        chunk_size: usize,
        matches: &mut Vec<Match>,
    ) -> (out: bool)
        requires
            old(self).wf(),
            chunk_size > 0,
            haystacks@.len() <= u32::MAX,
        ensures
            final(self).wf(),
            final(self).rules() == old(self).rules(),
            final(self).configuration() == old(self).configuration(),
            out == (chunk_idx < chunk_total(haystacks@.len() as int, chunk_size as int)),
            final(matches)@ == if out {
                old(matches)@ + hits(
                    old(self).rules(),
                    chunk_texts(
                        chunked_texts(haystacks@, *ctx),
                        chunk_size as int,
                        chunk_idx as int,
                    ),
                    chunk_idx * chunk_size,
                )
            } else {
                old(matches)@
            },
    {
        match claimed_chunk(chunk_idx, haystacks.len(), chunk_size) {
            Some((start, end)) => {
                let chunk = vstd::slice::slice_subrange(haystacks, start, end);
                assert(chunked_texts(chunk@, *ctx) =~= chunk_texts(
                    chunked_texts(haystacks@, *ctx),
                    chunk_size as int,
                    chunk_idx as int,
                ));
                self.match_list_chunked_into(chunk, ctx, start as u32, matches);
                true
            },
            None => false,
        }
    }
}

/// An item whose chunks were cut from a haystack has the haystack for its text: chunk `c` holds the
/// bytes of the haystack from place `16 * c` on, as far as they go.
pub proof fn lemma_chunked_item_holds_haystack<C: MatchableChunked>(
    item: C,
    ctx: C::Ctx,
    haystack: Seq<u8>,
)
    requires
        item.byte_len(ctx) is Some,
        item.byte_len(ctx)->0 == haystack.len(),
        forall|c: int, k: int|
            #![trigger item.chunk(ctx, c)[k]]
            0 <= c && 0 <= k < 16 && 16 * c + k < haystack.len() ==> item.chunk(ctx, c)[k]
                == haystack[16 * c + k],
    ensures
        chunked_text(item, ctx) == Some(haystack),
{
    let text = chunked_text(item, ctx)->0;
    assert forall|i: int| 0 <= i < haystack.len() implies #[trigger] text[i] == haystack[i] by {
        assert(item.chunk(ctx, i / 16)[i % 16] == haystack[16 * (i / 16) + i % 16]);
    }
    assert(text =~= haystack);
}

/// Items and haystacks match alike: a list of items whose chunks were cut from haystacks has the
/// hits of the list of the haystacks.
pub proof fn lemma_chunked_items_match_alike<C: MatchableChunked>(
    rules: Seq<Rule>,
    items: Seq<C>,
    ctx: C::Ctx,
    haystacks: Seq<Seq<u8>>,
    offset: int,
)
    requires
        items.len() == haystacks.len(),
        forall|i: int|
            0 <= i < items.len() ==> {
                &&& (#[trigger] items[i]).byte_len(ctx) is Some
                &&& items[i].byte_len(ctx)->0 == haystacks[i].len()
                &&& forall|c: int, k: int|
                    #![trigger items[i].chunk(ctx, c)[k]]
                    0 <= c && 0 <= k < 16 && 16 * c + k < haystacks[i].len() ==> items[i].chunk(
                        ctx,
                        c,
                    )[k] == haystacks[i][16 * c + k]
            },
    ensures
        hits(rules, chunked_texts(items, ctx), offset) == hits(
            rules,
            haystacks.map_values(|haystack: Seq<u8>| Some(haystack)),
            offset,
        ),
{
    let texts = chunked_texts(items, ctx);
    let wanted = haystacks.map_values(|haystack: Seq<u8>| Some(haystack));
    assert forall|i: int| 0 <= i < texts.len() implies texts[i] == wanted[i] by {
        lemma_chunked_item_holds_haystack(items[i], ctx, haystacks[i]);
    }
    assert(texts =~= wanted);
}

/// Chunks that lie with the item itself are the chunks of its haystack: whatever haystack they were
/// cut from is the text of the item, and there is one whenever there are as many as it takes.
pub proof fn lemma_own_chunks_hold_haystack<const N: usize>(
    item: ResolvedChunks<N>,
    haystack: Seq<u8>,
)
    requires
        item.byte_len == haystack.len(),
        item.chunk_count <= N,
        haystack.len() <= 16 * item.chunk_count < haystack.len() + 16,
        forall|c: int, k: int|
            #![trigger item.chunks@[c]@[k]]
            0 <= c && 0 <= k < 16 && 16 * c + k < haystack.len() ==> item.chunks@[c]@[k]
                == haystack[16 * c + k],
    ensures
        chunked_text(item, ()) == Some(haystack),
        item.text() == haystack,
        item.wf(),
{
    lemma_chunks_hold_haystack(item, haystack);
    assert(item.wf());
    lemma_chunked_item_holds_haystack(item, (), haystack);
}

} // verus!
