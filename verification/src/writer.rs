//! The Chunk Writer: buffers entries, batches them into fixed-size groups,
//! compresses each group, appends it length-prefixed to the data stream,
//! and records word-to-chunk-offset associations in the index.

use vstd::prelude::*;

use crate::entry::{DictionaryEntry, EntryModel, entries_view, DictError};
use crate::index::{IndexEntry, index_view, index_wf, index_get, offsets_bounded, index_insert,
    lemma_index_get_at};
use crate::codec::{write_entries, write_u32_be, write_index};
use crate::compress::{deflate_compress, inflate_of};
use crate::store::{chunk_at, chunk_has_word, entries_with_word, chunks_lookup, store_lookup,
    lemma_chunk_at_append, lemma_eww_concat, lemma_eww_absent, well_chunked,
    lemma_well_chunked_append};
use crate::wire::{enc_entries, enc_index, enc_u32_be, dec_index,
    lemma_dec_enc_entries, lemma_dec_enc_index, le_val, le_bytes, lemma_le_val_le_bytes,
    lemma_le_bytes_len, lemma_pow256_8};

verus! {

/// The fixed batch capacity: a chunk holds at most this many entries.
pub const ENTRIES_PER_CHUNK: usize = 32;

/// All entries of a sequence of written chunks, in write order.
pub open spec fn chunk_concat(chunks: Seq<(u32, Seq<EntryModel>)>) -> Seq<EntryModel>
    decreases chunks.len(),
{
    if chunks.len() == 0 {
        Seq::empty()
    } else {
        chunks[0].1 + chunk_concat(chunks.drop_first())
    }
}

/// A sequence of batches, flattened in order.
pub open spec fn flat_batches(bs: Seq<Seq<EntryModel>>) -> Seq<EntryModel>
    decreases bs.len(),
{
    if bs.len() == 0 {
        Seq::empty()
    } else {
        bs[0] + flat_batches(bs.drop_first())
    }
}

proof fn lemma_concat_flat(chunks: Seq<(u32, Seq<EntryModel>)>, bs: Seq<Seq<EntryModel>>)
    requires
        bs.len() == chunks.len(),
        forall|i: int| 0 <= i < chunks.len() ==> bs[i] == (#[trigger] chunks[i]).1,
    ensures
        chunk_concat(chunks) == flat_batches(bs),
    decreases chunks.len(),
{
    if chunks.len() > 0 {
        let ct = chunks.drop_first();
        let bt = bs.drop_first();
        assert forall|i: int| 0 <= i < ct.len() implies bt[i] == (#[trigger] ct[i]).1 by {
            assert(ct[i] == chunks[i + 1]);
            assert(bt[i] == bs[i + 1]);
        }
        lemma_concat_flat(ct, bt);
        assert(bs[0] == chunks[0].1);
    }
}

/// The offsets of the written chunks that contain `w`, in write order.
pub open spec fn word_chunk_offsets(chunks: Seq<(u32, Seq<EntryModel>)>, w: Seq<char>) -> Seq<u32>
    decreases chunks.len(),
{
    if chunks.len() == 0 {
        Seq::empty()
    } else {
        (if chunk_has_word(chunks[0].1, w) {
            seq![chunks[0].0]
        } else {
            Seq::empty()
        }) + word_chunk_offsets(chunks.drop_first(), w)
    }
}

pub proof fn lemma_chunk_concat_push(chunks: Seq<(u32, Seq<EntryModel>)>, c: (u32, Seq<EntryModel>))
    ensures
        chunk_concat(chunks.push(c)) == chunk_concat(chunks) + c.1,
    decreases chunks.len(),
{
    if chunks.len() == 0 {
        reveal_with_fuel(chunk_concat, 3);
        assert(chunks.push(c)[0] == c);
        assert(chunks.push(c).drop_first() =~= Seq::<(u32, Seq<EntryModel>)>::empty());
        assert(chunk_concat(chunks.push(c)) =~= chunk_concat(chunks) + c.1);
    } else {
        assert(chunks.push(c)[0] == chunks[0]);
        assert(chunks.push(c).drop_first() =~= chunks.drop_first().push(c));
        lemma_chunk_concat_push(chunks.drop_first(), c);
        assert(chunks[0].1 + (chunk_concat(chunks.drop_first()) + c.1) =~= (chunks[0].1
            + chunk_concat(chunks.drop_first())) + c.1);
    }
}

pub proof fn lemma_wco_push(
    chunks: Seq<(u32, Seq<EntryModel>)>,
    c: (u32, Seq<EntryModel>),
    w: Seq<char>,
)
    ensures
        word_chunk_offsets(chunks.push(c), w) == word_chunk_offsets(chunks, w) + (if chunk_has_word(
            c.1,
            w,
        ) {
            seq![c.0]
        } else {
            Seq::<u32>::empty()
        }),
    decreases chunks.len(),
{
    if chunks.len() == 0 {
        reveal_with_fuel(word_chunk_offsets, 3);
        assert(chunks.push(c)[0] == c);
        assert(chunks.push(c).drop_first() =~= Seq::<(u32, Seq<EntryModel>)>::empty());
        assert(word_chunk_offsets(chunks.push(c), w) =~= word_chunk_offsets(chunks, w) + (
        if chunk_has_word(c.1, w) {
            seq![c.0]
        } else {
            Seq::<u32>::empty()
        }));
    } else {
        assert(chunks.push(c)[0] == chunks[0]);
        assert(chunks.push(c).drop_first() =~= chunks.drop_first().push(c));
        lemma_wco_push(chunks.drop_first(), c, w);
        let head = if chunk_has_word(chunks[0].1, w) {
            seq![chunks[0].0]
        } else {
            Seq::<u32>::empty()
        };
        let tailpart = word_chunk_offsets(chunks.drop_first(), w);
        let newpart = if chunk_has_word(c.1, w) {
            seq![c.0]
        } else {
            Seq::<u32>::empty()
        };
        assert(head + (tailpart + newpart) =~= (head + tailpart) + newpart);
    }
}

/// Every offset that `word_chunk_offsets` yields is one of the chunks'
/// offsets, hence below any bound the chunk offsets respect.
pub proof fn lemma_wco_bounded(chunks: Seq<(u32, Seq<EntryModel>)>, w: Seq<char>, bound: u32)
    requires
        forall|i: int| 0 <= i < chunks.len() ==> (#[trigger] chunks[i]).0 < bound,
    ensures
        forall|k: int|
            0 <= k < word_chunk_offsets(chunks, w).len() ==> #[trigger] word_chunk_offsets(
                chunks,
                w,
            )[k] < bound,
    decreases chunks.len(),
{
    if chunks.len() > 0 {
        let tail = chunks.drop_first();
        assert forall|i: int| 0 <= i < tail.len() implies (#[trigger] tail[i]).0 < bound by {
            assert(tail[i] == chunks[i + 1]);
        }
        lemma_wco_bounded(tail, w, bound);
        assert(chunks[0].0 < bound);
        let head = if chunk_has_word(chunks[0].1, w) {
            seq![chunks[0].0]
        } else {
            Seq::<u32>::empty()
        };
        let whole = word_chunk_offsets(chunks, w);
        assert(whole == head + word_chunk_offsets(tail, w));
        assert forall|k: int| 0 <= k < whole.len() implies #[trigger] whole[k] < bound by {
            if k < head.len() {
                assert(whole[k] == chunks[0].0);
            } else {
                assert(whole[k] == word_chunk_offsets(tail, w)[k - head.len()]);
            }
        }
    }
}

/// Every offset that `word_chunk_offsets` yields names a chunk that
/// parses out of the data stream and holds the word.
pub proof fn lemma_wco_sound(data: Seq<u8>, chunks: Seq<(u32, Seq<EntryModel>)>, w: Seq<char>)
    requires
        forall|i: int|
            0 <= i < chunks.len() ==> chunk_at(data, (#[trigger] chunks[i]).0) == Some(
                chunks[i].1,
            ),
    ensures
        forall|k: int|
            0 <= k < word_chunk_offsets(chunks, w).len() ==> match chunk_at(
                data,
                #[trigger] word_chunk_offsets(chunks, w)[k],
            ) {
                Some(es) => chunk_has_word(es, w),
                None => false,
            },
    decreases chunks.len(),
{
    if chunks.len() > 0 {
        let tail = chunks.drop_first();
        assert forall|i: int| 0 <= i < tail.len() implies chunk_at(
            data,
            (#[trigger] tail[i]).0,
        ) == Some(tail[i].1) by {
            assert(tail[i] == chunks[i + 1]);
        }
        lemma_wco_sound(data, tail, w);
        let head = if chunk_has_word(chunks[0].1, w) {
            seq![chunks[0].0]
        } else {
            Seq::<u32>::empty()
        };
        let whole = word_chunk_offsets(chunks, w);
        assert(whole == head + word_chunk_offsets(tail, w));
        assert forall|k: int| 0 <= k < whole.len() implies match chunk_at(
            data,
            #[trigger] whole[k],
        ) {
            Some(es) => chunk_has_word(es, w),
            None => false,
        } by {
            if k < head.len() {
                assert(whole[k] == chunks[0].0);
            } else {
                assert(whole[k] == word_chunk_offsets(tail, w)[k - head.len()]);
            }
        }
    }
}

/// The central consistency fact: collecting the matches for `w` from
/// exactly the chunks whose offsets `word_chunk_offsets` yields returns
/// the matches for `w` among all written entries.
pub proof fn lemma_chunks_theorem(data: Seq<u8>, chunks: Seq<(u32, Seq<EntryModel>)>, w: Seq<char>)
    requires
        forall|i: int|
            0 <= i < chunks.len() ==> chunk_at(data, (#[trigger] chunks[i]).0) == Some(
                chunks[i].1,
            ),
    ensures
        chunks_lookup(data, word_chunk_offsets(chunks, w), w) == Some(
            entries_with_word(chunk_concat(chunks), w),
        ),
    decreases chunks.len(),
{
    if chunks.len() == 0 {
    } else {
        let tail = chunks.drop_first();
        assert forall|i: int| 0 <= i < tail.len() implies chunk_at(
            data,
            (#[trigger] tail[i]).0,
        ) == Some(tail[i].1) by {
            assert(tail[i] == chunks[i + 1]);
        }
        lemma_chunks_theorem(data, tail, w);
        let es = chunks[0].1;
        let wcot = word_chunk_offsets(tail, w);
        lemma_eww_concat(es, chunk_concat(tail), w);
        if chunk_has_word(es, w) {
            let offs = seq![chunks[0].0] + wcot;
            assert(offs[0] == chunks[0].0);
            assert(offs.drop_first() =~= wcot);
            assert(chunk_at(data, chunks[0].0) == Some(es));
        } else {
            lemma_eww_absent(es, w);
            assert(Seq::<u32>::empty() + wcot =~= wcot);
            assert(entries_with_word(es, w) + entries_with_word(chunk_concat(tail), w)
                =~= entries_with_word(chunk_concat(tail), w));
        }
    }
}

/// The write-once store builder: an in-memory index under construction,
/// a buffer of entries not yet flushed, and the append-only data stream
/// written so far.
pub struct DictionaryWriter {
    index: Vec<IndexEntry>,
    entry_buffer: Vec<DictionaryEntry>,
    data_position: usize,
    data: Vec<u8>,
    chunks: Ghost<Seq<(u32, Seq<EntryModel>)>>,
}

impl DictionaryWriter {
    /// The models of the entries now buffered, in insertion order.
    pub closed spec fn buffered(self) -> Seq<EntryModel> {
        entries_view(self.entry_buffer@)
    }

    /// The models of every entry already flushed to the data stream.
    pub closed spec fn written(self) -> Seq<EntryModel> {
        chunk_concat(self.chunks@)
    }

    /// Every entry this writer has accepted, in insertion order.
    pub closed spec fn all_entries(self) -> Seq<EntryModel> {
        self.written() + self.buffered()
    }

    /// The model of the index under construction.
    pub closed spec fn index_model(self) -> Seq<(Seq<char>, Seq<u32>)> {
        index_view(self.index@)
    }

    /// The bytes of the data stream written so far.
    pub closed spec fn data_model(self) -> Seq<u8> {
        self.data@
    }

    /// The batches flushed so far, one per chunk, in write order.
    pub closed spec fn chunk_batches(self) -> Seq<Seq<EntryModel>> {
        self.chunks@.map_values(|c: (u32, Seq<EntryModel>)| c.1)
    }

    /// The offsets the index is required to associate with `w`, given the
    /// words buffered beyond those already flushed: the offsets of the
    /// flushed chunks containing `w`, then the pending chunk's offset if a
    /// buffered entry or one of `extra` holds `w`.
    pub closed spec fn pending_with(self, w: Seq<char>, extra: Seq<Seq<char>>) -> Seq<u32> {
        word_chunk_offsets(self.chunks@, w) + (if chunk_has_word(self.buffered(), w)
            || extra.contains(w) {
            seq![self.data@.len() as u32]
        } else {
            Seq::<u32>::empty()
        })
    }

    /// A sequence as an index association value: present only when it has
    /// a member.
    pub open spec fn opt_of(s: Seq<u32>) -> Option<Seq<u32>> {
        if s.len() > 0 {
            Some(s)
        } else {
            None
        }
    }

    /// The index holds exactly the associations the data stream and the
    /// buffer call for.
    pub closed spec fn index_models_words(self) -> bool {
        forall|w: Seq<char>| #[trigger] index_get(self.index_model(), w) == Self::opt_of(
            self.pending_with(w, Seq::empty()),
        )
    }

    /// Every recorded chunk parses out of the data stream to exactly the
    /// entries that were flushed into it, below the current position.
    pub closed spec fn chunks_wf(self) -> bool {
        &&& forall|i: int|
            0 <= i < self.chunks@.len() ==> chunk_at(self.data@, (#[trigger] self.chunks@[i]).0)
                == Some(self.chunks@[i].1)
        &&& forall|i: int| 0 <= i < self.chunks@.len() ==> (#[trigger] self.chunks@[i]).0
            < self.data@.len()
        &&& forall|i: int|
            0 <= i < self.chunks@.len() ==> 0 < (#[trigger] self.chunks@[i]).1.len()
                <= ENTRIES_PER_CHUNK
    }

    /// The writer's invariant.
    pub closed spec fn wf(self) -> bool {
        &&& self.data_position == self.data@.len()
        &&& self.entry_buffer@.len() <= ENTRIES_PER_CHUNK
        &&& self.entry_buffer@.len() > 0 ==> self.data@.len() <= u32::MAX
        &&& index_wf(self.index_model())
        &&& self.chunks_wf()
        &&& self.index_models_words()
        &&& well_chunked(self.data@)
        &&& (self.data@.len() == 0 <==> self.chunks@.len() == 0)
    }

    /// The store's entries are exactly the flushed batches, in write
    /// order, followed by the buffered entries; every flushed batch is
    /// non-empty and holds at most the batch capacity, and the buffer
    /// never exceeds it. With the clauses of `add` saying when a batch
    /// is cut, this fixes how entries distribute over chunks.
    pub proof fn lemma_entries_are_batches(w: DictionaryWriter)
        requires
            w.wf(),
        ensures
            w.all_entries() == flat_batches(w.chunk_batches()) + w.buffered(),
            forall|i: int|
                0 <= i < w.chunk_batches().len() ==> 0 < (#[trigger] w.chunk_batches()[i]).len()
                    <= ENTRIES_PER_CHUNK,
            w.buffered().len() <= ENTRIES_PER_CHUNK,
    {
        assert forall|i: int| 0 <= i < w.chunks@.len() implies w.chunk_batches()[i] == (
        #[trigger] w.chunks@[i]).1 by {}
        lemma_concat_flat(w.chunks@, w.chunk_batches());
        assert forall|i: int| 0 <= i < w.chunk_batches().len() implies 0 < (
        #[trigger] w.chunk_batches()[i]).len() <= ENTRIES_PER_CHUNK by {
            assert(w.chunk_batches()[i] == w.chunks@[i].1);
        }
    }

    /// A fresh writer: nothing buffered, nothing written, an empty index.
    pub fn new() -> (r: DictionaryWriter)
        ensures
            r.wf(),
            r.all_entries() == Seq::<EntryModel>::empty(),
            r.data_model() == Seq::<u8>::empty(),
            r.index_model() == Seq::<(Seq<char>, Seq<u32>)>::empty(),
    {
        let r = DictionaryWriter {
            index: Vec::new(),
            entry_buffer: Vec::new(),
            data_position: 0,
            data: Vec::new(),
            chunks: Ghost(Seq::empty()),
        };
        proof {
            assert(r.index_model() =~= Seq::<(Seq<char>, Seq<u32>)>::empty());
            assert(r.buffered() =~= Seq::<EntryModel>::empty());
            assert(r.all_entries() =~= Seq::<EntryModel>::empty());
            assert forall|w: Seq<char>| #[trigger] index_get(r.index_model(), w) == Self::opt_of(
                r.pending_with(w, Seq::empty()),
            ) by {
                assert(!chunk_has_word(r.buffered(), w));
                assert(r.pending_with(w, Seq::empty()) =~= Seq::<u32>::empty());
            }
        }
        r
    }

    /// The byte position of the pending chunk: how much of the data
    /// stream has been written so far.
    pub fn position(&self) -> (r: usize)
        requires
            self.wf(),
        ensures
            r == self.data_model().len(),
    {
        self.data_position
    }

    /// Flushing an empty buffer does nothing and cannot fail. A non-empty
    /// flush serializes the buffered batch, compresses it, appends the
    /// 4-byte big-endian length of the compressed bytes and then exactly
    /// those bytes, and empties the buffer; the new chunk parses back to
    /// exactly the flushed batch, and everything previously written is
    /// untouched. It fails, changing nothing, only if compression fails
    /// or the compressed batch cannot fit the length prefix.
    #[verifier::rlimit(100)]
    pub fn flush(&mut self) -> (r: Result<(), DictError>)
        requires
            old(self).wf(),
        ensures
            old(self).buffered().len() == 0 ==> r is Ok,
            match r {
                Ok(()) => {
                    &&& final(self).wf()
                    &&& final(self).buffered().len() == 0
                    &&& final(self).all_entries() == old(self).all_entries()
                    &&& final(self).index_model() == old(self).index_model()
                    &&& (old(self).buffered().len() == 0 ==> *final(self) == *old(self))
                    &&& (old(self).buffered().len() > 0 ==> {
                        let old_len = old(self).data_model().len() as int;
                        let d = final(self).data_model();
                        &&& d.len() >= old_len + 4
                        &&& d.subrange(0, old_len) == old(self).data_model()
                        &&& d.len() == old_len + 4 + le_val(
                            d.subrange(old_len, old_len + 4).reverse(),
                        )
                        &&& chunk_at(d, old_len as u32) == Some(old(self).buffered())
                        &&& final(self).chunk_batches() == old(self).chunk_batches().push(
                            old(self).buffered(),
                        )
                    })
                },
                Err(e) => e is Format && *final(self) == *old(self),
            },
    {
        if self.entry_buffer.len() == 0 {
            return Ok(());
        }
        let mut payload: Vec<u8> = Vec::new();
        write_entries(&mut payload, &self.entry_buffer);
        match deflate_compress(&payload) {
            None => Err(DictError::Format),
            Some(compressed) => {
                if compressed.len() > (u32::MAX as usize) {
                    return Err(DictError::Format);
                }
                let n: u32 = compressed.len() as u32;
                let ghost olds = *self;
                let ghost es = olds.buffered();
                let ghost off_int = olds.data@.len() as int;
                let off: u32 = self.data_position as u32;
                write_u32_be(&mut self.data, n);
                self.data.extend_from_slice(compressed.as_slice());
                self.data_position = self.data.len();
                proof {
                    self.chunks@ = olds.chunks@.push((off, es));
                }
                self.entry_buffer.clear();
                proof {
                    let d = self.data@;
                    let tail = enc_u32_be(n) + compressed@;
                    assert(d =~= olds.data@ + tail);
                    lemma_le_bytes_len(n as int, 4);
                    assert(d.subrange(off_int, off_int + 4) =~= enc_u32_be(n));
                    assert(d.subrange(off_int, off_int + 4).reverse() =~= le_bytes(n as int, 4));
                    lemma_pow256_8();
                    lemma_le_val_le_bytes(n as int, 4);
                    assert(le_val(d.subrange(off_int, off_int + 4).reverse()) == n);
                    assert(d.subrange(off_int + 4, off_int + 4 + n) =~= compressed@);
                    assert(tail.subrange(0, 4) =~= enc_u32_be(n));
                    assert(tail.subrange(0, 4).reverse() =~= le_bytes(n as int, 4));
                    assert(le_val(tail.subrange(0, 4).reverse()) == tail.len() - 4);
                    lemma_well_chunked_append(olds.data@, tail, 0);
                    assert(well_chunked(d));
                    assert(self.chunk_batches() =~= olds.chunk_batches().push(es));
                    assert(payload@ =~= enc_entries(es));
                    lemma_dec_enc_entries(es, Seq::empty());
                    assert(enc_entries(es) + Seq::<u8>::empty() =~= enc_entries(es));
                    assert(chunk_at(d, off) == Some(es));
                    // previously written chunks are untouched
                    assert forall|i: int| 0 <= i < olds.chunks@.len() implies chunk_at(
                        d,
                        (#[trigger] olds.chunks@[i]).0,
                    ) == Some(olds.chunks@[i].1) by {
                        lemma_chunk_at_append(olds.data@, tail, olds.chunks@[i].0);
                    }
                    assert(self.chunks@ == olds.chunks@.push((off, es)));
                    assert forall|i: int| 0 <= i < self.chunks@.len() implies chunk_at(
                        d,
                        (#[trigger] self.chunks@[i]).0,
                    ) == Some(self.chunks@[i].1) by {
                        if i < olds.chunks@.len() {
                            assert(self.chunks@[i] == olds.chunks@[i]);
                        } else {
                            assert(self.chunks@[i] == (off, es));
                        }
                    }
                    assert forall|i: int| 0 <= i < self.chunks@.len() implies (
                    #[trigger] self.chunks@[i]).0 < d.len() by {
                        if i < olds.chunks@.len() {
                            assert(self.chunks@[i] == olds.chunks@[i]);
                            assert(olds.chunks@[i].0 < olds.data@.len());
                        } else {
                            assert(self.chunks@[i] == (off, es));
                        }
                    }
                    // the buffer is empty, and the entry total is kept
                    assert(self.buffered() =~= Seq::<EntryModel>::empty());
                    lemma_chunk_concat_push(olds.chunks@, (off, es));
                    assert(self.all_entries() =~= olds.all_entries());
                    // the index still models the words
                    assert forall|w: Seq<char>| #[trigger] index_get(self.index_model(), w)
                        == Self::opt_of(self.pending_with(w, Seq::empty())) by {
                        lemma_wco_push(olds.chunks@, (off, es), w);
                        assert(index_get(self.index_model(), w) == index_get(
                            olds.index_model(),
                            w,
                        ));
                        assert(!chunk_has_word(self.buffered(), w));
                        assert(olds.pending_with(w, Seq::empty()) =~= self.pending_with(
                            w,
                            Seq::empty(),
                        ));
                    }
                }
                Ok(())
            },
        }
    }
}

impl DictionaryWriter {
    /// In a well-formed writer whose stream fits the offset width, every
    /// offset the index holds is at most the pending chunk's offset.
    proof fn lemma_offsets_bounded(s: DictionaryWriter)
        requires
            s.wf(),
            s.data@.len() <= u32::MAX,
        ensures
            offsets_bounded(s.index_model(), s.data@.len() as u32),
    {
        let ix = s.index_model();
        let pos = s.data@.len() as u32;
        assert forall|i: int, k: int|
            #![trigger ix[i].1[k]]
            0 <= i < ix.len() && 0 <= k < ix[i].1.len() implies ix[i].1[k] <= pos by {
            let w = ix[i].0;
            lemma_index_get_at(ix, i);
            assert(index_get(ix, w) == Some(ix[i].1));
            let po = s.pending_with(w, Seq::empty());
            assert(ix[i].1 == po);
            let wco = word_chunk_offsets(s.chunks@, w);
            lemma_wco_bounded(s.chunks@, w, pos);
            if k < wco.len() {
                assert(po[k] == wco[k]);
            } else {
                assert(po[k] == pos);
            }
        }
    }

    /// Appends an entry. For every string among the entry's forms and
    /// readings, the pending chunk's offset is recorded in the index
    /// (recording the same offset twice for one word is a no-op); the
    /// entry joins the buffer, and when the buffer reaches the batch
    /// capacity it is flushed implicitly. On success the store holds
    /// exactly the entries it held before plus this one; failure can come
    /// only out of an implicit flush, and then the store still holds
    /// either exactly the old entries or the old entries plus this one.
    #[verifier::loop_isolation(false)]
    #[verifier::rlimit(100)]
    pub fn add(&mut self, entry: DictionaryEntry) -> (r: Result<(), DictError>)
        requires
            old(self).wf(),
            old(self).data_model().len() <= u32::MAX,
            entry@.wf(),
        ensures
            old(self).buffered().len() + 1 < ENTRIES_PER_CHUNK ==> r is Ok,
            r is Ok && old(self).buffered().len() + 1 < ENTRIES_PER_CHUNK ==> {
                &&& final(self).buffered() == old(self).buffered().push(entry@)
                &&& final(self).data_model() == old(self).data_model()
                &&& final(self).chunk_batches() == old(self).chunk_batches()
            },
            r is Ok && old(self).buffered().len() + 1 == ENTRIES_PER_CHUNK ==> {
                &&& final(self).buffered().len() == 0
                &&& final(self).chunk_batches() == old(self).chunk_batches().push(
                    old(self).buffered().push(entry@),
                )
            },
            r is Ok && old(self).buffered().len() < ENTRIES_PER_CHUNK ==> {
                let off = old(self).data_model().len() as u32;
                &&& forall|w: Seq<char>|
                    entry@.has_word(w) ==> #[trigger] index_get(final(self).index_model(), w)
                        == Some(match index_get(old(self).index_model(), w) {
                        None => seq![off],
                        Some(offs) => if offs.len() > 0 && offs.last() == off {
                            offs
                        } else {
                            offs.push(off)
                        },
                    })
                &&& forall|w: Seq<char>|
                    !entry@.has_word(w) ==> #[trigger] index_get(final(self).index_model(), w)
                        == index_get(old(self).index_model(), w)
            },
            match r {
                Ok(()) => final(self).wf() && final(self).all_entries() == old(
                    self,
                ).all_entries() + seq![entry@],
                Err(e) => e is Format && final(self).wf() && (final(self).all_entries() == old(
                    self,
                ).all_entries() || final(self).all_entries() == old(self).all_entries()
                    + seq![entry@]),
            },
    {
        if self.entry_buffer.len() >= ENTRIES_PER_CHUNK {
            match self.flush() {
                Err(e) => {
                    return Err(e);
                },
                Ok(()) => {},
            }
        }
        if self.data.len() > (u32::MAX as usize) {
            return Err(DictError::Format);
        }
        let pos_u32: u32 = self.data_position as u32;
        let ghost mid = *self;
        let ghost ws = entry@.forms + entry@.readings;
        proof {
            Self::lemma_offsets_bounded(mid);
            assert(entry@.forms.take(0) =~= Seq::<Seq<char>>::empty());
            assert forall|w: Seq<char>| #[trigger] index_get(self.index_model(), w)
                == Self::opt_of(mid.pending_with(w, entry@.forms.take(0))) by {
                assert(mid.pending_with(w, entry@.forms.take(0)) == mid.pending_with(
                    w,
                    Seq::empty(),
                ));
            }
        }
        let nf = entry.forms.len();
        let mut i: usize = 0;
        while i < nf
            invariant
                nf == entry.forms@.len(),
                i <= nf,
                self.entry_buffer@ == mid.entry_buffer@,
                self.data@ == mid.data@,
                self.chunks@ == mid.chunks@,
                self.data_position == mid.data_position,
                index_wf(self.index_model()),
                offsets_bounded(self.index_model(), pos_u32),
                forall|w: Seq<char>| #[trigger] index_get(self.index_model(), w) == Self::opt_of(
                    mid.pending_with(w, entry@.forms.take(i as int)),
                ),
            decreases nf - i,
        {
            let ghost ixb = self.index_model();
            index_insert(&mut self.index, &entry.forms[i], pos_u32);
            proof {
                let u = entry@.forms[i as int];
                let taken = entry@.forms.take(i as int);
                let taken1 = entry@.forms.take(i as int + 1);
                assert(taken1 =~= taken.push(u));
                lemma_wco_bounded(mid.chunks@, u, pos_u32);
                assert forall|w: Seq<char>| #[trigger] index_get(self.index_model(), w)
                    == Self::opt_of(mid.pending_with(w, taken1)) by {
                    let wco = word_chunk_offsets(mid.chunks@, w);
                    if w == u {
                        assert(taken1.contains(u)) by {
                            assert(taken1[i as int] == u);
                        }
                        let marker = chunk_has_word(mid.buffered(), w) || taken.contains(w);
                        if marker {
                            assert(mid.pending_with(w, taken) =~= wco + seq![pos_u32]);
                            assert(index_get(ixb, w) == Some(wco + seq![pos_u32]));
                            assert((wco + seq![pos_u32]).last() == pos_u32);
                            assert(mid.pending_with(w, taken1) =~= wco + seq![pos_u32]);
                        } else {
                            assert(mid.pending_with(w, taken) =~= wco);
                            assert(mid.pending_with(w, taken1) =~= wco + seq![pos_u32]);
                            if wco.len() == 0 {
                                assert(index_get(ixb, w) is None);
                                assert(index_get(self.index_model(), w) == Some(seq![pos_u32]));
                                assert(wco + seq![pos_u32] =~= seq![pos_u32]);
                            } else {
                                assert(index_get(ixb, w) == Some(wco));
                                assert(wco.last() < pos_u32);
                                assert(wco.push(pos_u32) =~= wco + seq![pos_u32]);
                            }
                        }
                    } else {
                        assert(index_get(self.index_model(), w) == index_get(ixb, w));
                        assert(taken1.contains(w) == taken.contains(w)) by {
                            if taken1.contains(w) {
                                let k = choose|k: int|
                                    0 <= k < taken1.len() && taken1[k] == w;
                                assert(k < i as int || taken1[k] == u);
                                assert(taken[k] == w);
                            } else if taken.contains(w) {
                                let k = choose|k: int| 0 <= k < taken.len() && taken[k] == w;
                                assert(taken1[k] == w);
                            }
                        }
                        assert(mid.pending_with(w, taken) == mid.pending_with(w, taken1));
                    }
                }
            }
            i = i + 1;
        }
        let nr = entry.readings.len();
        let mut j: usize = 0;
        proof {
            assert(entry@.forms + entry@.readings.take(0) =~= entry@.forms.take(nf as int));
        }
        while j < nr
            invariant
                nr == entry.readings@.len(),
                j <= nr,
                self.entry_buffer@ == mid.entry_buffer@,
                self.data@ == mid.data@,
                self.chunks@ == mid.chunks@,
                self.data_position == mid.data_position,
                index_wf(self.index_model()),
                offsets_bounded(self.index_model(), pos_u32),
                forall|w: Seq<char>| #[trigger] index_get(self.index_model(), w) == Self::opt_of(
                    mid.pending_with(w, entry@.forms + entry@.readings.take(j as int)),
                ),
            decreases nr - j,
        {
            let ghost ixb = self.index_model();
            index_insert(&mut self.index, &entry.readings[j], pos_u32);
            proof {
                let u = entry@.readings[j as int];
                let taken = entry@.forms + entry@.readings.take(j as int);
                let taken1 = entry@.forms + entry@.readings.take(j as int + 1);
                assert(taken1 =~= taken.push(u));
                lemma_wco_bounded(mid.chunks@, u, pos_u32);
                assert forall|w: Seq<char>| #[trigger] index_get(self.index_model(), w)
                    == Self::opt_of(mid.pending_with(w, taken1)) by {
                    let wco = word_chunk_offsets(mid.chunks@, w);
                    if w == u {
                        assert(taken1.contains(u)) by {
                            assert(taken1[taken.len() as int] == u);
                        }
                        let marker = chunk_has_word(mid.buffered(), w) || taken.contains(w);
                        if marker {
                            assert(mid.pending_with(w, taken) =~= wco + seq![pos_u32]);
                            assert(index_get(ixb, w) == Some(wco + seq![pos_u32]));
                            assert((wco + seq![pos_u32]).last() == pos_u32);
                            assert(mid.pending_with(w, taken1) =~= wco + seq![pos_u32]);
                        } else {
                            assert(mid.pending_with(w, taken) =~= wco);
                            assert(mid.pending_with(w, taken1) =~= wco + seq![pos_u32]);
                            if wco.len() == 0 {
                                assert(index_get(ixb, w) is None);
                                assert(index_get(self.index_model(), w) == Some(seq![pos_u32]));
                                assert(wco + seq![pos_u32] =~= seq![pos_u32]);
                            } else {
                                assert(index_get(ixb, w) == Some(wco));
                                assert(wco.last() < pos_u32);
                                assert(wco.push(pos_u32) =~= wco + seq![pos_u32]);
                            }
                        }
                    } else {
                        assert(index_get(self.index_model(), w) == index_get(ixb, w));
                        assert(taken1.contains(w) == taken.contains(w)) by {
                            if taken1.contains(w) {
                                let k = choose|k: int|
                                    0 <= k < taken1.len() && taken1[k] == w;
                                assert(k < taken.len() || taken1[k] == u);
                                assert(taken[k] == w);
                            } else if taken.contains(w) {
                                let k = choose|k: int| 0 <= k < taken.len() && taken[k] == w;
                                assert(taken1[k] == w);
                            }
                        }
                        assert(mid.pending_with(w, taken) == mid.pending_with(w, taken1));
                    }
                }
            }
            j = j + 1;
        }
        let ghost before_push = *self;
        self.entry_buffer.push(entry);
        proof {
            assert(entry@.readings.take(nr as int) =~= entry@.readings);
            assert(self.buffered() =~= mid.buffered().push(entry@));
            assert forall|w: Seq<char>| #[trigger] index_get(self.index_model(), w)
                == Self::opt_of(self.pending_with(w, Seq::empty())) by {
                crate::store::lemma_chw_push(mid.buffered(), entry@, w);
                assert(entry@.has_word(w) == ws.contains(w));
                assert(index_get(self.index_model(), w) == Self::opt_of(
                    mid.pending_with(w, ws),
                ));
                assert(mid.pending_with(w, ws) == self.pending_with(w, Seq::empty()));
            }
            assert(self.all_entries() =~= mid.all_entries() + seq![entry@]);
            assert(mid.all_entries() == old(self).all_entries());
        }
        let ghost postpush = *self;
        proof {
            if old(self).entry_buffer@.len() < ENTRIES_PER_CHUNK {
                assert(mid == *old(self));
                let off = old(self).data@.len() as u32;
                assert(off == pos_u32);
                assert(postpush.buffered() == old(self).buffered().push(entry@));
                assert(postpush.data@ == old(self).data@);
                assert(postpush.chunk_batches() == old(self).chunk_batches());
                assert forall|w: Seq<char>| entry@.has_word(w) implies #[trigger] index_get(
                    postpush.index_model(),
                    w,
                ) == Some(
                    match index_get(old(self).index_model(), w) {
                        None => seq![off],
                        Some(offs) => if offs.len() > 0 && offs.last() == off {
                            offs
                        } else {
                            offs.push(off)
                        },
                    },
                ) by {
                    let wco = word_chunk_offsets(mid.chunks@, w);
                    crate::store::lemma_chw_push(mid.buffered(), entry@, w);
                    assert(chunk_has_word(postpush.buffered(), w));
                    assert(postpush.pending_with(w, Seq::empty()) =~= wco + seq![off]);
                    assert(index_get(postpush.index_model(), w) == Some(wco + seq![off]));
                    if chunk_has_word(mid.buffered(), w) {
                        assert(mid.pending_with(w, Seq::empty()) =~= wco + seq![off]);
                        assert(index_get(old(self).index_model(), w) == Some(wco + seq![off]));
                        assert((wco + seq![off]).last() == off);
                    } else {
                        assert(mid.pending_with(w, Seq::empty()) =~= wco);
                        if wco.len() == 0 {
                            assert(index_get(old(self).index_model(), w) is None);
                            assert(wco + seq![off] =~= seq![off]);
                        } else {
                            assert(index_get(old(self).index_model(), w) == Some(wco));
                            lemma_wco_bounded(mid.chunks@, w, off);
                            assert(wco.last() < off);
                            assert(wco.push(off) =~= wco + seq![off]);
                        }
                    }
                }
                assert forall|w: Seq<char>| !entry@.has_word(w) implies #[trigger] index_get(
                    postpush.index_model(),
                    w,
                ) == index_get(old(self).index_model(), w) by {
                    crate::store::lemma_chw_push(mid.buffered(), entry@, w);
                    assert(postpush.pending_with(w, Seq::empty()) == mid.pending_with(
                        w,
                        Seq::empty(),
                    ));
                }
            }
        }
        if self.entry_buffer.len() >= ENTRIES_PER_CHUNK {
            match self.flush() {
                Err(e) => {
                    return Err(e);
                },
                Ok(()) => {},
            }
            proof {
                if old(self).entry_buffer@.len() < ENTRIES_PER_CHUNK {
                    assert(self.index_model() == postpush.index_model());
                    assert(self.chunk_batches() == postpush.chunk_batches().push(
                        postpush.buffered(),
                    ));
                }
            }
        }
        Ok(())
    }

    /// Performs a final flush, then serializes the whole index and
    /// compresses it into a single blob, consuming the writer. On success
    /// the returned pair is the complete store: the data stream and the
    /// index blob. Decompressing and decoding the blob yields a
    /// well-formed index, and a lookup for any word over the pair yields
    /// exactly the entries that declared that word among their forms or
    /// readings, in insertion order. It fails only if a compression step
    /// fails or the final chunk cannot fit its length prefix.
    pub fn finish(self) -> (r: Result<(Vec<u8>, Vec<u8>), DictError>)
        requires
            self.wf(),
        ensures
            match r {
                Ok(out) => match inflate_of(out.1@) {
                    Some(pl) => match dec_index(pl) {
                        Some((ixm, rest)) => {
                            &&& rest.len() == 0
                            &&& index_wf(ixm)
                            &&& forall|w: Seq<char>| #[trigger] store_lookup(out.0@, ixm, w)
                                == Some(entries_with_word(self.all_entries(), w))
                            &&& well_chunked(out.0@)
                            &&& (out.0@.len() > 0 <==> self.all_entries().len() > 0)
                            &&& (self.buffered().len() == 0 ==> out.0@ == self.data_model())
                            &&& (self.buffered().len() > 0 ==> {
                                let old_len = self.data_model().len() as int;
                                &&& out.0@.subrange(0, old_len) == self.data_model()
                                &&& out.0@.len() == old_len + 4 + le_val(
                                    out.0@.subrange(old_len, old_len + 4).reverse(),
                                )
                                &&& chunk_at(out.0@, old_len as u32) == Some(self.buffered())
                            })
                            &&& forall|w: Seq<char>|
                                #![trigger index_get(ixm, w)]
                                match index_get(ixm, w) {
                                    Some(offs) => offs.len() > 0 && (forall|k: int|
                                        0 <= k < offs.len() ==> match chunk_at(
                                            out.0@,
                                            #[trigger] offs[k],
                                        ) {
                                            Some(es) => chunk_has_word(es, w),
                                            None => false,
                                        }),
                                    None => true,
                                }
                        },
                        None => false,
                    },
                    None => false,
                },
                Err(e) => e is Format,
            },
    {
        let ghost orig = self;
        let mut wr = self;
        match wr.flush() {
            Err(e) => Err(e),
            Ok(()) => {
                let mut ixbytes: Vec<u8> = Vec::new();
                write_index(&mut ixbytes, &wr.index);
                match deflate_compress(&ixbytes) {
                    None => Err(DictError::Format),
                    Some(ic) => {
                        proof {
                            let ixm = wr.index_model();
                            assert(ixbytes@ =~= enc_index(ixm));
                            lemma_dec_enc_index(ixm, Seq::empty());
                            assert(enc_index(ixm) + Seq::<u8>::empty() =~= enc_index(ixm));
                            assert forall|q: Seq<char>| #[trigger] store_lookup(
                                wr.data@,
                                ixm,
                                q,
                            ) == Some(entries_with_word(orig.all_entries(), q)) by {
                                assert(!chunk_has_word(wr.buffered(), q));
                                let wco = word_chunk_offsets(wr.chunks@, q);
                                assert(wr.pending_with(q, Seq::empty()) =~= wco);
                                lemma_chunks_theorem(wr.data@, wr.chunks@, q);
                                assert(wr.all_entries() == orig.all_entries());
                                assert(wr.all_entries() =~= chunk_concat(wr.chunks@));
                                assert(index_get(ixm, q) == Self::opt_of(wco));
                                if wco.len() == 0 {
                                    assert(chunks_lookup(wr.data@, wco, q) == Some(
                                        entries_with_word(chunk_concat(wr.chunks@), q),
                                    ));
                                }
                            }
                            assert(wr.all_entries() == orig.all_entries());
                            assert(wr.all_entries() =~= chunk_concat(wr.chunks@));
                            if wr.chunks@.len() > 0 {
                                assert(chunk_concat(wr.chunks@) == wr.chunks@[0].1 + chunk_concat(
                                    wr.chunks@.drop_first(),
                                ));
                                assert(wr.chunks@[0].1.len() > 0);
                            }
                            assert(wr.data@.len() > 0 <==> orig.all_entries().len() > 0);
                            assert forall|q: Seq<char>|
                                #![trigger index_get(ixm, q)]
                                match index_get(ixm, q) {
                                    Some(offs) => offs.len() > 0 && (forall|k: int|
                                        0 <= k < offs.len() ==> match chunk_at(
                                            wr.data@,
                                            #[trigger] offs[k],
                                        ) {
                                            Some(es) => chunk_has_word(es, q),
                                            None => false,
                                        }),
                                    None => true,
                                } by {
                                let wco = word_chunk_offsets(wr.chunks@, q);
                                assert(!chunk_has_word(wr.buffered(), q));
                                assert(wr.pending_with(q, Seq::empty()) =~= wco);
                                assert(index_get(ixm, q) == Self::opt_of(wco));
                                lemma_wco_sound(wr.data@, wr.chunks@, q);
                            }
                        }
                        Ok((wr.data, ic))
                    },
                }
            },
        }
    }
}

} // verus!
