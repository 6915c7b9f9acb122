//! The store-level model shared by the writer and the reader: what the
//! data stream holds at a chunk offset, and what a lookup over the index
//! and the data stream must return for a word.

use vstd::prelude::*;

use crate::entry::EntryModel;
use crate::compress::inflate_of;
use crate::wire::{le_val, dec_entries};
use crate::index::index_get;

verus! {

/// The batch of entries a chunk at byte offset `off` of the data stream
/// holds: a 4-byte big-endian length prefix, that many compressed bytes,
/// which decompress to a serialized batch consuming every byte.
pub open spec fn chunk_at(data: Seq<u8>, off: u32) -> Option<Seq<EntryModel>> {
    if off + 4 <= data.len() {
        let n = le_val(data.subrange(off as int, off as int + 4).reverse());
        if off + 4 + n <= data.len() {
            match inflate_of(data.subrange(off as int + 4, off as int + 4 + n)) {
                Some(payload) => match dec_entries(payload) {
                    Some((es, rest)) => if rest.len() == 0 {
                        Some(es)
                    } else {
                        None
                    },
                    None => None,
                },
                None => None,
            }
        } else {
            None
        }
    } else {
        None
    }
}

/// A chunk parse reads only bytes below `data.len()`, so appending to the
/// stream never changes an existing chunk.
pub proof fn lemma_chunk_at_append(d1: Seq<u8>, tail: Seq<u8>, off: u32)
    requires
        chunk_at(d1, off) is Some,
    ensures
        chunk_at(d1 + tail, off) == chunk_at(d1, off),
{
    let d2 = d1 + tail;
    assert(d2.subrange(off as int, off as int + 4) =~= d1.subrange(off as int, off as int + 4));
    let n = le_val(d1.subrange(off as int, off as int + 4).reverse());
    crate::wire::lemma_le_val_bound(d1.subrange(off as int, off as int + 4).reverse());
    assert(d2.subrange(off as int + 4, off as int + 4 + n) =~= d1.subrange(
        off as int + 4,
        off as int + 4 + n,
    ));
}

/// From `pos` on, the stream is a seamless sequence of length-prefixed
/// chunks: each 4-byte big-endian prefix declares exactly the number of
/// bytes that follow it before the next prefix, and the last chunk ends
/// exactly at the end of the stream.
pub open spec fn well_chunked_from(data: Seq<u8>, pos: int) -> bool
    decreases data.len() - pos,
{
    if pos == data.len() {
        true
    } else if pos < 0 || pos + 4 > data.len() {
        false
    } else {
        let n = le_val(data.subrange(pos, pos + 4).reverse());
        0 <= n && pos + 4 + n <= data.len() && well_chunked_from(data, pos + 4 + n)
    }
}

/// The whole data stream is a seamless sequence of chunks.
pub open spec fn well_chunked(data: Seq<u8>) -> bool {
    well_chunked_from(data, 0)
}

/// Appending one complete frame keeps the stream seamless.
pub proof fn lemma_well_chunked_append(d: Seq<u8>, frame: Seq<u8>, pos: int)
    requires
        well_chunked_from(d, pos),
        0 <= pos <= d.len(),
        frame.len() >= 4,
        le_val(frame.subrange(0, 4).reverse()) == frame.len() - 4,
    ensures
        well_chunked_from(d + frame, pos),
    decreases d.len() - pos,
{
    let d2 = d + frame;
    if pos == d.len() {
        assert(d2.subrange(pos, pos + 4) =~= frame.subrange(0, 4));
        let n = le_val(d2.subrange(pos, pos + 4).reverse());
        assert(n == frame.len() - 4);
        assert(pos + 4 + n == d2.len());
        assert(well_chunked_from(d2, pos + 4 + n));
        assert(well_chunked_from(d2, pos));
    } else {
        assert(d2.subrange(pos, pos + 4) =~= d.subrange(pos, pos + 4));
        let n = le_val(d.subrange(pos, pos + 4).reverse());
        assert(0 <= n && pos + 4 + n <= d.len());
        lemma_well_chunked_append(d, frame, pos + 4 + n);
        assert(well_chunked_from(d2, pos));
    }
}

/// The entries of a batch whose forms or readings contain `w`, in order.
pub open spec fn entries_with_word(es: Seq<EntryModel>, w: Seq<char>) -> Seq<EntryModel>
    decreases es.len(),
{
    if es.len() == 0 {
        Seq::empty()
    } else {
        (if es[0].has_word(w) {
            seq![es[0]]
        } else {
            Seq::empty()
        }) + entries_with_word(es.drop_first(), w)
    }
}

/// Filtering one more entry appends it exactly when it has the word.
pub proof fn lemma_eww_push(es: Seq<EntryModel>, e: EntryModel, w: Seq<char>)
    ensures
        entries_with_word(es.push(e), w) == entries_with_word(es, w) + (if e.has_word(w) {
            seq![e]
        } else {
            Seq::<EntryModel>::empty()
        }),
{
    assert(es.push(e) =~= es + seq![e]);
    lemma_eww_concat(es, seq![e], w);
    reveal_with_fuel(entries_with_word, 3);
    assert(seq![e].drop_first() =~= Seq::<EntryModel>::empty());
    if e.has_word(w) {
        assert(entries_with_word(seq![e], w) =~= seq![e]);
    } else {
        assert(entries_with_word(seq![e], w) =~= Seq::<EntryModel>::empty());
    }
}

/// Cross-word disambiguation: a lookup's matches for `w` are entries of
/// the batch, and every one of them declares `w` among its forms or
/// readings — an entry sharing no word with the query is never returned,
/// however it is batched.
pub proof fn lemma_lookup_only_matches(es: Seq<EntryModel>, w: Seq<char>)
    ensures
        forall|k: int|
            0 <= k < entries_with_word(es, w).len() ==> (#[trigger] entries_with_word(
                es,
                w,
            )[k]).has_word(w) && es.contains(entries_with_word(es, w)[k]),
    decreases es.len(),
{
    if es.len() > 0 {
        lemma_lookup_only_matches(es.drop_first(), w);
        let rest = entries_with_word(es.drop_first(), w);
        let whole = entries_with_word(es, w);
        let head = if es[0].has_word(w) {
            seq![es[0]]
        } else {
            Seq::<EntryModel>::empty()
        };
        assert(whole == head + rest);
        assert forall|k: int| 0 <= k < whole.len() implies (#[trigger] whole[k]).has_word(w)
            && es.contains(whole[k]) by {
            if k < head.len() {
                assert(whole[k] == es[0]);
            } else {
                assert(whole[k] == rest[k - head.len()]);
                assert(rest[k - head.len()].has_word(w));
                let m = choose|m: int|
                    0 <= m < es.drop_first().len() && es.drop_first()[m] == rest[k - head.len()];
                assert(es[m + 1] == rest[k - head.len()]);
            }
        }
    }
}

/// One unparsable chunk spoils the whole collection.
pub proof fn lemma_chunks_lookup_none(data: Seq<u8>, offs: Seq<u32>, k: int, w: Seq<char>)
    requires
        0 <= k < offs.len(),
        chunk_at(data, offs[k]) is None,
    ensures
        chunks_lookup(data, offs, w) is None,
    decreases offs.len(),
{
    if k == 0 {
    } else {
        match chunk_at(data, offs[0]) {
            Some(_) => {
                assert(offs.drop_first()[k - 1] == offs[k]);
                lemma_chunks_lookup_none(data, offs.drop_first(), k - 1, w);
            },
            None => {
            },
        }
    }
}

/// Whether some entry of a batch contains `w`.
pub open spec fn chunk_has_word(es: Seq<EntryModel>, w: Seq<char>) -> bool {
    exists|i: int| 0 <= i < es.len() && (#[trigger] es[i]).has_word(w)
}

/// Adding an entry to a batch adds exactly that entry's words.
pub proof fn lemma_chw_push(es: Seq<EntryModel>, e: EntryModel, w: Seq<char>)
    ensures
        chunk_has_word(es.push(e), w) == (chunk_has_word(es, w) || e.has_word(w)),
{
    if chunk_has_word(es, w) {
        let i = choose|i: int| 0 <= i < es.len() && (#[trigger] es[i]).has_word(w);
        assert(es.push(e)[i] == es[i]);
        assert(chunk_has_word(es.push(e), w));
    } else if e.has_word(w) {
        assert(es.push(e)[es.len() as int] == e);
        assert(chunk_has_word(es.push(e), w));
    } else {
        if chunk_has_word(es.push(e), w) {
            let i = choose|i: int|
                0 <= i < es.push(e).len() && (#[trigger] es.push(e)[i]).has_word(w);
            if i < es.len() {
                assert(es[i] == es.push(e)[i]);
            }
            assert(false);
        }
    }
}

/// The matches for `w` collected over the chunks at the given offsets, in
/// offset order; nothing if any of those chunks fails to parse.
pub open spec fn chunks_lookup(data: Seq<u8>, offs: Seq<u32>, w: Seq<char>) -> Option<
    Seq<EntryModel>,
>
    decreases offs.len(),
{
    if offs.len() == 0 {
        Some(Seq::empty())
    } else {
        match chunk_at(data, offs[0]) {
            Some(es) => match chunks_lookup(data, offs.drop_first(), w) {
                Some(rest) => Some(entries_with_word(es, w) + rest),
                None => None,
            },
            None => None,
        }
    }
}

/// What a lookup for `w` over the store must return: the matches from
/// every chunk the index records for `w`; an absent word has no matches.
pub open spec fn store_lookup(
    data: Seq<u8>,
    ix: Seq<(Seq<char>, Seq<u32>)>,
    w: Seq<char>,
) -> Option<Seq<EntryModel>> {
    match index_get(ix, w) {
        None => Some(Seq::empty()),
        Some(offs) => chunks_lookup(data, offs, w),
    }
}

/// Round trip: a reader built on a finished store serves, for every
/// word, exactly the entries that declared it. The hypotheses are what
/// `DictionaryWriter::finish` ensures of its output pair for the entries
/// it accepted, and what `DictionaryReader::new` ensures of the index it
/// decoded from the same blob; the conclusion is the exact value
/// `DictionaryReader::lookup` promises to return for the word.
pub proof fn lemma_round_trip(
    data: Seq<u8>,
    blob: Seq<u8>,
    entries: Seq<EntryModel>,
    reader_index: Seq<(Seq<char>, Seq<u32>)>,
    w: Seq<char>,
)
    requires
        match inflate_of(blob) {
            Some(pl) => match crate::wire::dec_index(pl) {
                Some((ixm, rest)) => {
                    &&& rest.len() == 0
                    &&& forall|u: Seq<char>| #[trigger] store_lookup(data, ixm, u) == Some(
                        entries_with_word(entries, u),
                    )
                },
                None => false,
            },
            None => false,
        },
        match inflate_of(blob) {
            Some(pl) => match crate::wire::dec_index(pl) {
                Some((ixm, rest)) => rest.len() == 0 && reader_index == ixm,
                None => false,
            },
            None => false,
        },
    ensures
        store_lookup(data, reader_index, w) == Some(entries_with_word(entries, w)),
{
}

/// Filtering distributes over concatenation of batches.
pub proof fn lemma_eww_concat(a: Seq<EntryModel>, b: Seq<EntryModel>, w: Seq<char>)
    ensures
        entries_with_word(a + b, w) == entries_with_word(a, w) + entries_with_word(b, w),
    decreases a.len(),
{
    if a.len() == 0 {
        assert(a + b =~= b);
        assert(entries_with_word(a, w) + entries_with_word(b, w) =~= entries_with_word(b, w));
    } else {
        assert((a + b).drop_first() =~= a.drop_first() + b);
        lemma_eww_concat(a.drop_first(), b, w);
        assert((a + b)[0] == a[0]);
        if a[0].has_word(w) {
            assert(seq![a[0]] + (entries_with_word(a.drop_first(), w) + entries_with_word(b, w))
                =~= (seq![a[0]] + entries_with_word(a.drop_first(), w)) + entries_with_word(b, w));
        } else {
            assert(Seq::<EntryModel>::empty() + (entries_with_word(a.drop_first(), w)
                + entries_with_word(b, w)) =~= (Seq::<EntryModel>::empty() + entries_with_word(
                a.drop_first(),
                w,
            )) + entries_with_word(b, w));
        }
    }
}

/// A batch with no entry containing `w` contributes no matches.
pub proof fn lemma_eww_absent(es: Seq<EntryModel>, w: Seq<char>)
    requires
        !chunk_has_word(es, w),
    ensures
        entries_with_word(es, w) == Seq::<EntryModel>::empty(),
    decreases es.len(),
{
    if es.len() > 0 {
        assert(!es[0].has_word(w));
        assert forall|i: int| 0 <= i < es.drop_first().len() implies !(
        #[trigger] es.drop_first()[i]).has_word(w) by {
            assert(es.drop_first()[i] == es[i + 1]);
        }
        lemma_eww_absent(es.drop_first(), w);
        assert(entries_with_word(es, w) =~= Seq::<EntryModel>::empty());
    }
}

/// Collecting over one more offset appends that chunk's matches.
pub proof fn lemma_chunks_lookup_push(data: Seq<u8>, offs: Seq<u32>, o: u32, w: Seq<char>)
    ensures
        chunks_lookup(data, offs.push(o), w) == match (
            chunks_lookup(data, offs, w),
            chunk_at(data, o),
        ) {
            (Some(acc), Some(es)) => Some(acc + entries_with_word(es, w)),
            _ => None::<Seq<EntryModel>>,
        },
    decreases offs.len(),
{
    if offs.len() == 0 {
        reveal_with_fuel(chunks_lookup, 3);
        assert(offs.push(o)[0] == o);
        assert(offs.push(o).drop_first() =~= Seq::<u32>::empty());
        match chunk_at(data, o) {
            Some(es) => {
                assert(Seq::<EntryModel>::empty() + entries_with_word(es, w) =~= entries_with_word(
                    es,
                    w,
                ));
                assert(entries_with_word(es, w) + Seq::<EntryModel>::empty() =~= entries_with_word(
                    es,
                    w,
                ));
            },
            None => {
            },
        }
    } else {
        assert(offs.push(o)[0] == offs[0]);
        assert(offs.push(o).drop_first() =~= offs.drop_first().push(o));
        lemma_chunks_lookup_push(data, offs.drop_first(), o, w);
        match (chunk_at(data, offs[0]), chunks_lookup(data, offs.drop_first(), w)) {
            (Some(es), Some(acc)) => {
                match chunk_at(data, o) {
                    Some(es2) => {
                        assert(entries_with_word(es, w) + (acc + entries_with_word(es2, w)) =~= (
                        entries_with_word(es, w) + acc) + entries_with_word(es2, w));
                    },
                    None => {
                    },
                }
            },
            _ => {
            },
        }
    }
}

} // verus!
