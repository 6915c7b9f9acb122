//! The Chunk Reader: loads the compressed index eagerly, and on lookup
//! resolves the requested words to chunk offsets, decompresses only the
//! chunks those offsets name, and filters their entries by exact word
//! match. Each distinct chunk is decompressed at most once per lookup.

use vstd::prelude::*;

use crate::entry::{DictionaryEntry, EntryModel, entries_view, DictError};
use crate::index::{IndexEntry, index_view, index_get, index_find, string_eq, lemma_index_get_at,
    lemma_index_get_none};
use crate::codec::{read_u32_be, read_entries};
use crate::compress::{deflate_decompress, inflate_of};
use crate::store::{chunk_at, chunks_lookup, store_lookup, entries_with_word, lemma_eww_push,
    lemma_chunks_lookup_push, lemma_chunks_lookup_none};
use crate::wire::{dec_index, lemma_le_val_bound, lemma_pow256_8};
use vstd::slice::{slice_subrange, slice_to_vec};

verus! {

/// Whether the word is one of the entry's forms or readings.
#[verifier::loop_isolation(false)]
pub fn entry_has_word(e: &DictionaryEntry, w: &String) -> (r: bool)
    ensures
        r == e@.has_word(w@),
{
    let nf = e.forms.len();
    let mut i: usize = 0;
    while i < nf
        invariant
            nf == e.forms@.len(),
            i <= nf,
            forall|j: int| 0 <= j < i ==> e@.forms[j] != w@,
        decreases nf - i,
    {
        if string_eq(&e.forms[i], w) {
            proof {
                assert(e@.words()[i as int] == w@);
            }
            return true;
        }
        i = i + 1;
    }
    let nr = e.readings.len();
    let mut j: usize = 0;
    while j < nr
        invariant
            nr == e.readings@.len(),
            j <= nr,
            forall|k: int| 0 <= k < j ==> e@.readings[k] != w@,
        decreases nr - j,
    {
        if string_eq(&e.readings[j], w) {
            proof {
                assert(e@.words()[nf + j] == w@);
            }
            return true;
        }
        j = j + 1;
    }
    proof {
        if e@.has_word(w@) {
            let k = choose|k: int| 0 <= k < e@.words().len() && e@.words()[k] == w@;
            if k < nf {
                assert(e@.forms[k] == w@);
            } else {
                assert(e@.readings[k - nf] == w@);
            }
        }
    }
    false
}

/// Appends to `out` every entry of the batch that holds `w`, in order.
#[verifier::loop_isolation(false)]
fn append_matches(out: &mut Vec<DictionaryEntry>, chunk: &Vec<DictionaryEntry>, w: &String)
    ensures
        entries_view(final(out)@) == entries_view(old(out)@) + entries_with_word(
            entries_view(chunk@),
            w@,
        ),
{
    let n = chunk.len();
    let ghost cv = entries_view(chunk@);
    let mut i: usize = 0;
    proof {
        assert(cv.take(0) =~= Seq::<EntryModel>::empty());
        assert(entries_view(out@) + entries_with_word(cv.take(0), w@) =~= entries_view(out@));
    }
    while i < n
        invariant
            n == chunk@.len(),
            i <= n,
            entries_view(out@) == entries_view(old(out)@) + entries_with_word(
                cv.take(i as int),
                w@,
            ),
        decreases n - i,
    {
        let ghost before = entries_view(out@);
        if entry_has_word(&chunk[i], w) {
            out.push(chunk[i].deep_clone());
        }
        proof {
            assert(cv.take(i as int).push(cv[i as int]) =~= cv.take(i as int + 1));
            lemma_eww_push(cv.take(i as int), cv[i as int], w@);
            assert(cv[i as int] == chunk@[i as int]@);
            if chunk@[i as int]@.has_word(w@) {
                assert(entries_view(out@) =~= before.push(chunk@[i as int]@));
                assert(entries_view(out@) =~= entries_view(old(out)@) + entries_with_word(
                    cv.take(i as int + 1),
                    w@,
                ));
            } else {
                assert(entries_with_word(cv.take(i as int + 1), w@) =~= entries_with_word(
                    cv.take(i as int),
                    w@,
                ));
            }
        }
        i = i + 1;
    }
    proof {
        assert(cv.take(n as int) =~= cv);
    }
}

/// Finds a cached chunk by offset.
#[verifier::loop_isolation(false)]
fn cache_find(cache: &Vec<(u32, Vec<DictionaryEntry>)>, off: u32) -> (r: Option<usize>)
    ensures
        match r {
            Some(ci) => ci < cache@.len() && cache@[ci as int].0 == off,
            None => true,
        },
{
    let n = cache.len();
    let mut i: usize = 0;
    while i < n
        invariant
            n == cache@.len(),
            i <= n,
        decreases n - i,
    {
        if cache[i].0 == off {
            return Some(i);
        }
        i = i + 1;
    }
    None
}

/// Whether a result pair for this word is already collected.
#[verifier::loop_isolation(false)]
fn result_has_word(res: &Vec<(String, Vec<DictionaryEntry>)>, w: &String) -> (r: bool)
    ensures
        r == exists|j: int| 0 <= j < res@.len() && (#[trigger] res@[j].0@) == w@,
{
    let n = res.len();
    let mut i: usize = 0;
    while i < n
        invariant
            n == res@.len(),
            i <= n,
            forall|j: int| 0 <= j < i ==> (#[trigger] res@[j].0@) != w@,
        decreases n - i,
    {
        if string_eq(&res[i].0, w) {
            return true;
        }
        i = i + 1;
    }
    false
}

/// The point-lookup reader: the whole index resident in memory, and the
/// data stream it indexes.
pub struct DictionaryReader {
    index: Vec<IndexEntry>,
    data: Vec<u8>,
}

impl DictionaryReader {
    /// The model of the resident index.
    pub closed spec fn index_model(self) -> Seq<(Seq<char>, Seq<u32>)> {
        index_view(self.index@)
    }

    /// The bytes of the data stream.
    pub closed spec fn data_model(self) -> Seq<u8> {
        self.data@
    }

    /// Constructs a reader from the compressed index blob and the data
    /// stream. The whole index is decompressed and decoded eagerly;
    /// construction succeeds exactly when the blob decompresses and
    /// decodes to an index consuming every byte, and the resident index
    /// is then exactly the decoded one. A malformed blob is a format
    /// error.
    pub fn new(index_bytes: Vec<u8>, data: Vec<u8>) -> (r: Result<DictionaryReader, DictError>)
        ensures
            match r {
                Ok(rd) => {
                    &&& rd.data_model() == data@
                    &&& match inflate_of(index_bytes@) {
                        Some(pl) => match dec_index(pl) {
                            Some((ixm, rest)) => rest.len() == 0 && rd.index_model() == ixm,
                            None => false,
                        },
                        None => false,
                    }
                },
                Err(e) => e is Format && match inflate_of(index_bytes@) {
                    Some(pl) => match dec_index(pl) {
                        Some((ixm, rest)) => rest.len() > 0,
                        None => true,
                    },
                    None => true,
                },
            },
    {
        match deflate_decompress(&index_bytes) {
            None => Err(DictError::Format),
            Some(pl) => {
                proof {
                    assert(pl@.skip(0) =~= pl@);
                }
                match crate::codec::read_index(&pl, 0) {
                    None => Err(DictError::Format),
                    Some((ix, p)) => {
                        if p != pl.len() {
                            proof {
                                assert(pl@.skip(p as int).len() > 0);
                            }
                            Err(DictError::Format)
                        } else {
                            proof {
                                assert(pl@.skip(p as int).len() == 0);
                            }
                            Ok(DictionaryReader { index: ix, data })
                        }
                    },
                }
            },
        }
    }

    /// Reads, decompresses and decodes the chunk at a byte offset of the
    /// data stream.
    fn read_chunk(&self, off: u32) -> (r: Option<Vec<DictionaryEntry>>)
        ensures
            match r {
                Some(v) => chunk_at(self.data_model(), off) == Some(entries_view(v@)),
                None => chunk_at(self.data_model(), off) is None,
            },
    {
        if self.data.len() < 4 || (off as usize) > self.data.len() - 4 {
            return None;
        }
        match read_u32_be(&self.data, off as usize) {
            None => {
                proof {
                    assert(false);
                }
                None
            },
            Some((n, p4)) => {
                proof {
                    let s = self.data@.skip(off as int);
                    assert(s.take(4).reverse() =~= self.data@.subrange(
                        off as int,
                        off as int + 4,
                    ).reverse());
                    lemma_le_val_bound(s.take(4).reverse());
                    lemma_pow256_8();
                }
                if (n as usize) > self.data.len() - (off as usize + 4) {
                    return None;
                }
                let start: usize = off as usize + 4;
                let compressed: Vec<u8> = slice_to_vec(
                    slice_subrange(self.data.as_slice(), start, start + n as usize),
                );
                proof {
                    assert(compressed@ =~= self.data@.subrange(
                        off as int + 4,
                        off as int + 4 + n as int,
                    ));
                }
                match deflate_decompress(&compressed) {
                    None => None,
                    Some(payload) => {
                        proof {
                            assert(payload@.skip(0) =~= payload@);
                        }
                        match read_entries(&payload, 0) {
                            None => None,
                            Some((es, p)) => {
                                if p != payload.len() {
                                    proof {
                                        assert(payload@.skip(p as int).len() > 0);
                                    }
                                    None
                                } else {
                                    proof {
                                        assert(payload@.skip(p as int).len() == 0);
                                    }
                                    Some(es)
                                }
                            },
                        }
                    },
                }
            },
        }
    }

    /// Looks up a batch of candidate words. Returns one pair per queried
    /// word that matched at least one entry: the word together with every
    /// entry whose forms or readings contain it, collected over the
    /// word's chunks in offset order. Words absent from the index, or
    /// matching nothing, are simply missing from the result. Each
    /// distinct chunk is decompressed once. Fails, with a format error,
    /// exactly when a chunk recorded for one of the queried words does
    /// not parse.
    #[verifier::loop_isolation(false)]
    #[verifier::rlimit(100)]
    pub fn lookup(&self, words: &Vec<String>) -> (r: Result<
        Vec<(String, Vec<DictionaryEntry>)>,
        DictError,
    >)
        ensures
            match r {
                Ok(res) => {
                    &&& forall|j: int|
                        0 <= j < res@.len() ==> {
                            &&& words.deep_view().contains((#[trigger] res@[j]).0@)
                            &&& store_lookup(self.data_model(), self.index_model(), res@[j].0@)
                                == Some(entries_view(res@[j].1@))
                            &&& res@[j].1@.len() > 0
                        }
                    &&& forall|a: int, b: int|
                        0 <= a < b < res@.len() ==> (#[trigger] res@[a]).0@ != (
                        #[trigger] res@[b]).0@
                    &&& forall|i: int|
                        0 <= i < words@.len() ==> match store_lookup(
                            self.data_model(),
                            self.index_model(),
                            #[trigger] words.deep_view()[i],
                        ) {
                            Some(es) => es.len() > 0 ==> exists|j: int|
                                0 <= j < res@.len() && (#[trigger] res@[j]).0@
                                    == words.deep_view()[i],
                            None => false,
                        }
                },
                Err(e) => e is Format && exists|i: int|
                    0 <= i < words@.len() && store_lookup(
                        self.data_model(),
                        self.index_model(),
                        #[trigger] words.deep_view()[i],
                    ) is None,
            },
    {
        let mut cache: Vec<(u32, Vec<DictionaryEntry>)> = Vec::new();
        let mut res: Vec<(String, Vec<DictionaryEntry>)> = Vec::new();
        let nw = words.len();
        let mut i: usize = 0;
        while i < nw
            invariant
                nw == words@.len(),
                i <= nw,
                forall|c: int|
                    0 <= c < cache@.len() ==> chunk_at(
                        self.data_model(),
                        (#[trigger] cache@[c]).0,
                    ) == Some(entries_view(cache@[c].1@)),
                forall|j: int|
                    0 <= j < res@.len() ==> {
                        &&& words.deep_view().contains((#[trigger] res@[j]).0@)
                        &&& store_lookup(self.data_model(), self.index_model(), res@[j].0@)
                            == Some(entries_view(res@[j].1@))
                        &&& res@[j].1@.len() > 0
                    },
                forall|a: int, b: int|
                    0 <= a < b < res@.len() ==> (#[trigger] res@[a]).0@ != (#[trigger] res@[b]).0@,
                forall|i2: int|
                    0 <= i2 < i ==> match store_lookup(
                        self.data_model(),
                        self.index_model(),
                        #[trigger] words.deep_view()[i2],
                    ) {
                        Some(es) => es.len() > 0 ==> exists|j: int|
                            0 <= j < res@.len() && (#[trigger] res@[j]).0@
                                == words.deep_view()[i2],
                        None => false,
                    },
            decreases nw - i,
        {
            let w = &words[i];
            proof {
                assert(words.deep_view()[i as int] == words@[i as int]@);
                assert(words.deep_view().contains(w@)) by {
                    assert(words.deep_view()[i as int] == w@);
                }
            }
            if result_has_word(&res, w) {
                proof {
                    let j = choose|j: int| 0 <= j < res@.len() && (#[trigger] res@[j].0@) == w@;
                    assert(store_lookup(self.data_model(), self.index_model(), w@) == Some(
                        entries_view(res@[j].1@),
                    ));
                }
                i = i + 1;
                continue ;
            }
            match index_find(&self.index, w) {
                None => {
                    proof {
                        lemma_index_get_none(self.index_model(), w@);
                        assert(store_lookup(self.data_model(), self.index_model(), w@) == Some(
                            Seq::<EntryModel>::empty(),
                        ));
                    }
                    i = i + 1;
                },
                Some(pix) => {
                    proof {
                        lemma_index_get_at(self.index_model(), pix as int);
                    }
                    let ghost offs = self.index@[pix as int].offsets@;
                    proof {
                        assert(self.index_model()[pix as int] == self.index@[pix as int]@);
                        assert(index_get(self.index_model(), w@) == Some(offs));
                    }
                    let mut collected: Vec<DictionaryEntry> = Vec::new();
                    let no = self.index[pix].offsets.len();
                    let mut k: usize = 0;
                    proof {
                        assert(offs.take(0) =~= Seq::<u32>::empty());
                    }
                    while k < no
                        invariant
                            no == offs.len(),
                            k <= no,
                            pix < self.index@.len(),
                            offs == self.index@[pix as int].offsets@,
                            forall|c: int|
                                0 <= c < cache@.len() ==> chunk_at(
                                    self.data_model(),
                                    (#[trigger] cache@[c]).0,
                                ) == Some(entries_view(cache@[c].1@)),
                            chunks_lookup(self.data_model(), offs.take(k as int), w@) == Some(
                                entries_view(collected@),
                            ),
                        decreases no - k,
                    {
                        let off = self.index[pix].offsets[k];
                        let ci: usize = match cache_find(&cache, off) {
                            Some(c) => c,
                            None => {
                                match self.read_chunk(off) {
                                    None => {
                                        proof {
                                            lemma_chunks_lookup_none(
                                                self.data_model(),
                                                offs,
                                                k as int,
                                                w@,
                                            );
                                        }
                                        return Err(DictError::Format);
                                    },
                                    Some(chunk) => {
                                        cache.push((off, chunk));
                                        cache.len() - 1
                                    },
                                }
                            },
                        };
                        let ghost before = entries_view(collected@);
                        append_matches(&mut collected, &cache[ci].1, w);
                        proof {
                            assert(offs.take(k as int).push(off) =~= offs.take(k as int + 1));
                            lemma_chunks_lookup_push(
                                self.data_model(),
                                offs.take(k as int),
                                off,
                                w@,
                            );
                        }
                        k = k + 1;
                    }
                    proof {
                        assert(offs.take(no as int) =~= offs);
                    }
                    let ghost res0 = res@;
                    let ghost collectedv = entries_view(collected@);
                    proof {
                        assert(store_lookup(self.data_model(), self.index_model(), w@) == Some(
                            collectedv,
                        ));
                        assert(collectedv.len() == collected@.len());
                    }
                    if collected.len() > 0 {
                        res.push((w.clone(), collected));
                        proof {
                            assert(res@ =~= res0.push(
                                (res@[res0.len() as int].0, res@[res0.len() as int].1),
                            ));
                            assert(res@[res0.len() as int].0@ == w@);
                            assert(entries_view(res@[res0.len() as int].1@) == collectedv);
                            assert forall|j: int| 0 <= j < res@.len() implies {
                                &&& words.deep_view().contains((#[trigger] res@[j]).0@)
                                &&& store_lookup(
                                    self.data_model(),
                                    self.index_model(),
                                    res@[j].0@,
                                ) == Some(entries_view(res@[j].1@))
                                &&& res@[j].1@.len() > 0
                            } by {
                                if j < res0.len() {
                                    assert(res@[j] == res0[j]);
                                }
                            }
                        }
                    }
                    proof {
                        assert forall|i2: int|
                            0 <= i2 < i + 1 implies match store_lookup(
                            self.data_model(),
                            self.index_model(),
                            #[trigger] words.deep_view()[i2],
                        ) {
                            Some(es) => es.len() > 0 ==> exists|j: int|
                                0 <= j < res@.len() && (#[trigger] res@[j]).0@
                                    == words.deep_view()[i2],
                            None => false,
                        } by {
                            if i2 == i {
                                if collectedv.len() > 0 {
                                    assert(res@[res0.len() as int].0@
                                        == words.deep_view()[i2]);
                                }
                            } else {
                                match store_lookup(
                                    self.data_model(),
                                    self.index_model(),
                                    words.deep_view()[i2],
                                ) {
                                    Some(es) => {
                                        if es.len() > 0 {
                                            let j = choose|j: int|
                                                0 <= j < res0.len() && (#[trigger] res0[j]).0@
                                                    == words.deep_view()[i2];
                                            assert(res@[j] == res0[j]);
                                        }
                                    },
                                    None => {
                                    },
                                }
                            }
                        }
                    }
                    i = i + 1;
                },
            }
        }
        Ok(res)
    }
}

} // verus!
