//! The inverted index: an association from word strings to the ascending
//! chunk offsets that contain them, fully resident in memory.

use vstd::prelude::*;
use vstd::string::StrSliceExecFns;

verus! {

/// One association of the index: a word and the chunk offsets recorded
/// for it, in the order they were recorded.
#[derive(Debug, Clone)]
pub struct IndexEntry {
    pub word: String,
    pub offsets: Vec<u32>,
}

impl View for IndexEntry {
    type V = (Seq<char>, Seq<u32>);

    open spec fn view(&self) -> (Seq<char>, Seq<u32>) {
        (self.word@, self.offsets@)
    }
}

/// The models of a sequence of index associations.
pub open spec fn index_view(v: Seq<IndexEntry>) -> Seq<(Seq<char>, Seq<u32>)> {
    v.map_values(|e: IndexEntry| e@)
}

/// The offsets stand in strictly ascending order: each chunk is recorded
/// at most once per word, in write order.
pub open spec fn ascending(v: Seq<u32>) -> bool {
    forall|a: int, b: int| 0 <= a < b < v.len() ==> v[a] < v[b]
}

/// Strict lexicographic order on strings, by code point: the order the
/// index keeps its words in, for compression density.
pub open spec fn lex_lt(a: Seq<char>, b: Seq<char>) -> bool
    decreases a.len(),
{
    if b.len() == 0 {
        false
    } else if a.len() == 0 {
        true
    } else if (a[0] as u32) < (b[0] as u32) {
        true
    } else if (a[0] as u32) > (b[0] as u32) {
        false
    } else {
        lex_lt(a.drop_first(), b.drop_first())
    }
}

/// The order is irreflexive.
pub proof fn lemma_lex_irrefl(a: Seq<char>)
    ensures
        !lex_lt(a, a),
    decreases a.len(),
{
    if a.len() > 0 {
        lemma_lex_irrefl(a.drop_first());
    }
}

/// The order is total: two strings compare, or they are equal.
pub proof fn lemma_lex_trichotomy(a: Seq<char>, b: Seq<char>)
    ensures
        lex_lt(a, b) || lex_lt(b, a) || a == b,
    decreases a.len(),
{
    broadcast use vstd::utf8::char_u32_cast;

    if a.len() == 0 {
        if b.len() == 0 {
            assert(a =~= b);
        }
    } else if b.len() == 0 {
    } else if (a[0] as u32) < (b[0] as u32) {
    } else if (a[0] as u32) > (b[0] as u32) {
    } else {
        vstd::utf8::char_u32_cast(a[0], a[0] as u32);
        vstd::utf8::char_u32_cast(b[0], b[0] as u32);
        assert(a[0] == b[0]);
        lemma_lex_trichotomy(a.drop_first(), b.drop_first());
        if a.drop_first() == b.drop_first() {
            assert(a.drop_first().len() == a.len() - 1);
            assert(b.drop_first().len() == b.len() - 1);
            assert(a.len() == b.len());
            assert forall|k: int| 0 <= k < a.len() implies a[k] == b[k] by {
                if k > 0 {
                    assert(a[k] == a.drop_first()[k - 1]);
                    assert(b[k] == b.drop_first()[k - 1]);
                }
            }
            assert(a =~= b);
        }
    }
}

/// The order is transitive.
pub proof fn lemma_lex_trans(a: Seq<char>, b: Seq<char>, c: Seq<char>)
    requires
        lex_lt(a, b),
        lex_lt(b, c),
    ensures
        lex_lt(a, c),
    decreases a.len(),
{
    if a.len() == 0 {
    } else {
        let x = a[0] as u32;
        let y = b[0] as u32;
        let z = c[0] as u32;
        if x == y && y == z {
            lemma_lex_trans(a.drop_first(), b.drop_first(), c.drop_first());
        }
    }
}

/// Compares two strings in the index order.
#[verifier::loop_isolation(false)]
pub fn string_lt(a: &String, b: &String) -> (r: bool)
    ensures
        r == lex_lt(a@, b@),
{
    let sa = a.as_str();
    let sb = b.as_str();
    let na = sa.unicode_len();
    let nb = sb.unicode_len();
    let mut i: usize = 0;
    proof {
        assert(a@.skip(0) =~= a@);
        assert(b@.skip(0) =~= b@);
    }
    while i < na && i < nb
        invariant
            na == a@.len(),
            nb == b@.len(),
            i <= na,
            i <= nb,
            lex_lt(a@, b@) == lex_lt(a@.skip(i as int), b@.skip(i as int)),
        decreases na - i,
    {
        let ca: u32 = sa.get_char(i) as u32;
        let cb: u32 = sb.get_char(i) as u32;
        proof {
            assert(a@.skip(i as int)[0] == a@[i as int]);
            assert(b@.skip(i as int)[0] == b@[i as int]);
            assert(a@.skip(i as int).drop_first() =~= a@.skip(i as int + 1));
            assert(b@.skip(i as int).drop_first() =~= b@.skip(i as int + 1));
        }
        if ca < cb {
            return true;
        }
        if ca > cb {
            return false;
        }
        i = i + 1;
    }
    proof {
        if i >= na {
            assert(a@.skip(i as int).len() == 0);
        }
        if i >= nb {
            assert(b@.skip(i as int).len() == 0);
        }
    }
    na < nb
}

/// Each word appears at most once, the words stand in strictly ascending
/// lexicographic order, and every offset sequence ascends.
pub open spec fn index_wf(ix: Seq<(Seq<char>, Seq<u32>)>) -> bool {
    &&& forall|i: int, j: int| 0 <= i < j < ix.len() ==> (#[trigger] ix[i]).0 != (#[trigger] ix[j]).0
    &&& forall|i: int, j: int|
        0 <= i < j < ix.len() ==> lex_lt((#[trigger] ix[i]).0, (#[trigger] ix[j]).0)
    &&& forall|i: int| 0 <= i < ix.len() ==> ascending((#[trigger] ix[i]).1)
}

/// The offsets the index associates with a word, if any: the first (and,
/// in a well-formed index, only) association for it.
pub open spec fn index_get(ix: Seq<(Seq<char>, Seq<u32>)>, w: Seq<char>) -> Option<Seq<u32>>
    decreases ix.len(),
{
    if ix.len() == 0 {
        None
    } else if ix[0].0 == w {
        Some(ix[0].1)
    } else {
        index_get(ix.drop_first(), w)
    }
}

/// In a prefix free of `w`, the association at the first position holding
/// `w` is what `index_get` returns.
pub proof fn lemma_index_get_at(ix: Seq<(Seq<char>, Seq<u32>)>, i: int)
    requires
        0 <= i < ix.len(),
        forall|j: int| 0 <= j < i ==> (#[trigger] ix[j]).0 != ix[i].0,
    ensures
        index_get(ix, ix[i].0) == Some(ix[i].1),
    decreases i,
{
    if i == 0 {
    } else {
        let tail = ix.drop_first();
        assert forall|j: int| 0 <= j < i - 1 implies (#[trigger] tail[j]).0 != tail[i - 1].0 by {
            assert(tail[j] == ix[j + 1]);
        }
        lemma_index_get_at(tail, i - 1);
        assert(tail[i - 1] == ix[i]);
    }
}

/// A word under no association is absent from the index.
pub proof fn lemma_index_get_none(ix: Seq<(Seq<char>, Seq<u32>)>, w: Seq<char>)
    requires
        forall|j: int| 0 <= j < ix.len() ==> (#[trigger] ix[j]).0 != w,
    ensures
        index_get(ix, w) is None,
    decreases ix.len(),
{
    if ix.len() > 0 {
        let tail = ix.drop_first();
        assert forall|j: int| 0 <= j < tail.len() implies (#[trigger] tail[j]).0 != w by {
            assert(tail[j] == ix[j + 1]);
        }
        lemma_index_get_none(tail, w);
    }
}

/// Updating one association leaves every other word's lookup unchanged.
pub proof fn lemma_index_get_update(
    ix1: Seq<(Seq<char>, Seq<u32>)>,
    ix2: Seq<(Seq<char>, Seq<u32>)>,
    i: int,
    u: Seq<char>,
)
    requires
        ix1.len() == ix2.len(),
        0 <= i < ix1.len(),
        forall|j: int| 0 <= j < ix1.len() && j != i ==> #[trigger] ix1[j] == ix2[j],
        ix2[i].0 == ix1[i].0,
        u != ix1[i].0,
    ensures
        index_get(ix1, u) == index_get(ix2, u),
    decreases ix1.len(),
{
    if ix1.len() > 0 {
        if i == 0 {
            assert(ix1.drop_first() =~= ix2.drop_first());
        } else {
            let t1 = ix1.drop_first();
            let t2 = ix2.drop_first();
            assert(ix1[0] == ix2[0]);
            assert forall|j: int| 0 <= j < t1.len() && j != i - 1 implies #[trigger] t1[j]
                == t2[j] by {
                assert(t1[j] == ix1[j + 1] && t2[j] == ix2[j + 1]);
            }
            lemma_index_get_update(t1, t2, i - 1, u);
        }
    }
}

/// Inserting a fresh association leaves every other word's lookup
/// unchanged.
pub proof fn lemma_index_get_insert(
    ix: Seq<(Seq<char>, Seq<u32>)>,
    p: int,
    it: (Seq<char>, Seq<u32>),
    u: Seq<char>,
)
    requires
        0 <= p <= ix.len(),
        u != it.0,
    ensures
        index_get(ix.insert(p, it), u) == index_get(ix, u),
    decreases p,
{
    let ix1 = ix.insert(p, it);
    if p == 0 {
        assert(ix1[0] == it);
        assert(ix1.drop_first() =~= ix);
    } else {
        assert(ix1[0] == ix[0]);
        assert(ix1.drop_first() =~= ix.drop_first().insert(p - 1, it));
        lemma_index_get_insert(ix.drop_first(), p - 1, it, u);
    }
}

/// Every offset recorded anywhere in the index is at most `off`.
pub open spec fn offsets_bounded(ix: Seq<(Seq<char>, Seq<u32>)>, off: u32) -> bool {
    forall|i: int, k: int|
        #![trigger ix[i].1[k]]
        0 <= i < ix.len() && 0 <= k < ix[i].1.len() ==> ix[i].1[k] <= off
}

/// Compares two strings by character content.
pub fn string_eq(a: &String, b: &String) -> (r: bool)
    ensures
        r == (a@ == b@),
{
    *a == *b
}

/// Finds the first association holding `word`, if any.
#[verifier::loop_isolation(false)]
pub fn index_find(v: &Vec<IndexEntry>, word: &String) -> (r: Option<usize>)
    ensures
        match r {
            Some(p) => p < v@.len() && index_view(v@)[p as int].0 == word@ && forall|j: int|
                0 <= j < p ==> (#[trigger] index_view(v@)[j]).0 != word@,
            None => forall|j: int|
                0 <= j < v@.len() ==> (#[trigger] index_view(v@)[j]).0 != word@,
        },
{
    let n = v.len();
    let mut i: usize = 0;
    while i < n
        invariant
            n == v@.len(),
            i <= n,
            forall|j: int| 0 <= j < i ==> (#[trigger] index_view(v@)[j]).0 != word@,
        decreases n - i,
    {
        if string_eq(&v[i].word, word) {
            proof {
                assert(index_view(v@)[i as int] == v@[i as int]@);
            }
            return Some(i);
        }
        proof {
            assert(index_view(v@)[i as int] == v@[i as int]@);
        }
        i = i + 1;
    }
    None
}

/// Records `off` under `word`: appends it to the word's offset sequence
/// unless that sequence already ends with `off`, creating the association
/// at its lexicographic position if the word is new. Every other
/// association is left unchanged.
#[verifier::loop_isolation(false)]
#[verifier::rlimit(100)]
pub fn index_insert(v: &mut Vec<IndexEntry>, word: &String, off: u32)
    requires
        index_wf(index_view(old(v)@)),
        offsets_bounded(index_view(old(v)@), off),
    ensures
        index_wf(index_view(final(v)@)),
        offsets_bounded(index_view(final(v)@), off),
        forall|u: Seq<char>| u != word@ ==> #[trigger] index_get(index_view(final(v)@), u)
            == index_get(index_view(old(v)@), u),
        index_get(index_view(final(v)@), word@) == Some(
            match index_get(index_view(old(v)@), word@) {
                None => seq![off],
                Some(offs) => if offs.len() > 0 && offs.last() == off {
                    offs
                } else {
                    offs.push(off)
                },
            },
        ),
{
    let ghost ix0 = index_view(old(v)@);
    let n = v.len();
    let mut i: usize = 0;
    while i < n && string_lt(&v[i].word, word)
        invariant
            n == v@.len(),
            i <= n,
            v@ == old(v)@,
            ix0 == index_view(v@),
            forall|j: int| 0 <= j < i ==> lex_lt((#[trigger] index_view(v@)[j]).0, word@),
        decreases n - i,
    {
        proof {
            assert(index_view(v@)[i as int] == v@[i as int]@);
        }
        i = i + 1;
    }
    proof {
        assert forall|j: int| 0 <= j < i implies (#[trigger] ix0[j]).0 != word@ by {
            if ix0[j].0 == word@ {
                lemma_lex_irrefl(word@);
            }
        }
    }
    if i < n && string_eq(&v[i].word, word) {
        proof {
            assert(ix0.len() == v@.len());
            assert(ix0[i as int] == v@[i as int]@);
            assert(ix0[i as int].0 == word@);
            lemma_index_get_at(ix0, i as int);
        }
        let ghost offs0 = ix0[i as int].1;
        let last_matches: bool = {
            let m = v[i].offsets.len();
            if m == 0 {
                false
            } else {
                v[i].offsets[m - 1] == off
            }
        };
        if !last_matches {
            let entry_ref = vstd::std_specs::vec::vec_index_mut(v, i);
            entry_ref.offsets.push(off);
        }
        proof {
            let ix1 = index_view(v@);
            assert(ix1.len() == v@.len());
            assert(ix1[i as int] == v@[i as int]@);
            assert(ix1.len() == ix0.len());
            assert(ix1[i as int].0 == ix0[i as int].0);
            assert forall|j: int| 0 <= j < ix0.len() && j != i implies #[trigger] ix0[j]
                == ix1[j] by {}
            let offs1 = ix1[i as int].1;
            assert(offs1 == if offs0.len() > 0 && offs0.last() == off {
                offs0
            } else {
                offs0.push(off)
            });
            assert(ascending(offs0));
            assert forall|a: int, b: int| 0 <= a < b < offs1.len() implies offs1[a]
                < offs1[b] by {
                if b >= offs0.len() {
                    assert(offs1[b] == off);
                    assert(ix0[i as int].1[a] <= off);
                    let m = offs0.len() - 1;
                    assert(ix0[i as int].1[m] <= off);
                    assert(offs0[m] != off);
                    if a < m {
                        assert(offs0[a] < offs0[m]);
                    }
                }
            }
            assert forall|a: int, b: int| 0 <= a < b < ix1.len() implies (
            #[trigger] ix1[a]).0 != (#[trigger] ix1[b]).0 by {
                assert(ix1[a].0 == ix0[a].0 && ix1[b].0 == ix0[b].0);
            }
            assert forall|a: int, b: int| 0 <= a < b < ix1.len() implies lex_lt(
                (#[trigger] ix1[a]).0,
                (#[trigger] ix1[b]).0,
            ) by {
                assert(ix1[a].0 == ix0[a].0 && ix1[b].0 == ix0[b].0);
            }
            assert forall|a: int| 0 <= a < ix1.len() implies ascending(
                (#[trigger] ix1[a]).1,
            ) by {
                if a != i {
                    assert(ix1[a] == ix0[a]);
                }
            }
            assert forall|a: int, k: int|
                #![trigger ix1[a].1[k]]
                0 <= a < ix1.len() && 0 <= k < ix1[a].1.len() implies ix1[a].1[k] <= off by {
                if a != i {
                    assert(ix1[a] == ix0[a]);
                    assert(ix0[a].1[k] <= off);
                } else {
                    if k < offs0.len() {
                        assert(ix0[a].1[k] <= off);
                    }
                }
            }
            assert forall|u: Seq<char>| u != word@ implies #[trigger] index_get(ix1, u)
                == index_get(ix0, u) by {
                lemma_index_get_update(ix0, ix1, i as int, u);
            }
            assert forall|j: int| 0 <= j < i implies (#[trigger] ix1[j]).0
                != ix1[i as int].0 by {
                assert(ix1[j] == ix0[j]);
            }
            lemma_index_get_at(ix1, i as int);
        }
        return ;
    }
    proof {
        assert forall|j: int| 0 <= j < ix0.len() implies (#[trigger] ix0[j]).0 != word@ by {
            if j >= i {
                if i < n {
                    assert(!lex_lt(ix0[i as int].0, word@));
                    assert(ix0[i as int].0 != word@);
                    lemma_lex_trichotomy(ix0[i as int].0, word@);
                    assert(lex_lt(word@, ix0[i as int].0));
                    if j > i {
                        assert(lex_lt(ix0[i as int].0, ix0[j].0));
                        if ix0[j].0 == word@ {
                            lemma_lex_trans(word@, ix0[i as int].0, ix0[j].0);
                            lemma_lex_irrefl(word@);
                        }
                    }
                }
            }
        }
        lemma_index_get_none(ix0, word@);
    }
    let mut offsets: Vec<u32> = Vec::new();
    offsets.push(off);
    let entry = IndexEntry { word: word.clone(), offsets };
    v.insert(i, entry);
    proof {
        let ghost it = (word@, seq![off]);
        let ix1 = index_view(v@);
        assert(ix1 =~= ix0.insert(i as int, it));
        assert(ix1[i as int] == it);
        assert forall|u: Seq<char>| u != word@ implies #[trigger] index_get(ix1, u) == index_get(
            ix0,
            u,
        ) by {
            lemma_index_get_insert(ix0, i as int, it, u);
        }
        assert forall|j: int| 0 <= j < i implies (#[trigger] ix1[j]).0 != ix1[i as int].0 by {
            assert(ix1[j] == ix0[j]);
        }
        lemma_index_get_at(ix1, i as int);
        if i < n {
            lemma_lex_trichotomy(ix0[i as int].0, word@);
        }
        assert forall|a: int, b: int| 0 <= a < b < ix1.len() implies lex_lt(
            (#[trigger] ix1[a]).0,
            (#[trigger] ix1[b]).0,
        ) by {
            if a < i && b < i {
                assert(ix1[a] == ix0[a] && ix1[b] == ix0[b]);
            } else if a < i && b == i {
                assert(ix1[a] == ix0[a]);
            } else if a == i && b > i {
                assert(ix1[b] == ix0[b - 1]);
                assert(lex_lt(word@, ix0[i as int].0));
                if b - 1 > i {
                    assert(lex_lt(ix0[i as int].0, ix0[b - 1].0));
                    lemma_lex_trans(word@, ix0[i as int].0, ix0[b - 1].0);
                }
            } else if a < i && b > i {
                assert(ix1[a] == ix0[a] && ix1[b] == ix0[b - 1]);
                assert(a < b - 1);
            } else {
                assert(ix1[a] == ix0[a - 1] && ix1[b] == ix0[b - 1]);
            }
        }
        assert forall|a: int, b: int| 0 <= a < b < ix1.len() implies (#[trigger] ix1[a]).0 != (
        #[trigger] ix1[b]).0 by {
            if lex_lt(ix1[a].0, ix1[b].0) && ix1[a].0 == ix1[b].0 {
                lemma_lex_irrefl(ix1[a].0);
            }
        }
        assert forall|a: int| 0 <= a < ix1.len() implies ascending((#[trigger] ix1[a]).1) by {
            if a < i {
                assert(ix1[a] == ix0[a]);
            } else if a > i {
                assert(ix1[a] == ix0[a - 1]);
            }
        }
        assert forall|a: int, k: int|
            #![trigger ix1[a].1[k]]
            0 <= a < ix1.len() && 0 <= k < ix1[a].1.len() implies ix1[a].1[k] <= off by {
            if a < i {
                assert(ix1[a] == ix0[a]);
                assert(ix0[a].1[k] <= off);
            } else if a > i {
                assert(ix1[a] == ix0[a - 1]);
                assert(ix0[a - 1].1[k] <= off);
            }
        }
    }
}

} // verus!
