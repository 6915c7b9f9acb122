//! The mathematical model of the store's byte format: specification-level
//! encoders and decoders for every value that reaches the data or index
//! stream, with proofs that decoding inverts encoding.
//!
//! Scalars are laid out little-endian; the only big-endian quantity of the
//! format, the 4-byte chunk length prefix, is specified here as well.
//! Strings are laid out as a length followed by their UTF-8 bytes; sequences
//! as a count followed by the encoded elements.

use vstd::prelude::*;
use vstd::utf8::{encode_utf8, decode_utf8, valid_utf8, encode_utf8_valid_utf8,
    encode_utf8_decode_utf8};

use crate::entry::{Source, PartOfSpeech, ExampleModel, DefinitionModel, EntryModel};

verus! {

/// 256 to the power `n`: the number of values `n` bytes can hold.
pub open spec fn pow256(n: nat) -> int
    decreases n,
{
    if n == 0 {
        1
    } else {
        256 * pow256((n - 1) as nat)
    }
}

/// The `n` little-endian bytes of the non-negative integer `x`.
pub open spec fn le_bytes(x: int, n: nat) -> Seq<u8>
    decreases n,
{
    if n == 0 {
        Seq::empty()
    } else {
        seq![(x % 256) as u8] + le_bytes(x / 256, (n - 1) as nat)
    }
}

/// The integer held by a little-endian byte sequence.
pub open spec fn le_val(s: Seq<u8>) -> int
    decreases s.len(),
{
    if s.len() == 0 {
        0
    } else {
        s[0] + 256 * le_val(s.drop_first())
    }
}

pub proof fn lemma_le_bytes_len(x: int, n: nat)
    ensures
        le_bytes(x, n).len() == n,
    decreases n,
{
    if n > 0 {
        lemma_le_bytes_len(x / 256, (n - 1) as nat);
    }
}

pub proof fn lemma_le_val_bound(s: Seq<u8>)
    ensures
        0 <= le_val(s) < pow256(s.len() as nat),
    decreases s.len(),
{
    if s.len() == 0 {
    } else {
        lemma_le_val_bound(s.drop_first());
        assert(le_val(s) == s[0] + 256 * le_val(s.drop_first()));
        assert(s[0] < 256);
        assert(256 * le_val(s.drop_first()) <= 256 * (pow256((s.len() - 1) as nat) - 1))
            by (nonlinear_arith)
            requires
                le_val(s.drop_first()) <= pow256((s.len() - 1) as nat) - 1,
        ;
        assert(256 * le_val(s.drop_first()) >= 0) by (nonlinear_arith)
            requires
                le_val(s.drop_first()) >= 0,
        ;
    }
}

pub proof fn lemma_le_val_le_bytes(x: int, n: nat)
    requires
        0 <= x < pow256(n),
    ensures
        le_val(le_bytes(x, n)) == x,
    decreases n,
{
    if n == 0 {
    } else {
        let s = le_bytes(x, n);
        assert(s.drop_first() =~= le_bytes(x / 256, (n - 1) as nat));
        assert(x / 256 < pow256((n - 1) as nat)) by (nonlinear_arith)
            requires
                0 <= x < 256 * pow256((n - 1) as nat),
        ;
        assert(x / 256 >= 0);
        lemma_le_val_le_bytes(x / 256, (n - 1) as nat);
        assert(le_val(s) == x % 256 + 256 * (x / 256));
        assert(x % 256 + 256 * (x / 256) == x);
    }
}

/// The eight little-endian bytes of a 64-bit count or length.
pub open spec fn enc_u64(x: u64) -> Seq<u8> {
    le_bytes(x as int, 8)
}

/// The four little-endian bytes of a 32-bit value inside the index blob.
pub open spec fn enc_u32(x: u32) -> Seq<u8> {
    le_bytes(x as int, 4)
}

/// The four big-endian bytes of a chunk's length prefix.
pub open spec fn enc_u32_be(x: u32) -> Seq<u8> {
    le_bytes(x as int, 4).reverse()
}

pub proof fn lemma_pow256_8()
    ensures
        pow256(4) == 0x1_0000_0000,
        pow256(8) == 0x1_0000_0000_0000_0000,
{
    assert(pow256(8) == 0x1_0000_0000_0000_0000) by {
        reveal_with_fuel(pow256, 9);
    }
    assert(pow256(4) == 0x1_0000_0000) by {
        reveal_with_fuel(pow256, 5);
    }
}

/// Reads a chunk length prefix; the first four bytes, big-endian.
pub open spec fn dec_u32_be(s: Seq<u8>) -> Option<(u32, Seq<u8>)> {
    if s.len() >= 4 {
        Some(((le_val(s.take(4).reverse()) as u32), s.skip(4)))
    } else {
        None
    }
}

/// Reads a 64-bit count; the first eight bytes, little-endian.
pub open spec fn dec_u64(s: Seq<u8>) -> Option<(u64, Seq<u8>)> {
    if s.len() >= 8 {
        Some(((le_val(s.take(8)) as u64), s.skip(8)))
    } else {
        None
    }
}

/// Reads a 32-bit value; the first four bytes, little-endian.
pub open spec fn dec_u32(s: Seq<u8>) -> Option<(u32, Seq<u8>)> {
    if s.len() >= 4 {
        Some(((le_val(s.take(4)) as u32), s.skip(4)))
    } else {
        None
    }
}

pub proof fn lemma_dec_enc_u64(x: u64, rest: Seq<u8>)
    ensures
        dec_u64(enc_u64(x) + rest) == Some((x, rest)),
{
    let s = enc_u64(x) + rest;
    lemma_le_bytes_len(x as int, 8);
    assert(s.take(8) =~= enc_u64(x));
    assert(s.skip(8) =~= rest);
    lemma_pow256_8();
    lemma_le_val_le_bytes(x as int, 8);
}

pub proof fn lemma_dec_enc_u32(x: u32, rest: Seq<u8>)
    ensures
        dec_u32(enc_u32(x) + rest) == Some((x, rest)),
{
    let s = enc_u32(x) + rest;
    lemma_le_bytes_len(x as int, 4);
    assert(s.take(4) =~= enc_u32(x));
    assert(s.skip(4) =~= rest);
    lemma_pow256_8();
    lemma_le_val_le_bytes(x as int, 4);
}

/// Appending an element appends its encoding.
pub proof fn lemma_concat_enc_push<V>(xs: Seq<V>, x: V, enc: spec_fn(V) -> Seq<u8>)
    ensures
        concat_enc(xs.push(x), enc) == concat_enc(xs, enc) + enc(x),
    decreases xs.len(),
{
    if xs.len() == 0 {
        reveal_with_fuel(concat_enc, 3);
        assert(xs.push(x)[0] == x);
        assert(xs.push(x).drop_first() =~= Seq::<V>::empty());
        assert(concat_enc(xs.push(x), enc) =~= concat_enc(xs, enc) + enc(x));
    } else {
        assert(xs.push(x)[0] == xs[0]);
        assert(xs.push(x).drop_first() =~= xs.drop_first().push(x));
        lemma_concat_enc_push(xs.drop_first(), x, enc);
        assert((enc(xs[0]) + concat_enc(xs.drop_first(), enc)) + enc(x) =~= enc(xs[0]) + (
        concat_enc(xs.drop_first(), enc) + enc(x)));
    }
}

/// The 32-bit offset encoder as a value.
pub open spec fn enc_u32_f() -> spec_fn(u32) -> Seq<u8> {
    |o: u32| enc_u32(o)
}

/// The 32-bit offset decoder as a value.
pub open spec fn dec_u32_f() -> spec_fn(Seq<u8>) -> Option<(u32, Seq<u8>)> {
    |s2: Seq<u8>| dec_u32(s2)
}

/// A string's encoded characters fit the 64-bit length field.
pub open spec fn str_ok(t: Seq<char>) -> bool {
    encode_utf8(t).len() <= u64::MAX
}

/// A string: the length of its UTF-8 encoding, then those bytes.
pub open spec fn enc_str(t: Seq<char>) -> Seq<u8> {
    enc_u64(encode_utf8(t).len() as u64) + encode_utf8(t)
}

/// Reads a string: a length, then that many bytes, which must be valid
/// UTF-8.
pub open spec fn dec_str(s: Seq<u8>) -> Option<(Seq<char>, Seq<u8>)> {
    match dec_u64(s) {
        Some((n, r)) => if r.len() >= n && valid_utf8(r.take(n as int)) {
            Some((decode_utf8(r.take(n as int)), r.skip(n as int)))
        } else {
            None
        },
        None => None,
    }
}

/// The string encoder as a value, shared by every list that holds strings.
pub open spec fn enc_str_f() -> spec_fn(Seq<char>) -> Seq<u8> {
    |t: Seq<char>| enc_str(t)
}

/// The string decoder as a value.
pub open spec fn dec_str_f() -> spec_fn(Seq<u8>) -> Option<(Seq<char>, Seq<u8>)> {
    |s2: Seq<u8>| dec_str(s2)
}

pub proof fn lemma_dec_enc_str(t: Seq<char>, rest: Seq<u8>)
    requires
        str_ok(t),
    ensures
        dec_str(enc_str(t) + rest) == Some((t, rest)),
{
    let b = encode_utf8(t);
    let n = b.len() as u64;
    assert(enc_str(t) + rest =~= enc_u64(n) + (b + rest));
    lemma_dec_enc_u64(n, b + rest);
    let r = (b + rest);
    assert(r.take(n as int) =~= b);
    assert(r.skip(n as int) =~= rest);
    broadcast use encode_utf8_valid_utf8;
    broadcast use encode_utf8_decode_utf8;

    assert(valid_utf8(b));
    assert(decode_utf8(b) == t);
}

/// The encoded elements of a sequence, concatenated.
pub open spec fn concat_enc<V>(xs: Seq<V>, enc: spec_fn(V) -> Seq<u8>) -> Seq<u8>
    decreases xs.len(),
{
    if xs.len() == 0 {
        Seq::empty()
    } else {
        enc(xs[0]) + concat_enc(xs.drop_first(), enc)
    }
}

/// A sequence: its element count, then the encoded elements.
pub open spec fn enc_list<V>(xs: Seq<V>, enc: spec_fn(V) -> Seq<u8>) -> Seq<u8> {
    enc_u64(xs.len() as u64) + concat_enc(xs, enc)
}

/// Reads `n` consecutive elements with the element decoder `dec`.
pub open spec fn dec_items<V>(
    s: Seq<u8>,
    n: nat,
    dec: spec_fn(Seq<u8>) -> Option<(V, Seq<u8>)>,
) -> Option<(Seq<V>, Seq<u8>)>
    decreases n,
{
    if n == 0 {
        Some((Seq::empty(), s))
    } else {
        match dec(s) {
            Some((v, r)) => match dec_items(r, (n - 1) as nat, dec) {
                Some((vs, r2)) => Some((seq![v] + vs, r2)),
                None => None,
            },
            None => None,
        }
    }
}

/// Prefixes already-read elements onto the outcome of reading the rest.
pub open spec fn prepend_items<V>(
    prefix: Seq<V>,
    r: Option<(Seq<V>, Seq<u8>)>,
) -> Option<(Seq<V>, Seq<u8>)> {
    match r {
        Some((vs, rest)) => Some((prefix + vs, rest)),
        None => None,
    }
}

/// Reads a count, then that many elements.
pub open spec fn dec_list<V>(
    s: Seq<u8>,
    dec: spec_fn(Seq<u8>) -> Option<(V, Seq<u8>)>,
) -> Option<(Seq<V>, Seq<u8>)> {
    match dec_u64(s) {
        Some((n, r)) => dec_items(r, n as nat, dec),
        None => None,
    }
}

/// One step of reading `n` elements: read one, then the rest.
pub proof fn lemma_dec_items_step<V>(
    s: Seq<u8>,
    n: nat,
    d: spec_fn(Seq<u8>) -> Option<(V, Seq<u8>)>,
)
    requires
        n > 0,
    ensures
        dec_items(s, n, d) == match d(s) {
            Some((v, r)) => prepend_items(seq![v], dec_items(r, (n - 1) as nat, d)),
            None => None::<(Seq<V>, Seq<u8>)>,
        },
{
    match d(s) {
        Some((v, r)) => {
            match dec_items(r, (n - 1) as nat, d) {
                Some(_) => {
                },
                None => {
                },
            }
        },
        None => {
        },
    }
}

/// Prefixing twice is prefixing the concatenation.
pub proof fn lemma_prepend_prepend<V>(a: Seq<V>, x: V, r: Option<(Seq<V>, Seq<u8>)>)
    ensures
        prepend_items(a, prepend_items(seq![x], r)) == prepend_items(a.push(x), r),
{
    match r {
        Some((vs, rest)) => {
            assert(a + (seq![x] + vs) =~= a.push(x) + vs);
        },
        None => {
        },
    }
}

pub proof fn lemma_dec_items_concat<V>(
    xs: Seq<V>,
    rest: Seq<u8>,
    enc: spec_fn(V) -> Seq<u8>,
    dec: spec_fn(Seq<u8>) -> Option<(V, Seq<u8>)>,
)
    requires
        forall|i: int, r: Seq<u8>|
            0 <= i < xs.len() ==> dec(#[trigger] (enc(xs[i]) + r)) == Some((xs[i], r)),
    ensures
        dec_items(concat_enc(xs, enc) + rest, xs.len(), dec) == Some((xs, rest)),
    decreases xs.len(),
{
    if xs.len() == 0 {
        assert(concat_enc(xs, enc) + rest =~= rest);
        assert(dec_items(rest, 0, dec) == Some((Seq::<V>::empty(), rest)));
    } else {
        let tail = xs.drop_first();
        assert(concat_enc(xs, enc) + rest =~= enc(xs[0]) + (concat_enc(tail, enc) + rest));
        assert(dec(enc(xs[0]) + (concat_enc(tail, enc) + rest)) == Some(
            (xs[0], concat_enc(tail, enc) + rest),
        ));
        assert forall|i: int, r: Seq<u8>| 0 <= i < tail.len() implies dec(
            #[trigger] (enc(tail[i]) + r),
        ) == Some((tail[i], r)) by {
            assert(tail[i] == xs[i + 1]);
        }
        lemma_dec_items_concat(tail, rest, enc, dec);
        assert(seq![xs[0]] + tail =~= xs);
    }
}

pub proof fn lemma_dec_enc_list<V>(
    xs: Seq<V>,
    rest: Seq<u8>,
    enc: spec_fn(V) -> Seq<u8>,
    dec: spec_fn(Seq<u8>) -> Option<(V, Seq<u8>)>,
)
    requires
        xs.len() <= u64::MAX,
        forall|i: int, r: Seq<u8>|
            0 <= i < xs.len() ==> dec(#[trigger] (enc(xs[i]) + r)) == Some((xs[i], r)),
    ensures
        dec_list(enc_list(xs, enc) + rest, dec) == Some((xs, rest)),
{
    let n = xs.len() as u64;
    assert(enc_list(xs, enc) + rest =~= enc_u64(n) + (concat_enc(xs, enc) + rest));
    lemma_dec_enc_u64(n, concat_enc(xs, enc) + rest);
    lemma_dec_items_concat(xs, rest, enc, dec);
}

/// The single tag byte of a canonical part-of-speech value.
pub open spec fn pos_tag(p: PartOfSpeech) -> u8 {
    match p {
        PartOfSpeech::Noun => 0,
        PartOfSpeech::Prefix => 1,
        PartOfSpeech::Verb => 2,
        PartOfSpeech::Adjective => 3,
        PartOfSpeech::Adverb => 4,
        PartOfSpeech::Adnominal => 5,
        PartOfSpeech::Conjuction => 6,
        PartOfSpeech::Particle => 7,
        PartOfSpeech::AuxiliaryVerb => 8,
        PartOfSpeech::Exclamation => 9,
        PartOfSpeech::Symbol => 10,
        PartOfSpeech::Filler => 11,
        PartOfSpeech::Other => 12,
    }
}

/// The part-of-speech value a tag byte stands for, if any.
pub open spec fn tag_pos(b: u8) -> Option<PartOfSpeech> {
    if b == 0 {
        Some(PartOfSpeech::Noun)
    } else if b == 1 {
        Some(PartOfSpeech::Prefix)
    } else if b == 2 {
        Some(PartOfSpeech::Verb)
    } else if b == 3 {
        Some(PartOfSpeech::Adjective)
    } else if b == 4 {
        Some(PartOfSpeech::Adverb)
    } else if b == 5 {
        Some(PartOfSpeech::Adnominal)
    } else if b == 6 {
        Some(PartOfSpeech::Conjuction)
    } else if b == 7 {
        Some(PartOfSpeech::Particle)
    } else if b == 8 {
        Some(PartOfSpeech::AuxiliaryVerb)
    } else if b == 9 {
        Some(PartOfSpeech::Exclamation)
    } else if b == 10 {
        Some(PartOfSpeech::Symbol)
    } else if b == 11 {
        Some(PartOfSpeech::Filler)
    } else if b == 12 {
        Some(PartOfSpeech::Other)
    } else {
        None
    }
}

pub open spec fn enc_pos(p: PartOfSpeech) -> Seq<u8> {
    seq![pos_tag(p)]
}

pub open spec fn dec_pos(s: Seq<u8>) -> Option<(PartOfSpeech, Seq<u8>)> {
    if s.len() >= 1 {
        match tag_pos(s[0]) {
            Some(p) => Some((p, s.drop_first())),
            None => None,
        }
    } else {
        None
    }
}

pub proof fn lemma_dec_enc_pos(p: PartOfSpeech, rest: Seq<u8>)
    ensures
        dec_pos(enc_pos(p) + rest) == Some((p, rest)),
{
    let s = enc_pos(p) + rest;
    assert(s[0] == pos_tag(p));
    assert(tag_pos(pos_tag(p)) == Some(p));
    assert(s.drop_first() =~= rest);
}


/// The part-of-speech encoder as a value.
pub open spec fn enc_pos_f() -> spec_fn(PartOfSpeech) -> Seq<u8> {
    |p: PartOfSpeech| enc_pos(p)
}

/// The part-of-speech decoder as a value.
pub open spec fn dec_pos_f() -> spec_fn(Seq<u8>) -> Option<(PartOfSpeech, Seq<u8>)> {
    |s2: Seq<u8>| dec_pos(s2)
}

/// The unsigned 32-bit pattern of a signed numeric id, as two's complement.
pub open spec fn i32_bits(x: i32) -> int {
    if x >= 0 {
        x as int
    } else {
        x + 0x1_0000_0000
    }
}

/// The signed numeric id a 32-bit pattern stands for.
pub open spec fn bits_i32(v: int) -> i32 {
    if v <= i32::MAX {
        v as i32
    } else {
        (v - 0x1_0000_0000) as i32
    }
}

/// A source key: one origin tag byte, then the id's 32-bit pattern.
pub open spec fn enc_source(src: Source) -> Seq<u8> {
    match src {
        Source::WaniKani(id) => seq![0u8] + le_bytes(i32_bits(id), 4),
        Source::JMDict(id) => seq![1u8] + le_bytes(i32_bits(id), 4),
    }
}

pub open spec fn dec_source(s: Seq<u8>) -> Option<(Source, Seq<u8>)> {
    if s.len() >= 5 {
        let id = bits_i32(le_val(s.subrange(1, 5)));
        if s[0] == 0 {
            Some((Source::WaniKani(id), s.skip(5)))
        } else if s[0] == 1 {
            Some((Source::JMDict(id), s.skip(5)))
        } else {
            None
        }
    } else {
        None
    }
}

pub proof fn lemma_dec_enc_source(src: Source, rest: Seq<u8>)
    ensures
        dec_source(enc_source(src) + rest) == Some((src, rest)),
{
    let id = match src {
        Source::WaniKani(id) => id,
        Source::JMDict(id) => id,
    };
    lemma_le_bytes_len(i32_bits(id), 4);
    let s = enc_source(src) + rest;
    assert(s.subrange(1, 5) =~= le_bytes(i32_bits(id), 4));
    lemma_pow256_8();
    lemma_le_val_le_bytes(i32_bits(id), 4);
    assert(bits_i32(i32_bits(id)) == id);
    assert(s.skip(5) =~= rest);
}

/// An optional definition index: an absence byte, or a presence byte and
/// the index.
pub open spec fn enc_opt_idx(o: Option<usize>) -> Seq<u8> {
    match o {
        None => seq![0u8],
        Some(i) => seq![1u8] + enc_u64(i as u64),
    }
}

pub open spec fn dec_opt_idx(s: Seq<u8>) -> Option<(Option<usize>, Seq<u8>)> {
    if s.len() < 1 {
        None
    } else if s[0] == 0 {
        Some((None, s.drop_first()))
    } else if s[0] == 1 {
        match dec_u64(s.drop_first()) {
            Some((n, r)) => if n <= usize::MAX as u64 {
                Some((Some(n as usize), r))
            } else {
                None
            },
            None => None,
        }
    } else {
        None
    }
}

pub proof fn lemma_dec_enc_opt_idx(o: Option<usize>, rest: Seq<u8>)
    ensures
        dec_opt_idx(enc_opt_idx(o) + rest) == Some((o, rest)),
{
    let s = enc_opt_idx(o) + rest;
    match o {
        None => {
            assert(s.drop_first() =~= rest);
        },
        Some(i) => {
            assert(s.drop_first() =~= enc_u64(i as u64) + rest);
            lemma_dec_enc_u64(i as u64, rest);
        },
    }
}

/// Every string of the sequence fits the format, and so does the count.
pub open spec fn strs_ok(v: Seq<Seq<char>>) -> bool {
    &&& v.len() <= u64::MAX
    &&& forall|i: int| 0 <= i < v.len() ==> str_ok(#[trigger] v[i])
}

pub open spec fn enc_strs(v: Seq<Seq<char>>) -> Seq<u8> {
    enc_list(v, enc_str_f())
}

pub open spec fn dec_strs(s: Seq<u8>) -> Option<(Seq<Seq<char>>, Seq<u8>)> {
    dec_list(s, dec_str_f())
}

pub proof fn lemma_dec_enc_strs(v: Seq<Seq<char>>, rest: Seq<u8>)
    requires
        strs_ok(v),
    ensures
        dec_strs(enc_strs(v) + rest) == Some((v, rest)),
{
    let enc = enc_str_f();
    let dec = dec_str_f();
    assert forall|i: int, r: Seq<u8>| 0 <= i < v.len() implies dec(
        #[trigger] (enc(v[i]) + r),
    ) == Some((v[i], r)) by {
        lemma_dec_enc_str(v[i], r);
    }
    lemma_dec_enc_list(v, rest, enc, dec);
}

/// A definition fits the format.
pub open spec fn def_ok(d: DefinitionModel) -> bool {
    &&& str_ok(d.text)
    &&& d.pos.len() <= u64::MAX
    &&& strs_ok(d.flags)
}

/// A definition: its gloss text, its canonical tags, its flags.
pub open spec fn enc_def(d: DefinitionModel) -> Seq<u8> {
    enc_str(d.text) + enc_list(d.pos, enc_pos_f()) + enc_strs(d.flags)
}

pub open spec fn dec_def(s: Seq<u8>) -> Option<(DefinitionModel, Seq<u8>)> {
    match dec_str(s) {
        Some((text, r1)) => match dec_list(r1, dec_pos_f()) {
            Some((pos, r2)) => match dec_strs(r2) {
                Some((flags, r3)) => Some((DefinitionModel { text, pos, flags }, r3)),
                None => None,
            },
            None => None,
        },
        None => None,
    }
}

pub proof fn lemma_dec_enc_def(d: DefinitionModel, rest: Seq<u8>)
    requires
        def_ok(d),
    ensures
        dec_def(enc_def(d) + rest) == Some((d, rest)),
{
    let ep = enc_pos_f();
    let dp = dec_pos_f();
    let pos_bytes = enc_list(d.pos, ep);
    assert(enc_def(d) + rest =~= enc_str(d.text) + (pos_bytes + (enc_strs(d.flags) + rest)));
    lemma_dec_enc_str(d.text, pos_bytes + (enc_strs(d.flags) + rest));
    assert forall|i: int, r: Seq<u8>| 0 <= i < d.pos.len() implies dp(
        #[trigger] (ep(d.pos[i]) + r),
    ) == Some((d.pos[i], r)) by {
        lemma_dec_enc_pos(d.pos[i], r);
    }
    lemma_dec_enc_list(d.pos, enc_strs(d.flags) + rest, ep, dp);
    lemma_dec_enc_strs(d.flags, rest);
}

/// The definition encoder as a value.
pub open spec fn enc_def_f() -> spec_fn(DefinitionModel) -> Seq<u8> {
    |d: DefinitionModel| enc_def(d)
}

/// The definition decoder as a value.
pub open spec fn dec_def_f() -> spec_fn(Seq<u8>) -> Option<(DefinitionModel, Seq<u8>)> {
    |s2: Seq<u8>| dec_def(s2)
}

/// An example fits the format.
pub open spec fn ex_ok(x: ExampleModel) -> bool {
    &&& str_ok(x.en)
    &&& str_ok(x.ja)
}

/// An example: its optional definition index and the two parallel
/// sentences.
pub open spec fn enc_ex(x: ExampleModel) -> Seq<u8> {
    enc_opt_idx(x.for_definition) + enc_str(x.en) + enc_str(x.ja)
}

pub open spec fn dec_ex(s: Seq<u8>) -> Option<(ExampleModel, Seq<u8>)> {
    match dec_opt_idx(s) {
        Some((for_definition, r1)) => match dec_str(r1) {
            Some((en, r2)) => match dec_str(r2) {
                Some((ja, r3)) => Some((ExampleModel { for_definition, en, ja }, r3)),
                None => None,
            },
            None => None,
        },
        None => None,
    }
}

pub proof fn lemma_dec_enc_ex(x: ExampleModel, rest: Seq<u8>)
    requires
        ex_ok(x),
    ensures
        dec_ex(enc_ex(x) + rest) == Some((x, rest)),
{
    assert(enc_ex(x) + rest =~= enc_opt_idx(x.for_definition) + (enc_str(x.en) + (enc_str(x.ja)
        + rest)));
    lemma_dec_enc_opt_idx(x.for_definition, enc_str(x.en) + (enc_str(x.ja) + rest));
    lemma_dec_enc_str(x.en, enc_str(x.ja) + rest);
    lemma_dec_enc_str(x.ja, rest);
}

/// The example encoder as a value.
pub open spec fn enc_ex_f() -> spec_fn(ExampleModel) -> Seq<u8> {
    |x: ExampleModel| enc_ex(x)
}

/// The example decoder as a value.
pub open spec fn dec_ex_f() -> spec_fn(Seq<u8>) -> Option<(ExampleModel, Seq<u8>)> {
    |s2: Seq<u8>| dec_ex(s2)
}

/// An entry fits the format.
pub open spec fn entry_ok(e: EntryModel) -> bool {
    &&& strs_ok(e.forms)
    &&& e.definitions.len() <= u64::MAX
    &&& forall|i: int| 0 <= i < e.definitions.len() ==> def_ok(#[trigger] e.definitions[i])
    &&& strs_ok(e.audio)
    &&& strs_ok(e.readings)
    &&& e.examples.len() <= u64::MAX
    &&& forall|i: int| 0 <= i < e.examples.len() ==> ex_ok(#[trigger] e.examples[i])
}

/// An entry: forms, source key, definitions, audio references, readings,
/// examples, in that order.
pub open spec fn enc_entry(e: EntryModel) -> Seq<u8> {
    enc_strs(e.forms) + enc_source(e.source) + enc_list(e.definitions, enc_def_f())
        + enc_strs(e.audio) + enc_strs(e.readings) + enc_list(e.examples, enc_ex_f())
}

pub open spec fn dec_entry(s: Seq<u8>) -> Option<(EntryModel, Seq<u8>)> {
    match dec_strs(s) {
        Some((forms, r1)) => match dec_source(r1) {
            Some((source, r2)) => match dec_list(r2, dec_def_f()) {
                Some((definitions, r3)) => match dec_strs(r3) {
                    Some((audio, r4)) => match dec_strs(r4) {
                        Some((readings, r5)) => match dec_list(r5, dec_ex_f()) {
                            Some((examples, r6)) => Some(
                                (
                                    EntryModel {
                                        forms,
                                        source,
                                        definitions,
                                        audio,
                                        readings,
                                        examples,
                                    },
                                    r6,
                                ),
                            ),
                            None => None,
                        },
                        None => None,
                    },
                    None => None,
                },
                None => None,
            },
            None => None,
        },
        None => None,
    }
}

#[verifier::rlimit(100)]
pub proof fn lemma_dec_enc_entry(e: EntryModel, rest: Seq<u8>)
    requires
        entry_ok(e),
    ensures
        dec_entry(enc_entry(e) + rest) == Some((e, rest)),
{
    let ed = enc_def_f();
    let dd = dec_def_f();
    let ee = enc_ex_f();
    let de = dec_ex_f();
    let b_defs = enc_list(e.definitions, ed);
    let b_exs = enc_list(e.examples, ee);
    let t5 = b_exs + rest;
    let t4 = enc_strs(e.readings) + t5;
    let t3 = enc_strs(e.audio) + t4;
    let t2 = b_defs + t3;
    let t1 = enc_source(e.source) + t2;
    assert(enc_entry(e) + rest =~= enc_strs(e.forms) + t1);
    lemma_dec_enc_strs(e.forms, t1);
    lemma_dec_enc_source(e.source, t2);
    assert forall|i: int, r: Seq<u8>| 0 <= i < e.definitions.len() implies dd(
        #[trigger] (ed(e.definitions[i]) + r),
    ) == Some((e.definitions[i], r)) by {
        lemma_dec_enc_def(e.definitions[i], r);
    }
    lemma_dec_enc_list(e.definitions, t3, ed, dd);
    lemma_dec_enc_strs(e.audio, t4);
    lemma_dec_enc_strs(e.readings, t5);
    assert forall|i: int, r: Seq<u8>| 0 <= i < e.examples.len() implies de(
        #[trigger] (ee(e.examples[i]) + r),
    ) == Some((e.examples[i], r)) by {
        lemma_dec_enc_ex(e.examples[i], r);
    }
    lemma_dec_enc_list(e.examples, rest, ee, de);
}

/// The entry encoder as a value.
pub open spec fn enc_entry_f() -> spec_fn(EntryModel) -> Seq<u8> {
    |e: EntryModel| enc_entry(e)
}

/// The entry decoder as a value.
pub open spec fn dec_entry_f() -> spec_fn(Seq<u8>) -> Option<(EntryModel, Seq<u8>)> {
    |s2: Seq<u8>| dec_entry(s2)
}

/// A batch of entries fits the format.
pub open spec fn entries_ok(es: Seq<EntryModel>) -> bool {
    &&& es.len() <= u64::MAX
    &&& forall|i: int| 0 <= i < es.len() ==> entry_ok(#[trigger] es[i])
}

/// The serialized form of one chunk's batch of entries.
pub open spec fn enc_entries(es: Seq<EntryModel>) -> Seq<u8> {
    enc_list(es, enc_entry_f())
}

/// What a chunk's decompressed bytes must decode to: a batch of entries
/// consuming the whole byte sequence.
pub open spec fn dec_entries(s: Seq<u8>) -> Option<(Seq<EntryModel>, Seq<u8>)> {
    dec_list(s, dec_entry_f())
}

pub proof fn lemma_dec_enc_entries(es: Seq<EntryModel>, rest: Seq<u8>)
    requires
        entries_ok(es),
    ensures
        dec_entries(enc_entries(es) + rest) == Some((es, rest)),
{
    let enc = enc_entry_f();
    let dec = dec_entry_f();
    assert forall|i: int, r: Seq<u8>| 0 <= i < es.len() implies dec(
        #[trigger] (enc(es[i]) + r),
    ) == Some((es[i], r)) by {
        lemma_dec_enc_entry(es[i], r);
    }
    lemma_dec_enc_list(es, rest, enc, dec);
}

/// One index association: a word and the ascending chunk offsets that
/// contain it.
pub open spec fn enc_index_item(it: (Seq<char>, Seq<u32>)) -> Seq<u8> {
    enc_str(it.0) + enc_list(it.1, enc_u32_f())
}

pub open spec fn dec_index_item(s: Seq<u8>) -> Option<((Seq<char>, Seq<u32>), Seq<u8>)> {
    match dec_str(s) {
        Some((word, r1)) => match dec_list(r1, dec_u32_f()) {
            Some((offsets, r2)) => Some(((word, offsets), r2)),
            None => None,
        },
        None => None,
    }
}

pub proof fn lemma_dec_enc_index_item(it: (Seq<char>, Seq<u32>), rest: Seq<u8>)
    requires
        str_ok(it.0),
        it.1.len() <= u64::MAX,
    ensures
        dec_index_item(enc_index_item(it) + rest) == Some((it, rest)),
{
    let eo = enc_u32_f();
    let dc = dec_u32_f();
    assert(enc_index_item(it) + rest =~= enc_str(it.0) + (enc_list(it.1, eo) + rest));
    lemma_dec_enc_str(it.0, enc_list(it.1, eo) + rest);
    assert forall|i: int, r: Seq<u8>| 0 <= i < it.1.len() implies dc(
        #[trigger] (eo(it.1[i]) + r),
    ) == Some((it.1[i], r)) by {
        lemma_dec_enc_u32(it.1[i], r);
    }
    lemma_dec_enc_list(it.1, rest, eo, dc);
}

/// The index association encoder as a value.
pub open spec fn enc_index_item_f() -> spec_fn((Seq<char>, Seq<u32>)) -> Seq<u8> {
    |it: (Seq<char>, Seq<u32>)| enc_index_item(it)
}

/// The index association decoder as a value.
pub open spec fn dec_index_item_f() -> spec_fn(Seq<u8>) -> Option<((Seq<char>, Seq<u32>), Seq<u8>)> {
    |s2: Seq<u8>| dec_index_item(s2)
}

/// The index fits the format.
pub open spec fn index_ok(ix: Seq<(Seq<char>, Seq<u32>)>) -> bool {
    &&& ix.len() <= u64::MAX
    &&& forall|i: int| 0 <= i < ix.len() ==> str_ok((#[trigger] ix[i]).0) && ix[i].1.len() <= u64::MAX
}

/// The serialized form of the whole index.
pub open spec fn enc_index(ix: Seq<(Seq<char>, Seq<u32>)>) -> Seq<u8> {
    enc_list(ix, enc_index_item_f())
}

pub open spec fn dec_index(s: Seq<u8>) -> Option<(Seq<(Seq<char>, Seq<u32>)>, Seq<u8>)> {
    dec_list(s, dec_index_item_f())
}

pub proof fn lemma_dec_enc_index(ix: Seq<(Seq<char>, Seq<u32>)>, rest: Seq<u8>)
    requires
        index_ok(ix),
    ensures
        dec_index(enc_index(ix) + rest) == Some((ix, rest)),
{
    let enc = enc_index_item_f();
    let dec = dec_index_item_f();
    assert forall|i: int, r: Seq<u8>| 0 <= i < ix.len() implies dec(
        #[trigger] (enc(ix[i]) + r),
    ) == Some((ix[i], r)) by {
        lemma_dec_enc_index_item(ix[i], r);
    }
    lemma_dec_enc_list(ix, rest, enc, dec);
}

} // verus!
