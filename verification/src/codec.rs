//! Executable encoders and decoders for the store's byte format, verified
//! against the specification-level model in [`crate::wire`].
//!
//! Encoders append to a growing byte vector; decoders read from a byte
//! vector at a position and return the decoded value with the position
//! after it.

use vstd::prelude::*;
use vstd::slice::{slice_subrange, slice_to_vec};
use vstd::string::StrSliceExecFns;
use vstd::utf8::{valid_utf8, decode_utf8};

use crate::entry::{Source, PartOfSpeech, Definition, Example, DictionaryEntry, defs_view,
    exs_view, entries_view, DefinitionModel, ExampleModel, EntryModel};
use crate::index::{IndexEntry, index_view};
use crate::wire::{enc_u64, enc_u32, enc_u32_be, dec_u64, dec_u32, dec_u32_be, le_bytes, le_val,
    enc_str, dec_str, str_ok, i32_bits, bits_i32, enc_source, dec_source, enc_pos, dec_pos,
    tag_pos, enc_opt_idx, dec_opt_idx, enc_list, dec_list, dec_items, concat_enc,
    prepend_items, enc_strs, dec_strs, strs_ok, enc_def, dec_def, def_ok, enc_ex, dec_ex, ex_ok,
    enc_entry, dec_entry, entry_ok, enc_entries, dec_entries, entries_ok, enc_index_item,
    dec_index_item, enc_index, dec_index, index_ok, enc_str_f, dec_str_f, enc_pos_f, dec_pos_f,
    enc_def_f, dec_def_f, enc_ex_f, dec_ex_f, enc_entry_f, dec_entry_f, enc_u32_f, dec_u32_f,
    enc_index_item_f, dec_index_item_f, lemma_concat_enc_push, lemma_le_val_bound,
    lemma_pow256_8, lemma_dec_items_step, lemma_prepend_prepend};

verus! {

/// Relies on `String::from_utf8`: it succeeds exactly on valid UTF-8 input
/// and returns the character sequence that the bytes encode; UTF-8 is
/// unambiguous, so that character sequence is unique.
#[verifier::external_body]
fn string_from_utf8(v: Vec<u8>) -> (r: Option<String>)
    ensures
        match r {
            Some(s) => valid_utf8(v@) && s@ == decode_utf8(v@),
            None => !valid_utf8(v@),
        },
{
    String::from_utf8(v).ok()
}

/// Appends the eight little-endian bytes of `x`.
pub fn write_u64(out: &mut Vec<u8>, x: u64)
    ensures
        final(out)@ == old(out)@ + enc_u64(x),
{
    let b0: u8 = (x % 256) as u8;
    let y1: u64 = x / 256;
    let b1: u8 = (y1 % 256) as u8;
    let y2: u64 = y1 / 256;
    let b2: u8 = (y2 % 256) as u8;
    let y3: u64 = y2 / 256;
    let b3: u8 = (y3 % 256) as u8;
    let y4: u64 = y3 / 256;
    let b4: u8 = (y4 % 256) as u8;
    let y5: u64 = y4 / 256;
    let b5: u8 = (y5 % 256) as u8;
    let y6: u64 = y5 / 256;
    let b6: u8 = (y6 % 256) as u8;
    let y7: u64 = y6 / 256;
    let b7: u8 = (y7 % 256) as u8;
    out.push(b0);
    out.push(b1);
    out.push(b2);
    out.push(b3);
    out.push(b4);
    out.push(b5);
    out.push(b6);
    out.push(b7);
    proof {
        reveal_with_fuel(le_bytes, 9);
        assert(le_bytes(y7 as int, 1) =~= seq![b7]);
        assert(le_bytes(y6 as int, 2) =~= seq![b6] + le_bytes(y7 as int, 1));
        assert(le_bytes(y5 as int, 3) =~= seq![b5] + le_bytes(y6 as int, 2));
        assert(le_bytes(y4 as int, 4) =~= seq![b4] + le_bytes(y5 as int, 3));
        assert(le_bytes(y3 as int, 5) =~= seq![b3] + le_bytes(y4 as int, 4));
        assert(le_bytes(y2 as int, 6) =~= seq![b2] + le_bytes(y3 as int, 5));
        assert(le_bytes(y1 as int, 7) =~= seq![b1] + le_bytes(y2 as int, 6));
        assert(le_bytes(x as int, 8) =~= seq![b0] + le_bytes(y1 as int, 7));
        assert(out@ =~= old(out)@ + enc_u64(x));
    }
}

/// Appends the four little-endian bytes of `x`.
pub fn write_u32(out: &mut Vec<u8>, x: u32)
    ensures
        final(out)@ == old(out)@ + enc_u32(x),
{
    let b0: u8 = (x % 256) as u8;
    let y1: u32 = x / 256;
    let b1: u8 = (y1 % 256) as u8;
    let y2: u32 = y1 / 256;
    let b2: u8 = (y2 % 256) as u8;
    let y3: u32 = y2 / 256;
    let b3: u8 = (y3 % 256) as u8;
    out.push(b0);
    out.push(b1);
    out.push(b2);
    out.push(b3);
    proof {
        reveal_with_fuel(le_bytes, 5);
        assert(le_bytes(y3 as int, 1) =~= seq![b3]);
        assert(le_bytes(y2 as int, 2) =~= seq![b2] + le_bytes(y3 as int, 1));
        assert(le_bytes(y1 as int, 3) =~= seq![b1] + le_bytes(y2 as int, 2));
        assert(le_bytes(x as int, 4) =~= seq![b0] + le_bytes(y1 as int, 3));
        assert(out@ =~= old(out)@ + enc_u32(x));
    }
}

/// Appends the four big-endian bytes of `x`: the chunk length prefix.
pub fn write_u32_be(out: &mut Vec<u8>, x: u32)
    ensures
        final(out)@ == old(out)@ + enc_u32_be(x),
{
    let b0: u8 = (x % 256) as u8;
    let y1: u32 = x / 256;
    let b1: u8 = (y1 % 256) as u8;
    let y2: u32 = y1 / 256;
    let b2: u8 = (y2 % 256) as u8;
    let y3: u32 = y2 / 256;
    let b3: u8 = (y3 % 256) as u8;
    out.push(b3);
    out.push(b2);
    out.push(b1);
    out.push(b0);
    proof {
        reveal_with_fuel(le_bytes, 5);
        assert(le_bytes(y3 as int, 1) =~= seq![b3]);
        assert(le_bytes(y2 as int, 2) =~= seq![b2] + le_bytes(y3 as int, 1));
        assert(le_bytes(y1 as int, 3) =~= seq![b1] + le_bytes(y2 as int, 2));
        assert(le_bytes(x as int, 4) =~= seq![b0] + le_bytes(y1 as int, 3));
        assert(out@ =~= old(out)@ + enc_u32_be(x));
    }
}

/// Reads eight little-endian bytes as a 64-bit value.
pub fn read_u64(buf: &Vec<u8>, pos: usize) -> (r: Option<(u64, usize)>)
    requires
        pos <= buf@.len(),
    ensures
        match r {
            Some((v, p)) => pos <= p <= buf@.len() && dec_u64(buf@.skip(pos as int)) == Some(
                (v, buf@.skip(p as int)),
            ),
            None => dec_u64(buf@.skip(pos as int)) is None,
        },
{
    if buf.len() - pos >= 8 {
        let b0: u64 = buf[pos] as u64;
        let b1: u64 = buf[pos + 1] as u64;
        let b2: u64 = buf[pos + 2] as u64;
        let b3: u64 = buf[pos + 3] as u64;
        let b4: u64 = buf[pos + 4] as u64;
        let b5: u64 = buf[pos + 5] as u64;
        let b6: u64 = buf[pos + 6] as u64;
        let b7: u64 = buf[pos + 7] as u64;
        let v: u64 = ((((((((b7 * 256) + b6) * 256 + b5) * 256 + b4) * 256 + b3) * 256 + b2) * 256
            + b1) * 256) + b0;
        proof {
            let s = buf@.skip(pos as int);
            let t0 = s.take(8);
            let t1 = t0.drop_first();
            let t2 = t1.drop_first();
            let t3 = t2.drop_first();
            let t4 = t3.drop_first();
            let t5 = t4.drop_first();
            let t6 = t5.drop_first();
            let t7 = t6.drop_first();
            reveal_with_fuel(le_val, 9);
            assert(t7.drop_first().len() == 0);
            assert(le_val(t7) == b7);
            assert(le_val(t6) == b6 + 256 * le_val(t7));
            assert(le_val(t5) == b5 + 256 * le_val(t6));
            assert(le_val(t4) == b4 + 256 * le_val(t5));
            assert(le_val(t3) == b3 + 256 * le_val(t4));
            assert(le_val(t2) == b2 + 256 * le_val(t3));
            assert(le_val(t1) == b1 + 256 * le_val(t2));
            assert(le_val(t0) == b0 + 256 * le_val(t1));
            assert(le_val(t0) == v);
            assert(s.skip(8) =~= buf@.skip(pos as int + 8));
        }
        Some((v, pos + 8))
    } else {
        None
    }
}

/// Reads four little-endian bytes as a 32-bit value.
pub fn read_u32(buf: &Vec<u8>, pos: usize) -> (r: Option<(u32, usize)>)
    requires
        pos <= buf@.len(),
    ensures
        match r {
            Some((v, p)) => pos <= p <= buf@.len() && dec_u32(buf@.skip(pos as int)) == Some(
                (v, buf@.skip(p as int)),
            ),
            None => dec_u32(buf@.skip(pos as int)) is None,
        },
{
    if buf.len() - pos >= 4 {
        let b0: u32 = buf[pos] as u32;
        let b1: u32 = buf[pos + 1] as u32;
        let b2: u32 = buf[pos + 2] as u32;
        let b3: u32 = buf[pos + 3] as u32;
        let v: u32 = ((((b3 * 256) + b2) * 256 + b1) * 256) + b0;
        proof {
            let s = buf@.skip(pos as int);
            let t0 = s.take(4);
            let t1 = t0.drop_first();
            let t2 = t1.drop_first();
            let t3 = t2.drop_first();
            reveal_with_fuel(le_val, 5);
            assert(t3.drop_first().len() == 0);
            assert(le_val(t3) == b3);
            assert(le_val(t2) == b2 + 256 * le_val(t3));
            assert(le_val(t1) == b1 + 256 * le_val(t2));
            assert(le_val(t0) == b0 + 256 * le_val(t1));
            assert(le_val(t0) == v);
            assert(s.skip(4) =~= buf@.skip(pos as int + 4));
        }
        Some((v, pos + 4))
    } else {
        None
    }
}

/// Reads four big-endian bytes: the chunk length prefix.
pub fn read_u32_be(buf: &Vec<u8>, pos: usize) -> (r: Option<(u32, usize)>)
    requires
        pos <= buf@.len(),
    ensures
        match r {
            Some((v, p)) => pos <= p <= buf@.len() && dec_u32_be(buf@.skip(pos as int)) == Some(
                (v, buf@.skip(p as int)),
            ),
            None => dec_u32_be(buf@.skip(pos as int)) is None,
        },
{
    if buf.len() - pos >= 4 {
        let b0: u32 = buf[pos + 3] as u32;
        let b1: u32 = buf[pos + 2] as u32;
        let b2: u32 = buf[pos + 1] as u32;
        let b3: u32 = buf[pos] as u32;
        let v: u32 = ((((b3 * 256) + b2) * 256 + b1) * 256) + b0;
        proof {
            let s = buf@.skip(pos as int);
            let t0 = s.take(4).reverse();
            let t1 = t0.drop_first();
            let t2 = t1.drop_first();
            let t3 = t2.drop_first();
            assert(t0[0] == b0 && t0[1] == b1 && t0[2] == b2 && t0[3] == b3);
            reveal_with_fuel(le_val, 5);
            assert(t3.drop_first().len() == 0);
            assert(le_val(t3) == b3);
            assert(le_val(t2) == b2 + 256 * le_val(t3));
            assert(le_val(t1) == b1 + 256 * le_val(t2));
            assert(le_val(t0) == b0 + 256 * le_val(t1));
            assert(le_val(t0) == v);
            assert(s.skip(4) =~= buf@.skip(pos as int + 4));
        }
        Some((v, pos + 4))
    } else {
        None
    }
}

/// Appends a string: the length of its UTF-8 encoding, then those bytes.
pub fn write_str(out: &mut Vec<u8>, s: &String)
    ensures
        final(out)@ == old(out)@ + enc_str(s@),
        str_ok(s@),
{
    let bytes: Vec<u8> = s.as_str().as_bytes_vec();
    let n: u64 = bytes.len() as u64;
    write_u64(out, n);
    out.extend_from_slice(bytes.as_slice());
    proof {
        assert(out@ =~= old(out)@ + enc_str(s@));
    }
}

/// Reads a string: a length, then that many bytes of valid UTF-8.
pub fn read_str(buf: &Vec<u8>, pos: usize) -> (r: Option<(String, usize)>)
    requires
        pos <= buf@.len(),
    ensures
        match r {
            Some((s, p)) => pos <= p <= buf@.len() && dec_str(buf@.skip(pos as int)) == Some(
                (s@, buf@.skip(p as int)),
            ),
            None => dec_str(buf@.skip(pos as int)) is None,
        },
{
    match read_u64(buf, pos) {
        None => None,
        Some((n, p1)) => {
            if n > (buf.len() - p1) as u64 {
                proof {
                    let rest = buf@.skip(p1 as int);
                    assert(rest.len() < n);
                }
                None
            } else {
                let n_us: usize = n as usize;
                let bytes: Vec<u8> = slice_to_vec(slice_subrange(buf.as_slice(), p1, p1 + n_us));
                proof {
                    let rest = buf@.skip(p1 as int);
                    assert(bytes@ =~= rest.take(n as int));
                }
                match string_from_utf8(bytes) {
                    Some(s) => {
                        proof {
                            let rest = buf@.skip(p1 as int);
                            assert(rest.skip(n as int) =~= buf@.skip(p1 as int + n_us as int));
                        }
                        Some((s, p1 + n_us))
                    },
                    None => None,
                }
            }
        },
    }
}


/// Appends the 32-bit two's-complement pattern of a signed id.
pub fn write_i32(out: &mut Vec<u8>, x: i32)
    ensures
        final(out)@ == old(out)@ + le_bytes(i32_bits(x), 4),
{
    let u: u32 = if x >= 0 {
        x as u32
    } else {
        ((x as i64) + 0x1_0000_0000i64) as u32
    };
    write_u32(out, u);
    proof {
        assert(u as int == i32_bits(x));
    }
}

/// Appends a source key: origin tag byte, then the id pattern.
pub fn write_source(out: &mut Vec<u8>, src: Source)
    ensures
        final(out)@ == old(out)@ + enc_source(src),
{
    match src {
        Source::WaniKani(id) => {
            out.push(0u8);
            write_i32(out, id);
            proof {
                assert(out@ =~= old(out)@ + enc_source(src));
            }
        },
        Source::JMDict(id) => {
            out.push(1u8);
            write_i32(out, id);
            proof {
                assert(out@ =~= old(out)@ + enc_source(src));
            }
        },
    }
}

/// Appends the tag byte of a canonical part-of-speech value.
pub fn write_pos(out: &mut Vec<u8>, p: PartOfSpeech)
    ensures
        final(out)@ == old(out)@ + enc_pos(p),
{
    let b: u8 = match p {
        PartOfSpeech::Noun => 0,
        PartOfSpeech::Prefix => 1,
        PartOfSpeech::Verb => 2,
        PartOfSpeech::Adjective => 3,
        PartOfSpeech::Adverb => 4,
        PartOfSpeech::Adnominal => 5,
        PartOfSpeech::Conjuction => 6,
        PartOfSpeech::Particle => 7,
        PartOfSpeech::AuxiliaryVerb => 8,
        PartOfSpeech::Exclamation => 9,
        PartOfSpeech::Symbol => 10,
        PartOfSpeech::Filler => 11,
        PartOfSpeech::Other => 12,
    };
    out.push(b);
    proof {
        assert(out@ =~= old(out)@ + enc_pos(p));
    }
}

/// Appends an optional definition index.
pub fn write_opt_idx(out: &mut Vec<u8>, o: Option<usize>)
    ensures
        final(out)@ == old(out)@ + enc_opt_idx(o),
{
    match o {
        None => {
            out.push(0u8);
            proof {
                assert(out@ =~= old(out)@ + enc_opt_idx(o));
            }
        },
        Some(i) => {
            out.push(1u8);
            write_u64(out, i as u64);
            proof {
                assert(out@ =~= old(out)@ + enc_opt_idx(o));
            }
        },
    }
}

/// Appends a sequence of strings.
#[verifier::loop_isolation(false)]
pub fn write_strs(out: &mut Vec<u8>, v: &Vec<String>)
    ensures
        final(out)@ == old(out)@ + enc_strs(v.deep_view()),
        strs_ok(v.deep_view()),
{
    let ghost dv = v.deep_view();
    let n: u64 = v.len() as u64;
    write_u64(out, n);
    let mut i: usize = 0;
    while i < v.len()
        invariant
            i <= v@.len(),
            out@ == old(out)@ + enc_u64(n) + concat_enc(dv.take(i as int), enc_str_f()),
            forall|j: int| 0 <= j < i ==> str_ok(#[trigger] dv[j]),
        decreases v@.len() - i,
    {
        write_str(out, &v[i]);
        proof {
            assert(dv[i as int] == v@[i as int]@);
            assert(dv.take(i as int).push(dv[i as int]) =~= dv.take(i as int + 1));
            lemma_concat_enc_push(dv.take(i as int), dv[i as int], enc_str_f());
            assert(out@ =~= old(out)@ + enc_u64(n) + concat_enc(dv.take(i as int + 1), enc_str_f()));
        }
        i = i + 1;
    }
    proof {
        assert(dv.take(dv.len() as int) =~= dv);
        assert(out@ =~= old(out)@ + enc_strs(dv));
    }
}

/// Appends a sequence of canonical part-of-speech tags.
#[verifier::loop_isolation(false)]
pub fn write_pos_list(out: &mut Vec<u8>, v: &Vec<PartOfSpeech>)
    ensures
        final(out)@ == old(out)@ + enc_list(v@, enc_pos_f()),
        v@.len() <= u64::MAX,
{
    let n: u64 = v.len() as u64;
    write_u64(out, n);
    let mut i: usize = 0;
    while i < v.len()
        invariant
            i <= v@.len(),
            out@ == old(out)@ + enc_u64(n) + concat_enc(v@.take(i as int), enc_pos_f()),
        decreases v@.len() - i,
    {
        write_pos(out, v[i]);
        proof {
            assert(v@.take(i as int).push(v@[i as int]) =~= v@.take(i as int + 1));
            lemma_concat_enc_push(v@.take(i as int), v@[i as int], enc_pos_f());
            assert(out@ =~= old(out)@ + enc_u64(n) + concat_enc(v@.take(i as int + 1), enc_pos_f()));
        }
        i = i + 1;
    }
    proof {
        assert(v@.take(v@.len() as int) =~= v@);
        assert(out@ =~= old(out)@ + enc_list(v@, enc_pos_f()));
    }
}

/// Appends one definition.
pub fn write_def(out: &mut Vec<u8>, d: &Definition)
    ensures
        final(out)@ == old(out)@ + enc_def(d@),
        def_ok(d@),
{
    write_str(out, &d.text);
    write_pos_list(out, &d.pos);
    write_strs(out, &d.flags);
    proof {
        assert(out@ =~= old(out)@ + enc_def(d@));
    }
}

/// Appends a sequence of definitions.
#[verifier::loop_isolation(false)]
pub fn write_defs(out: &mut Vec<u8>, v: &Vec<Definition>)
    ensures
        final(out)@ == old(out)@ + enc_list(defs_view(v@), enc_def_f()),
        defs_view(v@).len() <= u64::MAX,
        forall|j: int| 0 <= j < v@.len() ==> def_ok(#[trigger] defs_view(v@)[j]),
{
    let ghost dv = defs_view(v@);
    let n: u64 = v.len() as u64;
    write_u64(out, n);
    let mut i: usize = 0;
    while i < v.len()
        invariant
            i <= v@.len(),
            out@ == old(out)@ + enc_u64(n) + concat_enc(dv.take(i as int), enc_def_f()),
            forall|j: int| 0 <= j < i ==> def_ok(#[trigger] dv[j]),
        decreases v@.len() - i,
    {
        write_def(out, &v[i]);
        proof {
            assert(dv[i as int] == v@[i as int]@);
            assert(dv.take(i as int).push(dv[i as int]) =~= dv.take(i as int + 1));
            lemma_concat_enc_push(dv.take(i as int), dv[i as int], enc_def_f());
            assert(out@ =~= old(out)@ + enc_u64(n) + concat_enc(dv.take(i as int + 1), enc_def_f()));
        }
        i = i + 1;
    }
    proof {
        assert(dv.take(dv.len() as int) =~= dv);
        assert(out@ =~= old(out)@ + enc_list(dv, enc_def_f()));
    }
}

/// Appends one example.
pub fn write_ex(out: &mut Vec<u8>, x: &Example)
    ensures
        final(out)@ == old(out)@ + enc_ex(x@),
        ex_ok(x@),
{
    write_opt_idx(out, x.for_definition);
    write_str(out, &x.en);
    write_str(out, &x.ja);
    proof {
        assert(out@ =~= old(out)@ + enc_ex(x@));
    }
}

/// Appends a sequence of examples.
#[verifier::loop_isolation(false)]
pub fn write_exs(out: &mut Vec<u8>, v: &Vec<Example>)
    ensures
        final(out)@ == old(out)@ + enc_list(exs_view(v@), enc_ex_f()),
        exs_view(v@).len() <= u64::MAX,
        forall|j: int| 0 <= j < v@.len() ==> ex_ok(#[trigger] exs_view(v@)[j]),
{
    let ghost dv = exs_view(v@);
    let n: u64 = v.len() as u64;
    write_u64(out, n);
    let mut i: usize = 0;
    while i < v.len()
        invariant
            i <= v@.len(),
            out@ == old(out)@ + enc_u64(n) + concat_enc(dv.take(i as int), enc_ex_f()),
            forall|j: int| 0 <= j < i ==> ex_ok(#[trigger] dv[j]),
        decreases v@.len() - i,
    {
        write_ex(out, &v[i]);
        proof {
            assert(dv[i as int] == v@[i as int]@);
            assert(dv.take(i as int).push(dv[i as int]) =~= dv.take(i as int + 1));
            lemma_concat_enc_push(dv.take(i as int), dv[i as int], enc_ex_f());
            assert(out@ =~= old(out)@ + enc_u64(n) + concat_enc(dv.take(i as int + 1), enc_ex_f()));
        }
        i = i + 1;
    }
    proof {
        assert(dv.take(dv.len() as int) =~= dv);
        assert(out@ =~= old(out)@ + enc_list(dv, enc_ex_f()));
    }
}

/// Appends one whole entry.
#[verifier::rlimit(50)]
pub fn write_entry(out: &mut Vec<u8>, e: &DictionaryEntry)
    ensures
        final(out)@ == old(out)@ + enc_entry(e@),
        entry_ok(e@),
{
    write_strs(out, &e.forms);
    write_source(out, e.source);
    write_defs(out, &e.definitions);
    write_strs(out, &e.audio);
    write_strs(out, &e.readings);
    write_exs(out, &e.examples);
    proof {
        assert(out@ =~= old(out)@ + enc_entry(e@));
    }
}

/// Appends one chunk's batch of entries.
#[verifier::loop_isolation(false)]
pub fn write_entries(out: &mut Vec<u8>, v: &Vec<DictionaryEntry>)
    ensures
        final(out)@ == old(out)@ + enc_entries(entries_view(v@)),
        entries_ok(entries_view(v@)),
{
    let ghost dv = entries_view(v@);
    let n: u64 = v.len() as u64;
    write_u64(out, n);
    let mut i: usize = 0;
    while i < v.len()
        invariant
            i <= v@.len(),
            out@ == old(out)@ + enc_u64(n) + concat_enc(dv.take(i as int), enc_entry_f()),
            forall|j: int| 0 <= j < i ==> entry_ok(#[trigger] dv[j]),
        decreases v@.len() - i,
    {
        write_entry(out, &v[i]);
        proof {
            assert(dv[i as int] == v@[i as int]@);
            assert(dv.take(i as int).push(dv[i as int]) =~= dv.take(i as int + 1));
            lemma_concat_enc_push(dv.take(i as int), dv[i as int], enc_entry_f());
            assert(out@ =~= old(out)@ + enc_u64(n) + concat_enc(dv.take(i as int + 1), enc_entry_f()));
        }
        i = i + 1;
    }
    proof {
        assert(dv.take(dv.len() as int) =~= dv);
        assert(out@ =~= old(out)@ + enc_entries(dv));
    }
}

/// Appends a sequence of 32-bit chunk offsets.
#[verifier::loop_isolation(false)]
pub fn write_u32s(out: &mut Vec<u8>, v: &Vec<u32>)
    ensures
        final(out)@ == old(out)@ + enc_list(v@, enc_u32_f()),
        v@.len() <= u64::MAX,
{
    let n: u64 = v.len() as u64;
    write_u64(out, n);
    let mut i: usize = 0;
    while i < v.len()
        invariant
            i <= v@.len(),
            out@ == old(out)@ + enc_u64(n) + concat_enc(v@.take(i as int), enc_u32_f()),
        decreases v@.len() - i,
    {
        write_u32(out, v[i]);
        proof {
            assert(v@.take(i as int).push(v@[i as int]) =~= v@.take(i as int + 1));
            lemma_concat_enc_push(v@.take(i as int), v@[i as int], enc_u32_f());
            assert(out@ =~= old(out)@ + enc_u64(n) + concat_enc(v@.take(i as int + 1), enc_u32_f()));
        }
        i = i + 1;
    }
    proof {
        assert(v@.take(v@.len() as int) =~= v@);
        assert(out@ =~= old(out)@ + enc_list(v@, enc_u32_f()));
    }
}

/// Appends one index association.
pub fn write_index_item(out: &mut Vec<u8>, e: &IndexEntry)
    ensures
        final(out)@ == old(out)@ + enc_index_item(e@),
        str_ok(e@.0),
        e@.1.len() <= u64::MAX,
{
    write_str(out, &e.word);
    write_u32s(out, &e.offsets);
    proof {
        assert(out@ =~= old(out)@ + enc_index_item(e@));
    }
}

/// Appends the whole index.
#[verifier::loop_isolation(false)]
pub fn write_index(out: &mut Vec<u8>, v: &Vec<IndexEntry>)
    ensures
        final(out)@ == old(out)@ + enc_index(index_view(v@)),
        index_ok(index_view(v@)),
{
    let ghost dv = index_view(v@);
    let n: u64 = v.len() as u64;
    write_u64(out, n);
    let mut i: usize = 0;
    while i < v.len()
        invariant
            i <= v@.len(),
            out@ == old(out)@ + enc_u64(n) + concat_enc(dv.take(i as int), enc_index_item_f()),
            forall|j: int| 0 <= j < i ==> str_ok((#[trigger] dv[j]).0) && dv[j].1.len() <= u64::MAX,
        decreases v@.len() - i,
    {
        write_index_item(out, &v[i]);
        proof {
            assert(dv[i as int] == v@[i as int]@);
            assert(dv.take(i as int).push(dv[i as int]) =~= dv.take(i as int + 1));
            lemma_concat_enc_push(dv.take(i as int), dv[i as int], enc_index_item_f());
            assert(out@ =~= old(out)@ + enc_u64(n) + concat_enc(
                dv.take(i as int + 1),
                enc_index_item_f(),
            ));
        }
        i = i + 1;
    }
    proof {
        assert(dv.take(dv.len() as int) =~= dv);
        assert(out@ =~= old(out)@ + enc_index(dv));
    }
}


/// The part-of-speech value a tag byte stands for, if any.
pub fn pos_of_byte(b: u8) -> (r: Option<PartOfSpeech>)
    ensures
        r == tag_pos(b),
{
    if b == 0 {
        Some(PartOfSpeech::Noun)
    } else if b == 1 {
        Some(PartOfSpeech::Prefix)
    } else if b == 2 {
        Some(PartOfSpeech::Verb)
    } else if b == 3 {
        Some(PartOfSpeech::Adjective)
    } else if b == 4 {
        Some(PartOfSpeech::Adverb)
    } else if b == 5 {
        Some(PartOfSpeech::Adnominal)
    } else if b == 6 {
        Some(PartOfSpeech::Conjuction)
    } else if b == 7 {
        Some(PartOfSpeech::Particle)
    } else if b == 8 {
        Some(PartOfSpeech::AuxiliaryVerb)
    } else if b == 9 {
        Some(PartOfSpeech::Exclamation)
    } else if b == 10 {
        Some(PartOfSpeech::Symbol)
    } else if b == 11 {
        Some(PartOfSpeech::Filler)
    } else if b == 12 {
        Some(PartOfSpeech::Other)
    } else {
        None
    }
}

/// Reads one canonical part-of-speech tag byte.
pub fn read_pos(buf: &Vec<u8>, pos: usize) -> (r: Option<(PartOfSpeech, usize)>)
    requires
        pos <= buf@.len(),
    ensures
        match r {
            Some((v, p)) => pos <= p <= buf@.len() && dec_pos(buf@.skip(pos as int)) == Some(
                (v, buf@.skip(p as int)),
            ),
            None => dec_pos(buf@.skip(pos as int)) is None,
        },
{
    if buf.len() - pos < 1 {
        return None;
    }
    proof {
        assert(buf@.skip(pos as int).drop_first() =~= buf@.skip(pos as int + 1));
    }
    match pos_of_byte(buf[pos]) {
        Some(p) => Some((p, pos + 1)),
        None => None,
    }
}

/// Reads an optional definition index.
pub fn read_opt_idx(buf: &Vec<u8>, pos: usize) -> (r: Option<(Option<usize>, usize)>)
    requires
        pos <= buf@.len(),
    ensures
        match r {
            Some((v, p)) => pos <= p <= buf@.len() && dec_opt_idx(buf@.skip(pos as int)) == Some(
                (v, buf@.skip(p as int)),
            ),
            None => dec_opt_idx(buf@.skip(pos as int)) is None,
        },
{
    if buf.len() - pos < 1 {
        return None;
    }
    let tag: u8 = buf[pos];
    proof {
        assert(buf@.skip(pos as int).drop_first() =~= buf@.skip(pos as int + 1));
    }
    if tag == 0 {
        Some((None, pos + 1))
    } else if tag == 1 {
        match read_u64(buf, pos + 1) {
            None => None,
            Some((n, p2)) => {
                if n <= usize::MAX as u64 {
                    Some((Some(n as usize), p2))
                } else {
                    None
                }
            },
        }
    } else {
        None
    }
}

/// Reads a source key: origin tag byte, then the id pattern.
pub fn read_source(buf: &Vec<u8>, pos: usize) -> (r: Option<(Source, usize)>)
    requires
        pos <= buf@.len(),
    ensures
        match r {
            Some((v, p)) => pos <= p <= buf@.len() && dec_source(buf@.skip(pos as int)) == Some(
                (v, buf@.skip(p as int)),
            ),
            None => dec_source(buf@.skip(pos as int)) is None,
        },
{
    if buf.len() - pos < 5 {
        return None;
    }
    let tag: u8 = buf[pos];
    if tag > 1 {
        return None;
    }
    match read_u32(buf, pos + 1) {
        None => {
            proof {
                assert(buf@.skip(pos as int + 1).len() >= 4);
                assert(false);
            }
            None
        },
        Some((u, p2)) => {
            let id: i32 = if u <= 0x7fff_ffffu32 {
                u as i32
            } else {
                ((u as i64) - 0x1_0000_0000i64) as i32
            };
            proof {
                let s = buf@.skip(pos as int);
                let four = buf@.skip(pos as int + 1).take(4);
                assert(s.subrange(1, 5) =~= four);
                lemma_le_val_bound(four);
                lemma_pow256_8();
                assert(u as int == le_val(four));
                assert(id == bits_i32(le_val(s.subrange(1, 5))));
                assert(s.skip(5) =~= buf@.skip(p2 as int));
            }
            if tag == 0 {
                Some((Source::WaniKani(id), p2))
            } else {
                Some((Source::JMDict(id), p2))
            }
        },
    }
}

/// Reads a sequence of strings.
#[verifier::loop_isolation(false)]
pub fn read_strs(buf: &Vec<u8>, pos: usize) -> (r: Option<(Vec<String>, usize)>)
    requires
        pos <= buf@.len(),
    ensures
        match r {
            Some((v, p)) => pos <= p <= buf@.len() && dec_strs(buf@.skip(pos as int)) == Some(
                (v.deep_view(), buf@.skip(p as int)),
            ),
            None => dec_strs(buf@.skip(pos as int)) is None,
        },
{
    match read_u64(buf, pos) {
        None => None,
        Some((n, p1)) => {
            let mut acc: Vec<String> = Vec::new();
            let mut cur: usize = p1;
            let mut k: u64 = 0;
            while k < n
                invariant
                    k <= n,
                    pos <= p1 <= cur <= buf@.len(),
                    acc.deep_view().len() == k,
                    dec_items(buf@.skip(p1 as int), n as nat, dec_str_f()) == prepend_items(
                        acc.deep_view(),
                        dec_items(buf@.skip(cur as int), (n - k) as nat, dec_str_f()),
                    ),
                decreases n - k,
            {
                proof {
                    lemma_dec_items_step(buf@.skip(cur as int), (n - k) as nat, dec_str_f());
                }
                match read_str(buf, cur) {
                    None => {
                        return None;
                    },
                    Some((x, p2)) => {
                        let ghost prev = acc.deep_view();
                        acc.push(x);
                        cur = p2;
                        k = k + 1;
                        proof {
                            assert(acc.deep_view() =~= prev.push(x@));
                            lemma_prepend_prepend(
                                prev,
                                x@,
                                dec_items(buf@.skip(cur as int), (n - k) as nat, dec_str_f()),
                            );
                        }
                    },
                }
            }
            proof {
                assert(acc.deep_view() + Seq::<Seq<char>>::empty() =~= acc.deep_view());
            }
            Some((acc, cur))
        },
    }
}

/// Reads a sequence of canonical part-of-speech tags.
#[verifier::loop_isolation(false)]
pub fn read_pos_list(buf: &Vec<u8>, pos: usize) -> (r: Option<(Vec<PartOfSpeech>, usize)>)
    requires
        pos <= buf@.len(),
    ensures
        match r {
            Some((v, p)) => pos <= p <= buf@.len() && dec_list(buf@.skip(pos as int), dec_pos_f()) == Some(
                (v@, buf@.skip(p as int)),
            ),
            None => dec_list(buf@.skip(pos as int), dec_pos_f()) is None,
        },
{
    match read_u64(buf, pos) {
        None => None,
        Some((n, p1)) => {
            let mut acc: Vec<PartOfSpeech> = Vec::new();
            let mut cur: usize = p1;
            let mut k: u64 = 0;
            while k < n
                invariant
                    k <= n,
                    pos <= p1 <= cur <= buf@.len(),
                    acc@.len() == k,
                    dec_items(buf@.skip(p1 as int), n as nat, dec_pos_f()) == prepend_items(
                        acc@,
                        dec_items(buf@.skip(cur as int), (n - k) as nat, dec_pos_f()),
                    ),
                decreases n - k,
            {
                proof {
                    lemma_dec_items_step(buf@.skip(cur as int), (n - k) as nat, dec_pos_f());
                }
                match read_pos(buf, cur) {
                    None => {
                        return None;
                    },
                    Some((x, p2)) => {
                        let ghost prev = acc@;
                        acc.push(x);
                        cur = p2;
                        k = k + 1;
                        proof {
                            assert(acc@ =~= prev.push(x));
                            lemma_prepend_prepend(
                                prev,
                                x,
                                dec_items(buf@.skip(cur as int), (n - k) as nat, dec_pos_f()),
                            );
                        }
                    },
                }
            }
            proof {
                assert(acc@ + Seq::<PartOfSpeech>::empty() =~= acc@);
            }
            Some((acc, cur))
        },
    }
}

/// Reads one definition.
pub fn read_def(buf: &Vec<u8>, pos: usize) -> (r: Option<(Definition, usize)>)
    requires
        pos <= buf@.len(),
    ensures
        match r {
            Some((d, p)) => pos <= p <= buf@.len() && dec_def(buf@.skip(pos as int)) == Some(
                (d@, buf@.skip(p as int)),
            ),
            None => dec_def(buf@.skip(pos as int)) is None,
        },
{
    match read_str(buf, pos) {
        None => None,
        Some((text, p1)) => match read_pos_list(buf, p1) {
            None => None,
            Some((pos_list, p2)) => match read_strs(buf, p2) {
                None => None,
                Some((flags, p3)) => Some((Definition { text, pos: pos_list, flags }, p3)),
            },
        },
    }
}

/// Reads a sequence of definitions.
#[verifier::loop_isolation(false)]
pub fn read_defs(buf: &Vec<u8>, pos: usize) -> (r: Option<(Vec<Definition>, usize)>)
    requires
        pos <= buf@.len(),
    ensures
        match r {
            Some((v, p)) => pos <= p <= buf@.len() && dec_list(buf@.skip(pos as int), dec_def_f()) == Some(
                (defs_view(v@), buf@.skip(p as int)),
            ),
            None => dec_list(buf@.skip(pos as int), dec_def_f()) is None,
        },
{
    match read_u64(buf, pos) {
        None => None,
        Some((n, p1)) => {
            let mut acc: Vec<Definition> = Vec::new();
            let mut cur: usize = p1;
            let mut k: u64 = 0;
            while k < n
                invariant
                    k <= n,
                    pos <= p1 <= cur <= buf@.len(),
                    defs_view(acc@).len() == k,
                    dec_items(buf@.skip(p1 as int), n as nat, dec_def_f()) == prepend_items(
                        defs_view(acc@),
                        dec_items(buf@.skip(cur as int), (n - k) as nat, dec_def_f()),
                    ),
                decreases n - k,
            {
                proof {
                    lemma_dec_items_step(buf@.skip(cur as int), (n - k) as nat, dec_def_f());
                }
                match read_def(buf, cur) {
                    None => {
                        return None;
                    },
                    Some((x, p2)) => {
                        let ghost prev = defs_view(acc@);
                        acc.push(x);
                        cur = p2;
                        k = k + 1;
                        proof {
                            assert(defs_view(acc@) =~= prev.push(x@));
                            lemma_prepend_prepend(
                                prev,
                                x@,
                                dec_items(buf@.skip(cur as int), (n - k) as nat, dec_def_f()),
                            );
                        }
                    },
                }
            }
            proof {
                assert(defs_view(acc@) + Seq::<DefinitionModel>::empty() =~= defs_view(acc@));
            }
            Some((acc, cur))
        },
    }
}

/// Reads one example.
pub fn read_ex(buf: &Vec<u8>, pos: usize) -> (r: Option<(Example, usize)>)
    requires
        pos <= buf@.len(),
    ensures
        match r {
            Some((x, p)) => pos <= p <= buf@.len() && dec_ex(buf@.skip(pos as int)) == Some(
                (x@, buf@.skip(p as int)),
            ),
            None => dec_ex(buf@.skip(pos as int)) is None,
        },
{
    match read_opt_idx(buf, pos) {
        None => None,
        Some((for_definition, p1)) => match read_str(buf, p1) {
            None => None,
            Some((en, p2)) => match read_str(buf, p2) {
                None => None,
                Some((ja, p3)) => Some((Example { for_definition, en, ja }, p3)),
            },
        },
    }
}

/// Reads a sequence of examples.
#[verifier::loop_isolation(false)]
pub fn read_exs(buf: &Vec<u8>, pos: usize) -> (r: Option<(Vec<Example>, usize)>)
    requires
        pos <= buf@.len(),
    ensures
        match r {
            Some((v, p)) => pos <= p <= buf@.len() && dec_list(buf@.skip(pos as int), dec_ex_f()) == Some(
                (exs_view(v@), buf@.skip(p as int)),
            ),
            None => dec_list(buf@.skip(pos as int), dec_ex_f()) is None,
        },
{
    match read_u64(buf, pos) {
        None => None,
        Some((n, p1)) => {
            let mut acc: Vec<Example> = Vec::new();
            let mut cur: usize = p1;
            let mut k: u64 = 0;
            while k < n
                invariant
                    k <= n,
                    pos <= p1 <= cur <= buf@.len(),
                    exs_view(acc@).len() == k,
                    dec_items(buf@.skip(p1 as int), n as nat, dec_ex_f()) == prepend_items(
                        exs_view(acc@),
                        dec_items(buf@.skip(cur as int), (n - k) as nat, dec_ex_f()),
                    ),
                decreases n - k,
            {
                proof {
                    lemma_dec_items_step(buf@.skip(cur as int), (n - k) as nat, dec_ex_f());
                }
                match read_ex(buf, cur) {
                    None => {
                        return None;
                    },
                    Some((x, p2)) => {
                        let ghost prev = exs_view(acc@);
                        acc.push(x);
                        cur = p2;
                        k = k + 1;
                        proof {
                            assert(exs_view(acc@) =~= prev.push(x@));
                            lemma_prepend_prepend(
                                prev,
                                x@,
                                dec_items(buf@.skip(cur as int), (n - k) as nat, dec_ex_f()),
                            );
                        }
                    },
                }
            }
            proof {
                assert(exs_view(acc@) + Seq::<ExampleModel>::empty() =~= exs_view(acc@));
            }
            Some((acc, cur))
        },
    }
}

/// Reads one whole entry.
#[verifier::rlimit(50)]
pub fn read_entry(buf: &Vec<u8>, pos: usize) -> (r: Option<(DictionaryEntry, usize)>)
    requires
        pos <= buf@.len(),
    ensures
        match r {
            Some((e, p)) => pos <= p <= buf@.len() && dec_entry(buf@.skip(pos as int)) == Some(
                (e@, buf@.skip(p as int)),
            ),
            None => dec_entry(buf@.skip(pos as int)) is None,
        },
{
    match read_strs(buf, pos) {
        None => None,
        Some((forms, p1)) => match read_source(buf, p1) {
            None => None,
            Some((source, p2)) => match read_defs(buf, p2) {
                None => None,
                Some((definitions, p3)) => match read_strs(buf, p3) {
                    None => None,
                    Some((audio, p4)) => match read_strs(buf, p4) {
                        None => None,
                        Some((readings, p5)) => match read_exs(buf, p5) {
                            None => None,
                            Some((examples, p6)) => Some(
                                (
                                    DictionaryEntry {
                                        forms,
                                        source,
                                        definitions,
                                        audio,
                                        readings,
                                        examples,
                                    },
                                    p6,
                                ),
                            ),
                        },
                    },
                },
            },
        },
    }
}

/// Reads one chunk's batch of entries.
#[verifier::loop_isolation(false)]
pub fn read_entries(buf: &Vec<u8>, pos: usize) -> (r: Option<(Vec<DictionaryEntry>, usize)>)
    requires
        pos <= buf@.len(),
    ensures
        match r {
            Some((v, p)) => pos <= p <= buf@.len() && dec_entries(buf@.skip(pos as int)) == Some(
                (entries_view(v@), buf@.skip(p as int)),
            ),
            None => dec_entries(buf@.skip(pos as int)) is None,
        },
{
    match read_u64(buf, pos) {
        None => None,
        Some((n, p1)) => {
            let mut acc: Vec<DictionaryEntry> = Vec::new();
            let mut cur: usize = p1;
            let mut k: u64 = 0;
            while k < n
                invariant
                    k <= n,
                    pos <= p1 <= cur <= buf@.len(),
                    entries_view(acc@).len() == k,
                    dec_items(buf@.skip(p1 as int), n as nat, dec_entry_f()) == prepend_items(
                        entries_view(acc@),
                        dec_items(buf@.skip(cur as int), (n - k) as nat, dec_entry_f()),
                    ),
                decreases n - k,
            {
                proof {
                    lemma_dec_items_step(buf@.skip(cur as int), (n - k) as nat, dec_entry_f());
                }
                match read_entry(buf, cur) {
                    None => {
                        return None;
                    },
                    Some((x, p2)) => {
                        let ghost prev = entries_view(acc@);
                        acc.push(x);
                        cur = p2;
                        k = k + 1;
                        proof {
                            assert(entries_view(acc@) =~= prev.push(x@));
                            lemma_prepend_prepend(
                                prev,
                                x@,
                                dec_items(buf@.skip(cur as int), (n - k) as nat, dec_entry_f()),
                            );
                        }
                    },
                }
            }
            proof {
                assert(entries_view(acc@) + Seq::<EntryModel>::empty() =~= entries_view(acc@));
            }
            Some((acc, cur))
        },
    }
}

/// Reads a sequence of 32-bit chunk offsets.
#[verifier::loop_isolation(false)]
pub fn read_u32s(buf: &Vec<u8>, pos: usize) -> (r: Option<(Vec<u32>, usize)>)
    requires
        pos <= buf@.len(),
    ensures
        match r {
            Some((v, p)) => pos <= p <= buf@.len() && dec_list(buf@.skip(pos as int), dec_u32_f()) == Some(
                (v@, buf@.skip(p as int)),
            ),
            None => dec_list(buf@.skip(pos as int), dec_u32_f()) is None,
        },
{
    match read_u64(buf, pos) {
        None => None,
        Some((n, p1)) => {
            let mut acc: Vec<u32> = Vec::new();
            let mut cur: usize = p1;
            let mut k: u64 = 0;
            while k < n
                invariant
                    k <= n,
                    pos <= p1 <= cur <= buf@.len(),
                    acc@.len() == k,
                    dec_items(buf@.skip(p1 as int), n as nat, dec_u32_f()) == prepend_items(
                        acc@,
                        dec_items(buf@.skip(cur as int), (n - k) as nat, dec_u32_f()),
                    ),
                decreases n - k,
            {
                proof {
                    lemma_dec_items_step(buf@.skip(cur as int), (n - k) as nat, dec_u32_f());
                }
                match read_u32(buf, cur) {
                    None => {
                        return None;
                    },
                    Some((x, p2)) => {
                        let ghost prev = acc@;
                        acc.push(x);
                        cur = p2;
                        k = k + 1;
                        proof {
                            assert(acc@ =~= prev.push(x));
                            lemma_prepend_prepend(
                                prev,
                                x,
                                dec_items(buf@.skip(cur as int), (n - k) as nat, dec_u32_f()),
                            );
                        }
                    },
                }
            }
            proof {
                assert(acc@ + Seq::<u32>::empty() =~= acc@);
            }
            Some((acc, cur))
        },
    }
}

/// Reads one index association.
pub fn read_index_item(buf: &Vec<u8>, pos: usize) -> (r: Option<(IndexEntry, usize)>)
    requires
        pos <= buf@.len(),
    ensures
        match r {
            Some((e, p)) => pos <= p <= buf@.len() && dec_index_item(buf@.skip(pos as int))
                == Some((e@, buf@.skip(p as int))),
            None => dec_index_item(buf@.skip(pos as int)) is None,
        },
{
    match read_str(buf, pos) {
        None => None,
        Some((word, p1)) => match read_u32s(buf, p1) {
            None => None,
            Some((offsets, p2)) => Some((IndexEntry { word, offsets }, p2)),
        },
    }
}

/// Reads the whole index.
#[verifier::loop_isolation(false)]
pub fn read_index(buf: &Vec<u8>, pos: usize) -> (r: Option<(Vec<IndexEntry>, usize)>)
    requires
        pos <= buf@.len(),
    ensures
        match r {
            Some((v, p)) => pos <= p <= buf@.len() && dec_index(buf@.skip(pos as int)) == Some(
                (index_view(v@), buf@.skip(p as int)),
            ),
            None => dec_index(buf@.skip(pos as int)) is None,
        },
{
    match read_u64(buf, pos) {
        None => None,
        Some((n, p1)) => {
            let mut acc: Vec<IndexEntry> = Vec::new();
            let mut cur: usize = p1;
            let mut k: u64 = 0;
            while k < n
                invariant
                    k <= n,
                    pos <= p1 <= cur <= buf@.len(),
                    index_view(acc@).len() == k,
                    dec_items(buf@.skip(p1 as int), n as nat, dec_index_item_f()) == prepend_items(
                        index_view(acc@),
                        dec_items(buf@.skip(cur as int), (n - k) as nat, dec_index_item_f()),
                    ),
                decreases n - k,
            {
                proof {
                    lemma_dec_items_step(buf@.skip(cur as int), (n - k) as nat, dec_index_item_f());
                }
                match read_index_item(buf, cur) {
                    None => {
                        return None;
                    },
                    Some((x, p2)) => {
                        let ghost prev = index_view(acc@);
                        acc.push(x);
                        cur = p2;
                        k = k + 1;
                        proof {
                            assert(index_view(acc@) =~= prev.push(x@));
                            lemma_prepend_prepend(
                                prev,
                                x@,
                                dec_items(buf@.skip(cur as int), (n - k) as nat, dec_index_item_f()),
                            );
                        }
                    },
                }
            }
            proof {
                assert(index_view(acc@) + Seq::<(Seq<char>, Seq<u32>)>::empty() =~= index_view(acc@));
            }
            Some((acc, cur))
        },
    }
}

} // verus!
