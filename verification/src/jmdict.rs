//! The element shapes of the XML dictionary interchange collaborator, and
//! the pure conversion from a parsed entry element to a dictionary entry.
//! Reading and event-parsing the XML stay outside the library; this
//! module only turns already-parsed elements into entries.

use vstd::prelude::*;
use vstd::string::StrSliceExecFns;

use crate::entry::{DictionaryEntry, Definition, Example, Source, DictError, ExampleModel,
    DefinitionModel, join_comma, joined, clone_strings, defs_view, exs_view};
use crate::pos::{classify_all, dedup};
use crate::index::string_eq;

verus! {

/// A failure of the XML event parser around this module.
#[derive(Debug, Clone)]
pub enum JMDictParseError {
    /// A start tag was closed by a different end tag.
    MismatchedTags { start: String, end: String },
    /// A start tag appeared where its parent admits none such.
    UnexpectedStart { tag_name: String, in_tag: String },
}

/// One kanji element: a surface form with its annotations.
pub struct JMDKanji {
    pub keb: String,
    pub ke_inf: Vec<String>,
    pub ke_pri: Vec<String>,
}

/// One reading element: a phonetic form with its annotations.
pub struct JMDReading {
    pub reb: String,
    pub re_nokanji: Option<String>,
    pub re_restr: Vec<String>,
    pub re_inf: Vec<String>,
    pub re_pri: Vec<String>,
}

/// One source-language note of a sense.
pub struct JMDLSource {
    pub lsource: String,
    pub lang: String,
    pub ls_type: Option<String>,
    pub ls_wasei: Option<String>,
}

/// One gloss of a sense.
pub struct JMDGloss {
    pub text: String,
    pub lang: Option<String>,
    pub g_gend: Option<String>,
}

/// One sentence of an example, tagged with its language.
pub struct JMDSentence {
    pub text: String,
    pub lang: String,
}

/// One example element of a sense.
pub struct JMDExample {
    pub ex_srce: String,
    pub ex_text: String,
    pub ex_sent: Vec<JMDSentence>,
}

/// One sense element: glosses with their annotations and examples.
pub struct JMDSense {
    pub stagk: Vec<String>,
    pub stagr: Vec<String>,
    pub pos: Vec<String>,
    pub xref: Vec<String>,
    pub ant: Vec<String>,
    pub field: Vec<String>,
    pub misc: Vec<String>,
    pub s_inf: Vec<String>,
    pub lsource: Vec<JMDLSource>,
    pub dial: Vec<String>,
    pub gloss: Vec<JMDGloss>,
    pub examples: Vec<JMDExample>,
}

/// One whole entry element.
pub struct JMDEntry {
    pub ent_seq: String,
    pub k_ele: Vec<JMDKanji>,
    pub r_ele: Vec<JMDReading>,
    pub sense: Vec<JMDSense>,
}

/// The value of a decimal digit string.
pub open spec fn digits_val(s: Seq<char>) -> int
    decreases s.len(),
{
    if s.len() == 0 {
        0
    } else {
        digits_val(s.drop_last()) * 10 + (s.last() as int - 48)
    }
}

/// A non-empty string of decimal digits.
pub open spec fn all_digits(s: Seq<char>) -> bool {
    s.len() > 0 && forall|i: int| 0 <= i < s.len() ==> 48 <= (#[trigger] s[i]) as int <= 57
}

/// A Unicode white-space code point, as trimming removes them.
pub open spec fn is_ws(c: char) -> bool {
    let u = c as u32;
    ||| u == 9
    ||| u == 10
    ||| u == 11
    ||| u == 12
    ||| u == 13
    ||| u == 32
    ||| u == 0x85
    ||| u == 0xA0
    ||| u == 0x1680
    ||| (0x2000 <= u && u <= 0x200A)
    ||| u == 0x2028
    ||| u == 0x2029
    ||| u == 0x202F
    ||| u == 0x205F
    ||| u == 0x3000
}

/// The string with its leading white space removed.
pub open spec fn trim_front(s: Seq<char>) -> Seq<char>
    decreases s.len(),
{
    if s.len() > 0 && is_ws(s[0]) {
        trim_front(s.drop_first())
    } else {
        s
    }
}

/// The string with its trailing white space removed.
pub open spec fn trim_back(s: Seq<char>) -> Seq<char>
    decreases s.len(),
{
    if s.len() > 0 && is_ws(s.last()) {
        trim_back(s.drop_last())
    } else {
        s
    }
}

/// The string with white space removed from both ends.
pub open spec fn trimmed(s: Seq<char>) -> Seq<char> {
    trim_back(trim_front(s))
}

/// The signed decimal value of a string of the shape an integer parse
/// accepts: an optional sign, then at least one digit, nothing else.
pub open spec fn signed_val(t: Seq<char>) -> Option<int> {
    if t.len() >= 1 && (t[0] == '+' || t[0] == '-') {
        if all_digits(t.drop_first()) {
            Some(
                if t[0] == '-' {
                    -digits_val(t.drop_first())
                } else {
                    digits_val(t.drop_first())
                },
            )
        } else {
            None
        }
    } else if all_digits(t) {
        Some(digits_val(t))
    } else {
        None
    }
}

/// The numeric id an entry-sequence string stands for: the string is
/// trimmed of surrounding white space and read as an optionally signed
/// decimal number; anything that does not parse, or does not fit a
/// signed 32-bit id, stands for -1.
pub open spec fn entry_id_of(s: Seq<char>) -> i32 {
    match signed_val(trimmed(s)) {
        Some(v) => if i32::MIN <= v <= i32::MAX {
            v as i32
        } else {
            (-1) as i32
        },
        None => (-1) as i32,
    }
}

proof fn lemma_digits_val_nonneg(s: Seq<char>)
    requires
        forall|i: int| 0 <= i < s.len() ==> 48 <= (#[trigger] s[i]) as int <= 57,
    ensures
        digits_val(s) >= 0,
    decreases s.len(),
{
    if s.len() > 0 {
        assert forall|i: int| 0 <= i < s.drop_last().len() implies 48 <= (
        #[trigger] s.drop_last()[i]) as int <= 57 by {
            assert(s.drop_last()[i] == s[i]);
        }
        lemma_digits_val_nonneg(s.drop_last());
        assert(digits_val(s.drop_last()) * 10 >= 0) by (nonlinear_arith)
            requires
                digits_val(s.drop_last()) >= 0,
        ;
    }
}

proof fn lemma_digits_val_mono(s: Seq<char>, i: int)
    requires
        0 <= i <= s.len(),
        forall|k: int| 0 <= k < s.len() ==> 48 <= (#[trigger] s[k]) as int <= 57,
    ensures
        digits_val(s) >= digits_val(s.take(i)),
    decreases s.len() - i,
{
    if i < s.len() {
        let t = s.take(i + 1);
        assert(t.drop_last() =~= s.take(i));
        assert(t.last() == s[i]);
        assert forall|k: int| 0 <= k < s.take(i).len() implies 48 <= (
        #[trigger] s.take(i)[k]) as int <= 57 by {
            assert(s.take(i)[k] == s[k]);
        }
        lemma_digits_val_nonneg(s.take(i));
        assert(digits_val(t) >= digits_val(s.take(i))) by (nonlinear_arith)
            requires
                digits_val(t) == digits_val(s.take(i)) * 10 + (s[i] as int - 48),
                digits_val(s.take(i)) >= 0,
                48 <= s[i] as int <= 57,
        ;
        lemma_digits_val_mono(s, i + 1);
    } else {
        assert(s.take(i) =~= s);
    }
}

/// Dropping exactly the leading white-space run is what `trim_front`
/// does.
proof fn lemma_trim_front_skip(s: Seq<char>, i: int)
    requires
        0 <= i <= s.len(),
        forall|k: int| 0 <= k < i ==> is_ws(#[trigger] s[k]),
        i < s.len() ==> !is_ws(s[i]),
    ensures
        trim_front(s) == s.skip(i),
    decreases i,
{
    if i == 0 {
        assert(s.skip(0) =~= s);
    } else {
        let t = s.drop_first();
        assert forall|k: int| 0 <= k < i - 1 implies is_ws(#[trigger] t[k]) by {
            assert(t[k] == s[k + 1]);
        }
        assert(i - 1 < t.len() ==> t[i - 1] == s[i]);
        lemma_trim_front_skip(t, i - 1);
        assert(t.skip(i - 1) =~= s.skip(i));
    }
}

/// Dropping exactly the trailing white-space run is what `trim_back`
/// does.
proof fn lemma_trim_back_take(s: Seq<char>, j: int)
    requires
        0 <= j <= s.len(),
        forall|k: int| j <= k < s.len() ==> is_ws(#[trigger] s[k]),
        j > 0 ==> !is_ws(s[j - 1]),
    ensures
        trim_back(s) == s.take(j),
    decreases s.len(),
{
    if j == s.len() {
        assert(s.take(j) =~= s);
    } else {
        assert(is_ws(s.last()));
        let t = s.drop_last();
        assert forall|k: int| j <= k < t.len() implies is_ws(#[trigger] t[k]) by {
            assert(t[k] == s[k]);
        }
        assert(j > 0 ==> t[j - 1] == s[j - 1]);
        lemma_trim_back_take(t, j);
        assert(t.take(j) =~= s.take(j));
    }
}

/// Whether a character is Unicode white space.
fn is_ws_char(c: char) -> (r: bool)
    ensures
        r == is_ws(c),
{
    let u: u32 = c as u32;
    u == 9 || u == 10 || u == 11 || u == 12 || u == 13 || u == 32 || u == 0x85 || u == 0xA0
        || u == 0x1680 || (0x2000 <= u && u <= 0x200A) || u == 0x2028 || u == 0x2029 || u == 0x202F
        || u == 0x205F || u == 0x3000
}

/// Parses an entry-sequence id: surrounding white space is trimmed, an
/// optional sign and a decimal digit string are read, and anything that
/// does not parse or does not fit a signed 32-bit id yields -1.
#[verifier::loop_isolation(false)]
#[verifier::rlimit(50)]
pub fn parse_entry_id(s: &str) -> (r: i32)
    ensures
        r == entry_id_of(s@),
{
    let n = s.unicode_len();
    let mut lo: usize = 0;
    while lo < n && is_ws_char(s.get_char(lo))
        invariant
            n == s@.len(),
            lo <= n,
            forall|k: int| 0 <= k < lo ==> is_ws(#[trigger] s@[k]),
        decreases n - lo,
    {
        lo = lo + 1;
    }
    let mut hi: usize = n;
    while hi > lo && is_ws_char(s.get_char(hi - 1))
        invariant
            n == s@.len(),
            lo <= hi <= n,
            forall|k: int| hi <= k < n ==> is_ws(#[trigger] s@[k]),
        decreases hi,
    {
        hi = hi - 1;
    }
    let ghost t = trimmed(s@);
    proof {
        lemma_trim_front_skip(s@, lo as int);
        let mid = s@.skip(lo as int);
        assert forall|k: int| hi - lo <= k < mid.len() implies is_ws(#[trigger] mid[k]) by {
            assert(mid[k] == s@[k + lo]);
        }
        assert(hi - lo > 0 ==> mid[hi - lo - 1] == s@[hi - 1]);
        lemma_trim_back_take(mid, hi - lo);
        assert(t =~= s@.subrange(lo as int, hi as int));
    }
    if hi == lo {
        return -1;
    }
    let first: char = s.get_char(lo);
    let fu: u32 = first as u32;
    let neg: bool = fu == 45;
    let ds: usize = if fu == 43 || fu == 45 {
        lo + 1
    } else {
        lo
    };
    let ghost w = s@.subrange(ds as int, hi as int);
    proof {
        assert(t[0] == s@[lo as int]);
        assert((t[0] == '+' || t[0] == '-') == (fu == 43 || fu == 45));
        if ds > lo {
            assert(t.drop_first() =~= w);
        } else {
            assert(t =~= w);
        }
    }
    if ds == hi {
        proof {
            assert(w.len() == 0);
            assert(signed_val(t) is None);
        }
        return -1;
    }
    let mut m: i64 = 0;
    let mut i: usize = ds;
    proof {
        assert(w.take(0) =~= Seq::<char>::empty());
    }
    while i < hi
        invariant
            n == s@.len(),
            lo <= ds <= i <= hi <= n,
            ds < hi,
            w == s@.subrange(ds as int, hi as int),
            forall|k: int| 0 <= k < i - ds ==> 48 <= (#[trigger] w[k]) as int <= 57,
            m == digits_val(w.take(i - ds)),
            0 <= m <= 0x8000_0000i64,
        decreases hi - i,
    {
        let c = s.get_char(i);
        let d: u32 = c as u32;
        proof {
            assert(w[i - ds] == s@[i as int]);
        }
        if d < 48 || d > 57 {
            proof {
                assert(!all_digits(w));
                assert(signed_val(t) is None);
            }
            return -1;
        }
        proof {
            assert(w.take(i - ds + 1).drop_last() =~= w.take(i - ds));
            assert(w.take(i - ds + 1).last() == w[i - ds]);
        }
        let next: i64 = m * 10 + (d - 48) as i64;
        if next > 0x8000_0000i64 {
            proof {
                if all_digits(w) {
                    lemma_digits_val_mono(w, i - ds + 1);
                    assert(digits_val(w) > 0x8000_0000);
                }
            }
            return -1;
        }
        m = next;
        i = i + 1;
    }
    proof {
        assert(w.take(hi - ds) =~= w);
        assert(all_digits(w));
        assert(signed_val(t) == Some(if neg { -digits_val(w) } else { digits_val(w) }));
    }
    if neg {
        (-m) as i32
    } else {
        if m > 0x7fff_ffffi64 {
            return -1;
        }
        m as i32
    }
}

/// The surface forms an entry's kanji elements carry, in order.
pub open spec fn kanji_forms(v: Seq<JMDKanji>) -> Seq<Seq<char>> {
    Seq::new(v.len(), |i: int| v[i].keb@)
}

/// The phonetic readings an entry's reading elements carry, in order.
pub open spec fn reading_forms(v: Seq<JMDReading>) -> Seq<Seq<char>> {
    Seq::new(v.len(), |i: int| v[i].reb@)
}

/// The gloss texts of a sense, in order.
pub open spec fn gloss_texts(v: Seq<JMDGloss>) -> Seq<Seq<char>> {
    Seq::new(v.len(), |i: int| v[i].text@)
}

/// The annotation flags of a sense: its miscellany, dialect and field
/// tags, in that order.
pub open spec fn sense_flags(s: JMDSense) -> Seq<Seq<char>> {
    s.misc.deep_view() + s.dial.deep_view() + s.field.deep_view()
}

/// The definition a sense stands for: its glosses joined with `", "`,
/// its classified categories with duplicates collapsed, its flags; or
/// the first unrecognized category tag.
pub open spec fn sense_def(s: JMDSense) -> Result<DefinitionModel, Seq<char>> {
    match classify_all(s.pos.deep_view()) {
        Ok(cats) => Ok(
            DefinitionModel {
                text: joined(gloss_texts(s.gloss@)),
                pos: dedup(cats),
                flags: sense_flags(s),
            },
        ),
        Err(t) => Err(t),
    }
}

/// The definitions of the first `i` senses, or the first failing tag.
pub open spec fn sense_defs_upto(senses: Seq<JMDSense>, i: int) -> Result<
    Seq<DefinitionModel>,
    Seq<char>,
>
    decreases i,
{
    if i <= 0 {
        Ok(Seq::empty())
    } else {
        match sense_defs_upto(senses, i - 1) {
            Ok(ds) => match sense_def(senses[i - 1]) {
                Ok(d) => Ok(ds.push(d)),
                Err(t) => Err(t),
            },
            Err(t) => Err(t),
        }
    }
}

/// The definitions of all senses, or the first failing tag.
pub open spec fn sense_defs(senses: Seq<JMDSense>) -> Result<Seq<DefinitionModel>, Seq<char>> {
    sense_defs_upto(senses, senses.len() as int)
}

/// The text of the first sentence in the given language, if any.
pub open spec fn first_lang(sents: Seq<JMDSentence>, lang: Seq<char>) -> Option<Seq<char>>
    decreases sents.len(),
{
    if sents.len() == 0 {
        None
    } else if sents[0].lang@ == lang {
        Some(sents[0].text@)
    } else {
        first_lang(sents.drop_first(), lang)
    }
}

/// The examples one sense contributes for the definition at index `di`:
/// each example element carrying both an English and a Japanese
/// sentence, in order.
pub open spec fn sense_examples(xs: Seq<JMDExample>, di: usize) -> Seq<ExampleModel>
    decreases xs.len(),
{
    if xs.len() == 0 {
        Seq::empty()
    } else {
        (match (first_lang(xs[0].ex_sent@, "eng"@), first_lang(xs[0].ex_sent@, "jpn"@)) {
            (Some(en), Some(ja)) => seq![
                ExampleModel { for_definition: Some(di), en, ja },
            ],
            _ => Seq::empty(),
        }) + sense_examples(xs.drop_first(), di)
    }
}

/// The examples of the first `i` senses, in sense order.
pub open spec fn examples_upto(senses: Seq<JMDSense>, i: int) -> Seq<ExampleModel>
    decreases i,
{
    if i <= 0 {
        Seq::empty()
    } else {
        examples_upto(senses, i - 1) + sense_examples(senses[i - 1].examples@, (i - 1) as usize)
    }
}

/// Extending the example list by one element of a sense.
proof fn lemma_sense_examples_take(xs: Seq<JMDExample>, di: usize, t: int)
    requires
        0 <= t < xs.len(),
    ensures
        sense_examples(xs.take(t + 1), di) == sense_examples(xs.take(t), di) + (match (
            first_lang(xs[t].ex_sent@, "eng"@),
            first_lang(xs[t].ex_sent@, "jpn"@),
        ) {
            (Some(en), Some(ja)) => seq![
                ExampleModel { for_definition: Some(di), en, ja },
            ],
            _ => Seq::<ExampleModel>::empty(),
        }),
    decreases t,
{
    if t == 0 {
        reveal_with_fuel(sense_examples, 3);
        assert(xs.take(0) =~= Seq::<JMDExample>::empty());
        assert(xs.take(1)[0] == xs[0]);
        assert(xs.take(1).drop_first() =~= Seq::<JMDExample>::empty());
        assert(sense_examples(xs.take(1), di) =~= sense_examples(xs.take(0), di) + (match (
            first_lang(xs[0].ex_sent@, "eng"@),
            first_lang(xs[0].ex_sent@, "jpn"@),
        ) {
            (Some(en), Some(ja)) => seq![
                ExampleModel { for_definition: Some(di), en, ja },
            ],
            _ => Seq::<ExampleModel>::empty(),
        }));
    } else {
        let ys = xs.drop_first();
        assert(xs.take(t + 1)[0] == xs[0]);
        assert(xs.take(t + 1).drop_first() =~= ys.take(t));
        assert(xs.take(t)[0] == xs[0]);
        assert(xs.take(t).drop_first() =~= ys.take(t - 1));
        assert(ys[t - 1] == xs[t]);
        lemma_sense_examples_take(ys, di, t - 1);
        let head = match (first_lang(xs[0].ex_sent@, "eng"@), first_lang(xs[0].ex_sent@, "jpn"@)) {
            (Some(en), Some(ja)) => seq![
                ExampleModel { for_definition: Some(di), en, ja },
            ],
            _ => Seq::<ExampleModel>::empty(),
        };
        let newp = match (first_lang(xs[t].ex_sent@, "eng"@), first_lang(xs[t].ex_sent@, "jpn"@)) {
            (Some(en), Some(ja)) => seq![
                ExampleModel { for_definition: Some(di), en, ja },
            ],
            _ => Seq::<ExampleModel>::empty(),
        };
        assert(head + (sense_examples(ys.take(t - 1), di) + newp) =~= (head + sense_examples(
            ys.take(t - 1),
            di,
        )) + newp);
    }
}

/// Finds the text of the first sentence in the given language.
#[verifier::loop_isolation(false)]
fn first_lang_exec(sents: &Vec<JMDSentence>, lang: &String) -> (r: Option<String>)
    ensures
        match r {
            Some(t) => first_lang(sents@, lang@) == Some(t@),
            None => first_lang(sents@, lang@) is None,
        },
{
    let n = sents.len();
    let mut i: usize = 0;
    proof {
        assert(sents@.skip(0) =~= sents@);
    }
    while i < n
        invariant
            n == sents@.len(),
            i <= n,
            first_lang(sents@, lang@) == first_lang(sents@.skip(i as int), lang@),
        decreases n - i,
    {
        proof {
            assert(sents@.skip(i as int)[0] == sents@[i as int]);
            assert(sents@.skip(i as int).drop_first() =~= sents@.skip(i as int + 1));
        }
        if string_eq(&sents[i].lang, lang) {
            return Some(sents[i].text.clone());
        }
        i = i + 1;
    }
    proof {
        assert(sents@.skip(n as int).len() == 0);
    }
    None
}

impl JMDEntry {
    /// Turns a parsed entry element into a dictionary entry: the kanji
    /// elements' forms, the reading elements' readings, one definition
    /// per sense, the entry-sequence id under the interchange-format
    /// origin tag, no audio, and every example of a sense that carries
    /// both an English and a Japanese sentence, tied to that sense's
    /// definition. Fails exactly when some sense holds an unrecognized
    /// part-of-speech tag, carrying the first such tag. An element with
    /// no kanji form yields an entry without surface forms; the store's
    /// entry invariant asks for at least one, so the caller decides what
    /// to do with such an entry before storing it.
    #[verifier::loop_isolation(false)]
    #[verifier::rlimit(100)]
    pub fn into_dictionary_entry(self) -> (r: Result<DictionaryEntry, DictError>)
        ensures
            match r {
                Ok(e) => {
                    &&& sense_defs(self.sense@) matches Ok(ds) && e@.definitions == ds
                    &&& e@.forms == kanji_forms(self.k_ele@)
                    &&& e@.readings == reading_forms(self.r_ele@)
                    &&& e@.source == Source::JMDict(entry_id_of(self.ent_seq@))
                    &&& e@.audio == Seq::<Seq<char>>::empty()
                    &&& e@.examples == examples_upto(self.sense@, self.sense@.len() as int)
                },
                Err(er) => sense_defs(self.sense@) matches Err(t) && (er matches
                    DictError::UnknownPartOfSpeech(u) && u@ == t),
            },
    {
        let ghost senses = self.sense@;
        let mut forms: Vec<String> = Vec::new();
        let nk = self.k_ele.len();
        let mut i: usize = 0;
        while i < nk
            invariant
                nk == self.k_ele@.len(),
                i <= nk,
                forms.deep_view() == kanji_forms(self.k_ele@).take(i as int),
            decreases nk - i,
        {
            forms.push(self.k_ele[i].keb.clone());
            proof {
                assert(forms.deep_view() =~= kanji_forms(self.k_ele@).take(i as int + 1));
            }
            i = i + 1;
        }
        proof {
            assert(kanji_forms(self.k_ele@).take(nk as int) =~= kanji_forms(self.k_ele@));
        }
        let mut readings: Vec<String> = Vec::new();
        let nr = self.r_ele.len();
        let mut j: usize = 0;
        while j < nr
            invariant
                nr == self.r_ele@.len(),
                j <= nr,
                readings.deep_view() == reading_forms(self.r_ele@).take(j as int),
            decreases nr - j,
        {
            readings.push(self.r_ele[j].reb.clone());
            proof {
                assert(readings.deep_view() =~= reading_forms(self.r_ele@).take(j as int + 1));
            }
            j = j + 1;
        }
        proof {
            assert(reading_forms(self.r_ele@).take(nr as int) =~= reading_forms(self.r_ele@));
        }
        let ns = self.sense.len();
        let mut definitions: Vec<Definition> = Vec::new();
        let mut examples: Vec<Example> = Vec::new();
        let mut si: usize = 0;
        proof {
            assert(exs_view(examples@) =~= examples_upto(senses, 0));
            assert(defs_view(definitions@) =~= Seq::<DefinitionModel>::empty());
        }
        while si < ns
            invariant
                ns == senses.len(),
                senses == self.sense@,
                si <= ns,
                sense_defs_upto(senses, si as int) == Ok::<Seq<DefinitionModel>, Seq<char>>(
                    defs_view(definitions@),
                ),
                exs_view(examples@) == examples_upto(senses, si as int),
            decreases ns - si,
        {
            let sense = &self.sense[si];
            let mut glosses: Vec<String> = Vec::new();
            let ng = sense.gloss.len();
            let mut g: usize = 0;
            while g < ng
                invariant
                    ng == sense.gloss@.len(),
                    g <= ng,
                    glosses.deep_view() == gloss_texts(sense.gloss@).take(g as int),
                decreases ng - g,
            {
                glosses.push(sense.gloss[g].text.clone());
                proof {
                    assert(glosses.deep_view() =~= gloss_texts(sense.gloss@).take(g as int + 1));
                }
                g = g + 1;
            }
            proof {
                assert(gloss_texts(sense.gloss@).take(ng as int) =~= gloss_texts(sense.gloss@));
            }
            let text = join_comma(&glosses);
            let mut flags = clone_strings(&sense.misc);
            let mut dial2 = clone_strings(&sense.dial);
            let mut field2 = clone_strings(&sense.field);
            flags.append(&mut dial2);
            flags.append(&mut field2);
            proof {
                assert(flags.deep_view() =~= sense_flags(senses[si as int]));
            }
            let ghost defs0 = defs_view(definitions@);
            match Definition::new(text, clone_strings(&sense.pos), flags) {
                Err(e) => {
                    proof {
                        assert(sense_def(senses[si as int]) is Err);
                        assert(sense_defs_upto(senses, si as int + 1) is Err);
                        lemma_sense_defs_prefix_err(senses, si as int + 1);
                    }
                    return Err(e);
                },
                Ok(d) => {
                    let ghost dmodel = d@;
                    proof {
                        assert(sense_def(senses[si as int]) == Ok::<DefinitionModel, Seq<char>>(
                            dmodel,
                        ));
                    }
                    definitions.push(d);
                    proof {
                        assert(defs_view(definitions@) =~= defs0.push(dmodel));
                        assert(sense_defs_upto(senses, si as int + 1) == Ok::<
                            Seq<DefinitionModel>,
                            Seq<char>,
                        >(defs_view(definitions@)));
                    }
                },
            }
            let nx = sense.examples.len();
            let mut x: usize = 0;
            proof {
                assert(sense.examples@.take(0) =~= Seq::<JMDExample>::empty());
                assert(exs_view(examples@) =~= examples_upto(senses, si as int) + sense_examples(
                    sense.examples@.take(0),
                    si,
                ));
            }
            while x < nx
                invariant
                    nx == sense.examples@.len(),
                    x <= nx,
                    si < ns,
                    ns == senses.len(),
                    senses == self.sense@,
                    exs_view(examples@) == examples_upto(senses, si as int) + sense_examples(
                        sense.examples@.take(x as int),
                        si,
                    ),
                decreases nx - x,
            {
                let en = first_lang_exec(&sense.examples[x].ex_sent, &"eng".to_owned());
                let ja = first_lang_exec(&sense.examples[x].ex_sent, &"jpn".to_owned());
                proof {
                    lemma_sense_examples_take(sense.examples@, si, x as int);
                }
                match (en, ja) {
                    (Some(en_t), Some(ja_t)) => {
                        let ghost exs0 = exs_view(examples@);
                        let ghost em = ExampleModel {
                            for_definition: Some(si),
                            en: en_t@,
                            ja: ja_t@,
                        };
                        examples.push(
                            Example { for_definition: Some(si), en: en_t, ja: ja_t },
                        );
                        proof {
                            assert(exs_view(examples@) =~= exs0.push(em));
                            assert(sense_examples(sense.examples@.take(x as int + 1), si)
                                =~= sense_examples(sense.examples@.take(x as int), si)
                                + seq![em]);
                            assert(exs0.push(em) =~= examples_upto(senses, si as int) + (
                            sense_examples(sense.examples@.take(x as int), si) + seq![em]));
                        }
                    },
                    _ => {
                        proof {
                            assert(sense_examples(sense.examples@.take(x as int + 1), si)
                                =~= sense_examples(sense.examples@.take(x as int), si));
                        }
                    },
                }
                x = x + 1;
            }
            proof {
                assert(sense.examples@.take(nx as int) =~= sense.examples@);
            }
            si = si + 1;
        }
        let id = parse_entry_id(self.ent_seq.as_str());
        let e = DictionaryEntry {
            forms,
            source: Source::JMDict(id),
            definitions,
            audio: Vec::new(),
            readings,
            examples,
        };
        proof {
            assert(e@.audio =~= Seq::<Seq<char>>::empty());
        }
        Ok(e)
    }
}

/// A failing sense after clean ones decides the whole conversion.
proof fn lemma_sense_defs_prefix_err(senses: Seq<JMDSense>, i: int)
    requires
        0 < i <= senses.len(),
        sense_defs_upto(senses, i) is Err,
    ensures
        sense_defs(senses) == sense_defs_upto(senses, i),
    decreases senses.len() - i,
{
    if i < senses.len() {
        lemma_sense_defs_prefix_err(senses, i + 1);
    }
}

} // verus!
