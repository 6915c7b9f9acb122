//! The part-of-speech classifier: a pure mapping from heterogeneous
//! upstream tag strings to the closed taxonomy, as a prioritized table of
//! exact matches followed by three pattern fallbacks. Unrecognized tags
//! fail with the offending string carried verbatim.

use vstd::prelude::*;

use crate::entry::{PartOfSpeech, Definition, DictError, DefinitionModel};

verus! {

/// Whether `sub` occurs contiguously somewhere in `s`.
pub open spec fn contains_sub(s: Seq<char>, sub: Seq<char>) -> bool {
    exists|i: int| 0 <= i <= s.len() - sub.len() && #[trigger] s.subrange(i, i + sub.len()) == sub
}

/// Whether `s` is an XML-entity-like tag: the given prefix, then
/// non-semicolon characters (at least one if `nonempty_mid`), then a
/// closing semicolon.
pub open spec fn entity_form(s: Seq<char>, prefix: Seq<char>, nonempty_mid: bool) -> bool {
    &&& s.len() >= prefix.len() + 1 + (if nonempty_mid {
        1int
    } else {
        0int
    })
    &&& s.subrange(0, prefix.len() as int) == prefix
    &&& s.last() == ';'
    &&& forall|i: int| prefix.len() <= i < s.len() - 1 ==> s[i] != ';'
}

/// The noun fallback: a `&n…;` entity or any occurrence of `noun`.
pub open spec fn noun_pattern(s: Seq<char>) -> bool {
    entity_form(s, "&n"@, false) || contains_sub(s, "noun"@)
}

/// The verb fallback: a `&v…;` entity (non-empty middle) or `verb`.
pub open spec fn verb_pattern(s: Seq<char>) -> bool {
    entity_form(s, "&v"@, true) || contains_sub(s, "verb"@)
}

/// The adjective fallback: a `&adj…;` entity (non-empty middle) or
/// `adjective`.
pub open spec fn adj_pattern(s: Seq<char>) -> bool {
    entity_form(s, "&adj"@, true) || contains_sub(s, "adjective"@)
}

/// Relies on `regex::Regex::is_match` with the pattern
/// `^&n[^;]*;$|noun`: either the anchored entity shape with `&n`, any
/// run of non-semicolons and a final semicolon, or `noun` anywhere.
#[verifier::external_body]
fn noun_re_match(s: &str) -> (r: bool)
    ensures
        r == noun_pattern(s@),
{
    match regex::Regex::new(r"^&n[^;]*;$|noun") {
        Ok(re) => re.is_match(s),
        Err(_) => false,
    }
}

/// Relies on `regex::Regex::is_match` with the pattern
/// `^&v[^;]+;$|verb`: the anchored entity shape with `&v` and at least
/// one non-semicolon, or `verb` anywhere.
#[verifier::external_body]
fn verb_re_match(s: &str) -> (r: bool)
    ensures
        r == verb_pattern(s@),
{
    match regex::Regex::new(r"^&v[^;]+;$|verb") {
        Ok(re) => re.is_match(s),
        Err(_) => false,
    }
}

/// Relies on `regex::Regex::is_match` with the pattern
/// `^&adj[^;]+;$|adjective`: the anchored entity shape with `&adj` and
/// at least one non-semicolon, or `adjective` anywhere.
#[verifier::external_body]
fn adj_re_match(s: &str) -> (r: bool)
    ensures
        r == adj_pattern(s@),
{
    match regex::Regex::new(r"^&adj[^;]+;$|adjective") {
        Ok(re) => re.is_match(s),
        Err(_) => false,
    }
}

/// Compares a string slice against a literal by character content.
fn str_eq(a: &str, b: &str) -> (r: bool)
    ensures
        r == (a@ == b@),
{
    let sa: String = a.to_owned();
    let sb: String = b.to_owned();
    sa == sb
}

/// The classification table: the category a tag string stands for, or
/// nothing for a genuinely unrecognized tag. Exact matches are tried
/// first, then the three pattern fallbacks, in this order.
pub open spec fn classify(s: Seq<char>) -> Option<PartOfSpeech> {
    if s == "名詞"@ || s == "&ctr;"@ || s == "&pn;"@ || s == "&suf;"@ || s == "numeral"@ || s
        == "counter"@ {
        Some(PartOfSpeech::Noun)
    } else if s == "接頭詞"@ || s == "&pref;"@ || s == "prefix"@ {
        Some(PartOfSpeech::Prefix)
    } else if s == "動詞"@ || s == "&cop;"@ {
        Some(PartOfSpeech::Verb)
    } else if s == "見出し形"@ {
        Some(PartOfSpeech::Adjective)
    } else if s == "副詞"@ || s == "&adv;"@ || s == "&adv-to;"@ {
        Some(PartOfSpeech::Adverb)
    } else if s == "連体詞"@ {
        Some(PartOfSpeech::Adnominal)
    } else if s == "接続詞"@ || s == "&conj;"@ || s == "conjunction"@ {
        Some(PartOfSpeech::Conjuction)
    } else if s == "助詞"@ || s == "&prt;"@ {
        Some(PartOfSpeech::Particle)
    } else if s == "助動詞"@ || s == "&aux;"@ || s == "&aux-adj;"@ || s == "&aux-v;"@ {
        Some(PartOfSpeech::AuxiliaryVerb)
    } else if s == "感動詞"@ || s == "&int;"@ || s == "interjection"@ {
        Some(PartOfSpeech::Exclamation)
    } else if s == "記号"@ {
        Some(PartOfSpeech::Symbol)
    } else if s == "フィラー"@ {
        Some(PartOfSpeech::Filler)
    } else if s == "その他"@ || s == "&unc;"@ || s == "&exp;"@ || s == "suffix"@ || s
        == "expression"@ || s == "in compounds"@ {
        Some(PartOfSpeech::Other)
    } else if noun_pattern(s) {
        Some(PartOfSpeech::Noun)
    } else if verb_pattern(s) {
        Some(PartOfSpeech::Verb)
    } else if adj_pattern(s) {
        Some(PartOfSpeech::Adjective)
    } else {
        None
    }
}

impl PartOfSpeech {
    /// Classifies one upstream tag string. Deterministic: the result is a
    /// function of the tag alone. Returns the category the table assigns,
    /// and fails exactly on tags the table does not recognize, carrying
    /// the tag verbatim.
    pub fn from_tag(tag: &str) -> (r: Result<PartOfSpeech, DictError>)
        ensures
            match r {
                Ok(p) => classify(tag@) == Some(p),
                Err(e) => classify(tag@) is None && (e matches DictError::UnknownPartOfSpeech(t)
                    && t@ == tag@),
            },
    {
        if str_eq(tag, "名詞") || str_eq(tag, "&ctr;") || str_eq(tag, "&pn;") || str_eq(
            tag,
            "&suf;",
        ) || str_eq(tag, "numeral") || str_eq(tag, "counter") {
            Ok(PartOfSpeech::Noun)
        } else if str_eq(tag, "接頭詞") || str_eq(tag, "&pref;") || str_eq(tag, "prefix") {
            Ok(PartOfSpeech::Prefix)
        } else if str_eq(tag, "動詞") || str_eq(tag, "&cop;") {
            Ok(PartOfSpeech::Verb)
        } else if str_eq(tag, "見出し形") {
            Ok(PartOfSpeech::Adjective)
        } else if str_eq(tag, "副詞") || str_eq(tag, "&adv;") || str_eq(tag, "&adv-to;") {
            Ok(PartOfSpeech::Adverb)
        } else if str_eq(tag, "連体詞") {
            Ok(PartOfSpeech::Adnominal)
        } else if str_eq(tag, "接続詞") || str_eq(tag, "&conj;") || str_eq(tag, "conjunction") {
            Ok(PartOfSpeech::Conjuction)
        } else if str_eq(tag, "助詞") || str_eq(tag, "&prt;") {
            Ok(PartOfSpeech::Particle)
        } else if str_eq(tag, "助動詞") || str_eq(tag, "&aux;") || str_eq(tag, "&aux-adj;")
            || str_eq(tag, "&aux-v;") {
            Ok(PartOfSpeech::AuxiliaryVerb)
        } else if str_eq(tag, "感動詞") || str_eq(tag, "&int;") || str_eq(tag, "interjection") {
            Ok(PartOfSpeech::Exclamation)
        } else if str_eq(tag, "記号") {
            Ok(PartOfSpeech::Symbol)
        } else if str_eq(tag, "フィラー") {
            Ok(PartOfSpeech::Filler)
        } else if str_eq(tag, "その他") || str_eq(tag, "&unc;") || str_eq(tag, "&exp;") || str_eq(
            tag,
            "suffix",
        ) || str_eq(tag, "expression") || str_eq(tag, "in compounds") {
            Ok(PartOfSpeech::Other)
        } else if noun_re_match(tag) {
            Ok(PartOfSpeech::Noun)
        } else if verb_re_match(tag) {
            Ok(PartOfSpeech::Verb)
        } else if adj_re_match(tag) {
            Ok(PartOfSpeech::Adjective)
        } else {
            Err(DictError::UnknownPartOfSpeech(tag.to_owned()))
        }
    }
}

/// Classifies a sequence of tags left to right: all the categories in
/// order, or the first unrecognized tag.
pub open spec fn classify_all(tags: Seq<Seq<char>>) -> Result<Seq<PartOfSpeech>, Seq<char>>
    decreases tags.len(),
{
    if tags.len() == 0 {
        Ok(Seq::empty())
    } else {
        match classify(tags[0]) {
            None => Err(tags[0]),
            Some(p) => match classify_all(tags.drop_first()) {
                Ok(ps) => Ok(seq![p] + ps),
                Err(t) => Err(t),
            },
        }
    }
}

/// Collapses duplicates, keeping each category's first occurrence.
pub open spec fn dedup(ps: Seq<PartOfSpeech>) -> Seq<PartOfSpeech>
    decreases ps.len(),
{
    if ps.len() == 0 {
        Seq::empty()
    } else {
        let front = dedup(ps.drop_last());
        if front.contains(ps.last()) {
            front
        } else {
            front.push(ps.last())
        }
    }
}

/// Deduplication introduces nothing and repeats nothing.
pub proof fn lemma_dedup_wf(ps: Seq<PartOfSpeech>)
    ensures
        forall|i: int, j: int| 0 <= i < j < dedup(ps).len() ==> dedup(ps)[i] != dedup(ps)[j],
        forall|i: int| 0 <= i < dedup(ps).len() ==> ps.contains(#[trigger] dedup(ps)[i]),
        forall|i: int| 0 <= i < ps.len() ==> dedup(ps).contains(#[trigger] ps[i]),
    decreases ps.len(),
{
    if ps.len() > 0 {
        lemma_dedup_wf(ps.drop_last());
        let front = dedup(ps.drop_last());
        assert forall|i: int| 0 <= i < dedup(ps).len() implies ps.contains(
            #[trigger] dedup(ps)[i],
        ) by {
            if i < front.len() {
                let k = choose|k: int| 0 <= k < ps.drop_last().len() && ps.drop_last()[k]
                    == front[i];
                assert(ps[k] == front[i]);
            } else {
                assert(ps[ps.len() - 1] == dedup(ps)[i]);
            }
        }
        assert forall|i: int| 0 <= i < ps.len() implies dedup(ps).contains(#[trigger] ps[i]) by {
            if i < ps.len() - 1 {
                assert(ps.drop_last()[i] == ps[i]);
                let k = choose|k: int| 0 <= k < front.len() && front[k] == ps[i];
                assert(dedup(ps)[k] == ps[i]);
            } else {
                if front.contains(ps.last()) {
                    let k = choose|k: int| 0 <= k < front.len() && front[k] == ps.last();
                    assert(dedup(ps)[k] == ps[i]);
                } else {
                    assert(dedup(ps)[front.len() as int] == ps[i]);
                }
            }
        }
        assert forall|i: int, j: int| 0 <= i < j < dedup(ps).len() implies dedup(ps)[i] != dedup(
            ps,
        )[j] by {
            if j < front.len() {
            } else if !front.contains(ps.last()) {
                assert(dedup(ps)[i] == front[i]);
            }
        }
    }
}

/// Classifying one more tag classifies it after the others.
pub proof fn lemma_classify_all_push(tags: Seq<Seq<char>>, t: Seq<char>)
    ensures
        classify_all(tags.push(t)) == match classify_all(tags) {
            Ok(ps) => match classify(t) {
                Some(p) => Ok::<Seq<PartOfSpeech>, Seq<char>>(ps.push(p)),
                None => Err::<Seq<PartOfSpeech>, Seq<char>>(t),
            },
            Err(u) => Err::<Seq<PartOfSpeech>, Seq<char>>(u),
        },
    decreases tags.len(),
{
    if tags.len() == 0 {
        reveal_with_fuel(classify_all, 3);
        assert(tags.push(t)[0] == t);
        assert(tags.push(t).drop_first() =~= Seq::<Seq<char>>::empty());
        match classify(t) {
            Some(p) => {
                assert(seq![p] + Seq::<PartOfSpeech>::empty() =~= Seq::<
                    PartOfSpeech,
                >::empty().push(p));
            },
            None => {
            },
        }
    } else {
        assert(tags.push(t)[0] == tags[0]);
        assert(tags.push(t).drop_first() =~= tags.drop_first().push(t));
        lemma_classify_all_push(tags.drop_first(), t);
        match classify(tags[0]) {
            Some(p) => {
                match classify_all(tags.drop_first()) {
                    Ok(ps) => {
                        match classify(t) {
                            Some(q) => {
                                assert(seq![p] + ps.push(q) =~= (seq![p] + ps).push(q));
                            },
                            None => {
                            },
                        }
                    },
                    Err(_) => {
                    },
                }
            },
            None => {
            },
        }
    }
}

impl Definition {
    /// Builds a definition from a gloss, upstream tag strings and flags.
    /// Every tag is classified left to right; the canonical categories
    /// are kept with duplicates collapsed in first-occurrence order.
    /// Fails exactly when some tag is unrecognized, carrying the first
    /// such tag verbatim.
    #[verifier::loop_isolation(false)]
    pub fn new(text: String, pos: Vec<String>, flags: Vec<String>) -> (r: Result<
        Definition,
        DictError,
    >)
        ensures
            match r {
                Ok(d) => {
                    &&& classify_all(pos.deep_view()) matches Ok(ps) && d@.pos == dedup(ps)
                    &&& d@.text == text@
                    &&& d@.flags == flags.deep_view()
                    &&& d@.wf()
                },
                Err(e) => classify_all(pos.deep_view()) matches Err(t) && (e matches
                    DictError::UnknownPartOfSpeech(u) && u@ == t),
            },
    {
        let ghost tags = pos.deep_view();
        let n = pos.len();
        let mut cats: Vec<PartOfSpeech> = Vec::new();
        let mut i: usize = 0;
        proof {
            assert(tags.take(0) =~= Seq::<Seq<char>>::empty());
        }
        while i < n
            invariant
                n == pos@.len(),
                i <= n,
                classify_all(tags.take(i as int)) == Ok::<Seq<PartOfSpeech>, Seq<char>>(cats@),
            decreases n - i,
        {
            proof {
                assert(tags.take(i as int).push(tags[i as int]) =~= tags.take(i as int + 1));
                lemma_classify_all_push(tags.take(i as int), tags[i as int]);
            }
            match PartOfSpeech::from_tag(pos[i].as_str()) {
                Err(e) => {
                    proof {
                        assert(tags[i as int] == pos@[i as int]@);
                        assert(classify_all(tags.take(i as int + 1)) == Err::<
                            Seq<PartOfSpeech>,
                            Seq<char>,
                        >(tags[i as int]));
                        assert(tags.take(n as int) =~= tags);
                        lemma_classify_all_prefix_err(tags, i as int + 1);
                    }
                    return Err(e);
                },
                Ok(p) => {
                    cats.push(p);
                },
            }
            i = i + 1;
        }
        proof {
            assert(tags.take(n as int) =~= tags);
        }
        let m = cats.len();
        let mut kept: Vec<PartOfSpeech> = Vec::new();
        let mut j: usize = 0;
        proof {
            assert(cats@.take(0) =~= Seq::<PartOfSpeech>::empty());
            assert(dedup(cats@.take(0)) =~= Seq::<PartOfSpeech>::empty());
        }
        while j < m
            invariant
                m == cats@.len(),
                j <= m,
                kept@ == dedup(cats@.take(j as int)),
            decreases m - j,
        {
            let mut found: bool = false;
            let mut k: usize = 0;
            let kl = kept.len();
            while k < kl
                invariant
                    kl == kept@.len(),
                    k <= kl,
                    found == exists|t: int| 0 <= t < k && kept@[t] == cats@[j as int],
                decreases kl - k,
            {
                if kept[k] == cats[j] {
                    found = true;
                }
                k = k + 1;
            }
            proof {
                assert(found == kept@.contains(cats@[j as int]));
                assert(cats@.take(j as int + 1).drop_last() =~= cats@.take(j as int));
                assert(cats@.take(j as int + 1).last() == cats@[j as int]);
            }
            if !found {
                kept.push(cats[j]);
            }
            j = j + 1;
        }
        proof {
            assert(cats@.take(m as int) =~= cats@);
            lemma_dedup_wf(cats@);
        }
        Ok(Definition { text, pos: kept, flags })
    }
}

/// A failing tag after a clean prefix decides the whole classification.
pub proof fn lemma_classify_all_prefix_err(tags: Seq<Seq<char>>, i: int)
    requires
        0 < i <= tags.len(),
        classify_all(tags.take(i)) is Err,
    ensures
        classify_all(tags) == classify_all(tags.take(i)),
    decreases tags.len(),
{
    if tags.len() == i {
        assert(tags.take(i) =~= tags);
    } else {
        assert(classify_all(tags.take(i)) == classify_all(tags.take(tags.len() - 1).take(i))) by {
            assert(tags.take(tags.len() - 1).take(i) =~= tags.take(i));
        }
        lemma_classify_all_prefix_err(tags.take(tags.len() - 1), i);
        lemma_classify_all_push(tags.take(tags.len() - 1), tags.last());
        assert(tags.take(tags.len() - 1).push(tags.last()) =~= tags);
    }
}

} // verus!
