//! The value types exchanged between ingestion collaborators and the store:
//! dictionary entries with their forms, readings, definitions, examples and
//! origin key, together with their mathematical models.

use vstd::prelude::*;
use vstd::string::StringExecFns;

verus! {

/// An origin-tagged numeric identifier uniquely naming an entry across all
/// ingestion collaborators. Ordered by tag first, then by numeric id.
#[derive(Debug, Clone, Copy, PartialEq, Eq, Structural, PartialOrd, Ord, Hash)]
pub enum Source {
    WaniKani(i32),
    JMDict(i32),
}

/// The closed taxonomy of canonical part-of-speech tags.
#[derive(Debug, Clone, Copy, PartialEq, Eq, Structural, PartialOrd, Ord, Hash)]
pub enum PartOfSpeech {
    Noun,
    Prefix,
    Verb,
    Adjective,
    Adverb,
    Adnominal,
    Conjuction,
    Particle,
    AuxiliaryVerb,
    Exclamation,
    Symbol,
    Filler,
    Other,
}

/// The errors of the store: malformed bytes that fail to decompress or
/// deserialize, and classification failure for an upstream tag string.
#[derive(Debug, Clone)]
pub enum DictError {
    /// Index or chunk bytes fail to decompress or deserialize, or a value
    /// does not fit the on-disk format.
    Format,
    /// A tag string matched by no rule of the classifier, carried verbatim.
    UnknownPartOfSpeech(String),
}

/// A parallel example sentence pair, optionally tied to one definition of
/// the owning entry.
#[derive(Debug, Clone)]
pub struct Example {
    /// Index into the owning entry's `definitions`; absent means the example
    /// applies to the whole entry.
    pub for_definition: Option<usize>,
    pub en: String,
    pub ja: String,
}

/// One gloss of an entry with its canonical part-of-speech tags and
/// free-form annotation flags.
#[derive(Debug, Clone)]
pub struct Definition {
    pub text: String,
    /// Unordered in meaning; duplicates are collapsed on construction.
    pub pos: Vec<PartOfSpeech>,
    /// Order-preserving; duplicates allowed.
    pub flags: Vec<String>,
}

/// One dictionary headword: its surface forms, unique origin key,
/// definitions, audio reference URLs, phonetic readings and examples.
#[derive(Debug, Clone)]
pub struct DictionaryEntry {
    pub forms: Vec<String>,
    pub source: Source,
    pub definitions: Vec<Definition>,
    pub audio: Vec<String>,
    pub readings: Vec<String>,
    pub examples: Vec<Example>,
}

/// Mathematical model of an [`Example`].
pub ghost struct ExampleModel {
    pub for_definition: Option<usize>,
    pub en: Seq<char>,
    pub ja: Seq<char>,
}

/// Mathematical model of a [`Definition`].
pub ghost struct DefinitionModel {
    pub text: Seq<char>,
    pub pos: Seq<PartOfSpeech>,
    pub flags: Seq<Seq<char>>,
}

/// Mathematical model of a [`DictionaryEntry`].
pub ghost struct EntryModel {
    pub forms: Seq<Seq<char>>,
    pub source: Source,
    pub definitions: Seq<DefinitionModel>,
    pub audio: Seq<Seq<char>>,
    pub readings: Seq<Seq<char>>,
    pub examples: Seq<ExampleModel>,
}

impl View for Example {
    type V = ExampleModel;

    open spec fn view(&self) -> ExampleModel {
        ExampleModel { for_definition: self.for_definition, en: self.en@, ja: self.ja@ }
    }
}

impl View for Definition {
    type V = DefinitionModel;

    open spec fn view(&self) -> DefinitionModel {
        DefinitionModel { text: self.text@, pos: self.pos@, flags: self.flags.deep_view() }
    }
}

/// The models of a sequence of definitions.
pub open spec fn defs_view(v: Seq<Definition>) -> Seq<DefinitionModel> {
    v.map_values(|d: Definition| d@)
}

/// The models of a sequence of examples.
pub open spec fn exs_view(v: Seq<Example>) -> Seq<ExampleModel> {
    v.map_values(|x: Example| x@)
}

/// The models of a sequence of entries.
pub open spec fn entries_view(v: Seq<DictionaryEntry>) -> Seq<EntryModel> {
    v.map_values(|e: DictionaryEntry| e@)
}

impl View for DictionaryEntry {
    type V = EntryModel;

    open spec fn view(&self) -> EntryModel {
        EntryModel {
            forms: self.forms.deep_view(),
            source: self.source,
            definitions: defs_view(self.definitions@),
            audio: self.audio.deep_view(),
            readings: self.readings.deep_view(),
            examples: exs_view(self.examples@),
        }
    }
}

/// Copies a vector of strings, keeping its character content.
#[verifier::loop_isolation(false)]
pub fn clone_strings(v: &Vec<String>) -> (r: Vec<String>)
    ensures
        r.deep_view() == v.deep_view(),
{
    let mut r: Vec<String> = Vec::new();
    let n = v.len();
    let mut i: usize = 0;
    while i < n
        invariant
            n == v@.len(),
            i <= n,
            r.deep_view() == v.deep_view().take(i as int),
        decreases n - i,
    {
        r.push(v[i].clone());
        proof {
            assert(r.deep_view() =~= v.deep_view().take(i as int + 1));
        }
        i = i + 1;
    }
    proof {
        assert(v.deep_view().take(n as int) =~= v.deep_view());
    }
    r
}

impl Definition {
    /// Copies the definition, keeping its model.
    #[verifier::loop_isolation(false)]
    pub fn deep_clone(&self) -> (r: Definition)
        ensures
            r@ == self@,
    {
        let mut pos: Vec<PartOfSpeech> = Vec::new();
        let n = self.pos.len();
        let mut i: usize = 0;
        while i < n
            invariant
                n == self.pos@.len(),
                i <= n,
                pos@ == self.pos@.take(i as int),
            decreases n - i,
        {
            pos.push(self.pos[i]);
            proof {
                assert(pos@ =~= self.pos@.take(i as int + 1));
            }
            i = i + 1;
        }
        proof {
            assert(self.pos@.take(n as int) =~= self.pos@);
        }
        Definition { text: self.text.clone(), pos, flags: clone_strings(&self.flags) }
    }
}

impl Example {
    /// Copies the example, keeping its model.
    pub fn deep_clone(&self) -> (r: Example)
        ensures
            r@ == self@,
    {
        Example { for_definition: self.for_definition, en: self.en.clone(), ja: self.ja.clone() }
    }
}

impl DictionaryEntry {
    /// Decides the entry invariant: at least one form, well-formed
    /// definitions, and every example index inside `definitions`.
    #[verifier::loop_isolation(false)]
    pub fn is_well_formed(&self) -> (r: bool)
        ensures
            r == self@.wf(),
    {
        if self.forms.len() == 0 {
            return false;
        }
        let nd = self.definitions.len();
        let mut i: usize = 0;
        while i < nd
            invariant
                nd == self.definitions@.len(),
                i <= nd,
                forall|k: int| 0 <= k < i ==> (#[trigger] defs_view(self.definitions@)[k]).wf(),
            decreases nd - i,
        {
            let d = &self.definitions[i];
            let np = d.pos.len();
            let mut a: usize = 0;
            while a < np
                invariant
                    np == d.pos@.len(),
                    a <= np,
                    forall|x: int, y: int| 0 <= x < y < np && x < a ==> d.pos@[x] != d.pos@[y],
                decreases np - a,
            {
                let mut b: usize = a + 1;
                while b < np
                    invariant
                        np == d.pos@.len(),
                        a < b <= np,
                        forall|y: int| a < y < b ==> d.pos@[a as int] != d.pos@[y],
                    decreases np - b,
                {
                    if d.pos[a] == d.pos[b] {
                        proof {
                            assert(self@.definitions[i as int] == self.definitions@[i as int]@);
                            assert(self@.definitions[i as int].pos[a as int] == self@.definitions[
                                i as int
                            ].pos[b as int]);
                        }
                        return false;
                    }
                    b = b + 1;
                }
                a = a + 1;
            }
            proof {
                assert(defs_view(self.definitions@)[i as int] == self.definitions@[i as int]@);
            }
            i = i + 1;
        }
        let ne = self.examples.len();
        let mut j: usize = 0;
        while j < ne
            invariant
                ne == self.examples@.len(),
                j <= ne,
                forall|k: int|
                    0 <= k < j ==> match (#[trigger] exs_view(self.examples@)[k]).for_definition {
                        Some(d) => d < self.definitions@.len(),
                        None => true,
                    },
            decreases ne - j,
        {
            match self.examples[j].for_definition {
                Some(d) => {
                    if d >= self.definitions.len() {
                        proof {
                            assert(exs_view(self.examples@)[j as int]
                                == self.examples@[j as int]@);
                        }
                        return false;
                    }
                },
                None => {},
            }
            proof {
                assert(exs_view(self.examples@)[j as int] == self.examples@[j as int]@);
            }
            j = j + 1;
        }
        true
    }

    /// Copies the entry, keeping its model.
    #[verifier::loop_isolation(false)]
    pub fn deep_clone(&self) -> (r: DictionaryEntry)
        ensures
            r@ == self@,
    {
        let mut definitions: Vec<Definition> = Vec::new();
        let nd = self.definitions.len();
        let mut i: usize = 0;
        while i < nd
            invariant
                nd == self.definitions@.len(),
                i <= nd,
                defs_view(definitions@) == defs_view(self.definitions@).take(i as int),
            decreases nd - i,
        {
            definitions.push(self.definitions[i].deep_clone());
            proof {
                assert(defs_view(definitions@) =~= defs_view(self.definitions@).take(i as int + 1));
            }
            i = i + 1;
        }
        let mut examples: Vec<Example> = Vec::new();
        let ne = self.examples.len();
        let mut j: usize = 0;
        while j < ne
            invariant
                ne == self.examples@.len(),
                j <= ne,
                exs_view(examples@) == exs_view(self.examples@).take(j as int),
            decreases ne - j,
        {
            examples.push(self.examples[j].deep_clone());
            proof {
                assert(exs_view(examples@) =~= exs_view(self.examples@).take(j as int + 1));
            }
            j = j + 1;
        }
        proof {
            assert(defs_view(self.definitions@).take(nd as int) =~= defs_view(self.definitions@));
            assert(exs_view(self.examples@).take(ne as int) =~= exs_view(self.examples@));
        }
        DictionaryEntry {
            forms: clone_strings(&self.forms),
            source: self.source,
            definitions,
            audio: clone_strings(&self.audio),
            readings: clone_strings(&self.readings),
            examples,
        }
    }
}

/// The strings of a sequence joined with a comma and a space between
/// neighbours.
pub open spec fn joined(parts: Seq<Seq<char>>) -> Seq<char>
    decreases parts.len(),
{
    if parts.len() == 0 {
        Seq::empty()
    } else if parts.len() == 1 {
        parts[0]
    } else {
        joined(parts.drop_last()) + ", "@ + parts.last()
    }
}

/// Joins strings with `", "` between neighbours, as upstream senses are
/// merged into one gloss.
#[verifier::loop_isolation(false)]
pub fn join_comma(parts: &Vec<String>) -> (r: String)
    ensures
        r@ == joined(parts.deep_view()),
{
    let ghost dv = parts.deep_view();
    let mut acc = String::new();
    let n = parts.len();
    let mut i: usize = 0;
    proof {
        assert(dv.take(0) =~= Seq::<Seq<char>>::empty());
    }
    while i < n
        invariant
            n == parts@.len(),
            i <= n,
            acc@ == joined(dv.take(i as int)),
        decreases n - i,
    {
        if i > 0 {
            acc.append(", ");
        }
        acc.append(parts[i].as_str());
        proof {
            let t1 = dv.take(i as int + 1);
            assert(t1.drop_last() =~= dv.take(i as int));
            assert(t1.last() == dv[i as int]);
            if i == 0 {
                assert(Seq::<char>::empty() + dv[0] =~= dv[0]);
                assert(acc@ =~= joined(t1));
            }
        }
        i = i + 1;
    }
    proof {
        assert(dv.take(n as int) =~= dv);
    }
    acc
}

impl DefinitionModel {
    /// Duplicates among the canonical tags are collapsed.
    pub open spec fn wf(self) -> bool {
        forall|i: int, j: int|
            0 <= i < j < self.pos.len() ==> self.pos[i] != self.pos[j]
    }
}

impl EntryModel {
    /// An entry carries at least one surface form, its definitions are
    /// well formed, and every example index points into `definitions`.
    pub open spec fn wf(self) -> bool {
        &&& self.forms.len() >= 1
        &&& forall|i: int| 0 <= i < self.definitions.len() ==> (#[trigger] self.definitions[i]).wf()
        &&& forall|i: int|
            0 <= i < self.examples.len() ==> match (#[trigger] self.examples[i]).for_definition {
                Some(d) => d < self.definitions.len(),
                None => true,
            }
    }

    /// The word strings an entry is registered and looked up under:
    /// its surface forms and its readings.
    pub open spec fn words(self) -> Seq<Seq<char>> {
        self.forms + self.readings
    }

    /// Whether `word` is one of this entry's forms or readings; the exact
    /// condition under which a lookup for `word` returns the entry.
    pub open spec fn has_word(self, word: Seq<char>) -> bool {
        self.words().contains(word)
    }
}

} // verus!
