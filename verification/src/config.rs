use vstd::prelude::*;
use crate::snippet::strings_view;

verus! {

/// The settings of one language: the snippet sets every target of that
/// language loads, and whether they were loaded already.
#[derive(Clone, Debug)]
pub struct LanguageConfig {
    pub base_snippets: Vec<String>,
    pub initialized: bool,
}

pub struct LanguageConfigView {
    pub base_snippets: Seq<Seq<char>>,
    pub initialized: bool,
}

impl View for LanguageConfig {
    type V = LanguageConfigView;

    open spec fn view(&self) -> LanguageConfigView {
        LanguageConfigView { base_snippets: strings_view(self.base_snippets@), initialized: self.initialized }
    }
}

/// A language is not initialized unless its settings say so.
pub fn not_initialized() -> (b: bool)
    ensures
        !b,
{
    false
}

/// Tracks the snippets of one group and which targets require them.
#[derive(Debug)]
pub struct SnippetSet {
    pub contents: Vec<String>,
    pub(crate) target_counter: i32,
}

pub struct SnippetSetView {
    pub contents: Seq<Seq<char>>,
    pub target_counter: int,
}

impl View for SnippetSet {
    type V = SnippetSetView;

    closed spec fn view(&self) -> SnippetSetView {
        SnippetSetView { contents: strings_view(self.contents@), target_counter: self.target_counter as int }
    }
}

impl SnippetSet {
    pub fn new(contents: Vec<String>) -> (r: Self)
        ensures
            r@.contents == strings_view(contents@),
            r@.target_counter == 1,
    {
        Self { contents, target_counter: 1 }
    }

    pub fn added_target(&mut self)
        requires
            old(self)@.target_counter < i32::MAX,
        ensures
            final(self)@.contents == old(self)@.contents,
            final(self)@.target_counter == old(self)@.target_counter + 1,
    {
        self.target_counter += 1;
    }

    /// The result says whether no target requires the set any more.
    pub fn dropped_target(&mut self) -> (drop_set: bool)
        ensures
            final(self)@.contents == old(self)@.contents,
            drop_set == (old(self)@.target_counter <= 1),
            final(self)@.target_counter == if drop_set {
                old(self)@.target_counter
            } else {
                old(self)@.target_counter - 1
            },
    {
        if self.target_counter > 1 {
            self.target_counter -= 1;
            false
        } else {
            true
        }
    }
}

/// The settings of each language by name; when a name occurs twice the later
/// entry counts.
pub open spec fn languages_map(v: Seq<(String, LanguageConfig)>) -> Map<Seq<char>, LanguageConfigView>
    decreases v.len(),
{
    if v.len() == 0 {
        Map::empty()
    } else {
        languages_map(v.drop_last()).insert(v.last().0@, v.last().1@)
    }
}

/// The position of the entry that counts for a name: the last one with it.
pub open spec fn last_index_of(v: Seq<(String, LanguageConfig)>, name: Seq<char>, i: int) -> bool {
    &&& 0 <= i < v.len()
    &&& v[i].0@ == name
    &&& forall|j: int| i < j < v.len() ==> #[trigger] v[j].0@ != name
}

proof fn lemma_languages_map_absent(v: Seq<(String, LanguageConfig)>, name: Seq<char>)
    requires
        forall|j: int| 0 <= j < v.len() ==> #[trigger] v[j].0@ != name,
    ensures
        !languages_map(v).dom().contains(name),
    decreases v.len(),
{
    if v.len() > 0 {
        lemma_languages_map_absent(v.drop_last(), name);
    }
}

proof fn lemma_languages_map_at(v: Seq<(String, LanguageConfig)>, name: Seq<char>, i: int)
    requires
        last_index_of(v, name, i),
    ensures
        languages_map(v).dom().contains(name),
        languages_map(v)[name] == v[i].1@,
    decreases v.len(),
{
    if i < v.len() - 1 {
        lemma_languages_map_at(v.drop_last(), name, i);
    }
}

proof fn lemma_languages_map_update(v: Seq<(String, LanguageConfig)>, name: Seq<char>, i: int, c: LanguageConfig)
    requires
        last_index_of(v, name, i),
    ensures
        languages_map(v.update(i, (v[i].0, c))) == languages_map(v).insert(name, c@),
    decreases v.len(),
{
    let w = v.update(i, (v[i].0, c));
    if i == v.len() - 1 {
        assert(w.drop_last() =~= v.drop_last());
    } else {
        assert(w.drop_last() =~= v.drop_last().update(i, (v[i].0, c)));
        lemma_languages_map_update(v.drop_last(), name, i, c);
    }
    assert(languages_map(w) =~= languages_map(v).insert(name, c@));
}

/// Stores the configuration settings and paths.
#[derive(Debug)]
pub struct SniperConfig {
    pub config_path: String,
    pub languages: Vec<(String, LanguageConfig)>,
}

pub struct SniperConfigView {
    pub config_path: Seq<char>,
    pub languages: Map<Seq<char>, LanguageConfigView>,
}

impl View for SniperConfig {
    type V = SniperConfigView;

    open spec fn view(&self) -> SniperConfigView {
        SniperConfigView { config_path: self.config_path@, languages: languages_map(self.languages@) }
    }
}

/// The path of the file that holds a snippet set of a language:
/// `<config path>/<language>/<snippet set>.toml`.
pub open spec fn snippet_file_path(config_path: Seq<char>, language: Seq<char>, snippet_set: Seq<char>) -> Seq<char> {
    config_path + seq!['/'] + language + seq!['/'] + snippet_set + seq!['.', 't', 'o', 'm', 'l']
}

impl SniperConfig {
    /// A configuration from the directory it was read from and the settings of each language.
    pub fn from_settings(config_path: String, languages: Vec<(String, LanguageConfig)>) -> (r: Self)
        ensures
            r@.config_path == config_path@,
            r@.languages == languages_map(languages@),
    {
        Self { config_path, languages }
    }

    /// Finds the entry that counts for a language.
    fn find_language(&self, language: &str) -> (r: Option<usize>)
        ensures
            match r {
                Some(i) => last_index_of(self.languages@, language@, i as int),
                None => forall|j: int| 0 <= j < self.languages@.len() ==> #[trigger] self.languages@[j].0@ != language@,
            },
    {
        let wanted = language.to_owned();
        let mut i = self.languages.len();
        while i > 0
            invariant
                wanted@ == language@,
                i <= self.languages@.len(),
                forall|j: int| i <= j < self.languages@.len() ==> #[trigger] self.languages@[j].0@ != language@,
            decreases i,
        {
            i -= 1;
            if self.languages[i].0 == wanted {
                return Some(i);
            }
        }
        None
    }

    /// Whether the configuration has settings for the language.
    pub fn contains_language(&self, language: &str) -> (b: bool)
        ensures
            b == self@.languages.dom().contains(language@),
    {
        match self.find_language(language) {
            Some(i) => {
                proof { lemma_languages_map_at(self.languages@, language@, i as int); }
                true
            },
            None => {
                proof { lemma_languages_map_absent(self.languages@, language@); }
                false
            },
        }
    }

    /// The snippet sets every target of the language loads, when the
    /// configuration has settings for the language.
    pub fn base_snippets(&self, language: &str) -> (r: Option<Vec<String>>)
        ensures
            match r {
                Some(v) => self@.languages.dom().contains(language@)
                    && strings_view(v@) == self@.languages[language@].base_snippets,
                None => !self@.languages.dom().contains(language@),
            },
    {
        match self.find_language(language) {
            Some(i) => {
                proof { lemma_languages_map_at(self.languages@, language@, i as int); }
                Some(crate::snippet::duplicate_strings(&self.languages[i].1.base_snippets))
            },
            None => {
                proof { lemma_languages_map_absent(self.languages@, language@); }
                None
            },
        }
    }

    /// Whether the base snippet sets of the language were loaded already.
    pub fn is_initialized(&self, language: &str) -> (r: Option<bool>)
        ensures
            match r {
                Some(b) => self@.languages.dom().contains(language@)
                    && b == self@.languages[language@].initialized,
                None => !self@.languages.dom().contains(language@),
            },
    {
        match self.find_language(language) {
            Some(i) => {
                proof { lemma_languages_map_at(self.languages@, language@, i as int); }
                Some(self.languages[i].1.initialized)
            },
            None => {
                proof { lemma_languages_map_absent(self.languages@, language@); }
                None
            },
        }
    }

    /// Records that the base snippet sets of a language were loaded.
    pub fn language_initialized(&mut self, language: &str)
        requires
            old(self)@.languages.dom().contains(language@),
        ensures
            final(self)@.config_path == old(self)@.config_path,
            final(self)@.languages == old(self)@.languages.insert(
                language@,
                LanguageConfigView { initialized: true, ..old(self)@.languages[language@] },
            ),
    {
        proof {
            if forall|j: int| 0 <= j < self.languages@.len() ==> #[trigger] self.languages@[j].0@ != language@ {
                lemma_languages_map_absent(self.languages@, language@);
            }
        }
        let i = self.find_language(language).unwrap();
        proof { lemma_languages_map_at(self.languages@, language@, i as int); }
        let ghost old_v = self.languages@;
        let name = self.languages[i].0.clone();
        let entry = LanguageConfig {
            base_snippets: crate::snippet::duplicate_strings(&self.languages[i].1.base_snippets),
            initialized: true,
        };
        proof {
            lemma_languages_map_update(old_v, language@, i as int, entry);
        }
        self.languages.set(i, (name, entry));
        proof {
            assert(self.languages@ =~= old_v.update(i as int, (old_v[i as int].0, entry)));
        }
    }

    /// The path of the file holding a snippet set of a language.
    pub fn snippet_data_path(&self, language: &str, snippet_set: &str) -> (p: String)
        ensures
            p@ == snippet_file_path(self@.config_path, language@, snippet_set@),
    {
        let mut p = self.config_path.clone();
        p.append("/");
        p.append(language);
        p.append("/");
        p.append(snippet_set);
        p.append(".toml");
        proof {
            reveal_strlit("/");
            reveal_strlit(".toml");
        }
        p
    }
}

} // verus!
