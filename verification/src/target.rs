use vstd::prelude::*;
use dashmap::DashSet;
use qp_trie::Trie;
use crate::proto::{SnippetInfo, SnippetInfoView};

verus! {

#[verifier::external_type_specification]
#[verifier::external_body]
#[verifier::reject_recursive_types(K)]
#[verifier::reject_recursive_types(S)]
pub struct ExDashSet<K, S>(DashSet<K, S>);

#[verifier::external_type_specification]
#[verifier::external_body]
#[verifier::reject_recursive_types(K)]
#[verifier::reject_recursive_types(V)]
pub struct ExTrie<K, V>(Trie<K, V>);

/// The names a set of snippet-set names holds.
pub uninterp spec fn set_names(s: DashSet<String>) -> Set<Seq<char>>;

/// The entries of a trigger trie: each trigger (as bytes) with the snippet it completes to.
pub uninterp spec fn trie_entries(t: Trie<Vec<u8>, SnippetInfo>) -> Map<Seq<u8>, SnippetInfoView>;

/// `DashSet::new`: a set with no names.
#[verifier::external_body]
fn names_new() -> (r: DashSet<String>)
    ensures
        set_names(r) == Set::<Seq<char>>::empty(),
{
    DashSet::new()
}

/// `DashSet::insert`: the set afterwards holds the name as well.
#[verifier::external_body]
fn names_insert(s: &mut DashSet<String>, name: String)
    ensures
        set_names(*final(s)) == set_names(*old(s)).insert(name@),
{
    s.insert(name);
}

/// `DashSet::contains`: whether the set holds the name.
#[verifier::external_body]
fn names_contains(s: &DashSet<String>, name: &String) -> (r: bool)
    ensures
        r == set_names(*s).contains(name@),
{
    s.contains(name)
}

/// `DashSet::iter`, each name copied: every name of the set, once, in an
/// order the set chooses.
#[verifier::external_body]
fn names_list(s: &DashSet<String>) -> (r: Vec<String>)
    ensures
        forall|i: int, j: int| 0 <= i < j < r@.len() ==> r@[i]@ != r@[j]@,
        forall|i: int| 0 <= i < r@.len() ==> set_names(*s).contains(#[trigger] r@[i]@),
        forall|x: Seq<char>| set_names(*s).contains(x) ==> exists|i: int| 0 <= i < r@.len() && #[trigger] r@[i]@ == x,
{
    s.iter().map(|k| k.key().clone()).collect()
}

/// `Trie::new`: a trie with no entries.
#[verifier::external_body]
fn trie_new() -> (r: Trie<Vec<u8>, SnippetInfo>)
    ensures
        trie_entries(r).dom().is_empty(),
{
    Trie::new()
}

/// `Trie::insert`: the key maps to the value afterwards, replacing what it mapped to.
#[verifier::external_body]
fn trie_insert(t: &mut Trie<Vec<u8>, SnippetInfo>, key: Vec<u8>, value: SnippetInfo)
    ensures
        trie_entries(*final(t)) == trie_entries(*old(t)).insert(key@, value@),
{
    t.insert(key, value);
}

/// `Trie::iter_prefix`, keys copied: every key that starts with `prefix`, once.
#[verifier::external_body]
fn trie_keys_with_prefix(t: &Trie<Vec<u8>, SnippetInfo>, prefix: &Vec<u8>) -> (r: Vec<Vec<u8>>)
    ensures
        forall|i: int, j: int| 0 <= i < j < r@.len() ==> r@[i]@ != r@[j]@,
        forall|i: int| 0 <= i < r@.len() ==> trie_entries(*t).contains_key(#[trigger] r@[i]@) && prefix@.is_prefix_of(r@[i]@),
        forall|k: Seq<u8>| trie_entries(*t).contains_key(k) && prefix@.is_prefix_of(k) ==> exists|i: int| 0 <= i < r@.len() && #[trigger] r@[i]@ == k,
{
    t.iter_prefix(&prefix[..]).map(|(k, _)| k.clone()).collect()
}

/// `Trie::get`: the value the key maps to, if it maps to one.
#[verifier::external_body]
fn trie_get<'a>(t: &'a Trie<Vec<u8>, SnippetInfo>, key: &Vec<u8>) -> (r: Option<&'a SnippetInfo>)
    ensures
        match r {
            Some(v) => trie_entries(*t).contains_key(key@) && v@ == trie_entries(*t)[key@],
            None => !trie_entries(*t).contains_key(key@),
        },
{
    t.get(&key[..])
}

/// A tracked file or editor session: its language, the snippet sets it
/// loaded and the triggers of their snippets.
#[derive(Debug)]
pub struct TargetData {
    pub language: String,
    pub loaded_snippets: DashSet<String>,
    pub triggers: Trie<Vec<u8>, SnippetInfo>,
}

pub struct TargetDataView {
    pub language: Seq<char>,
    pub loaded: Set<Seq<char>>,
    pub triggers: Map<Seq<u8>, SnippetInfoView>,
}

impl View for TargetData {
    type V = TargetDataView;

    open spec fn view(&self) -> TargetDataView {
        TargetDataView {
            language: self.language@,
            loaded: set_names(self.loaded_snippets),
            triggers: trie_entries(self.triggers),
        }
    }
}

/// The triggers of `entries` that start with `prefix`, listed without
/// repetition as `keys`, and the snippets they complete to as `infos`.
pub open spec fn is_completion_listing(
    entries: Map<Seq<u8>, SnippetInfoView>,
    prefix: Seq<u8>,
    keys: Seq<Seq<u8>>,
    infos: Seq<SnippetInfoView>,
) -> bool {
    &&& keys.len() == infos.len()
    &&& forall|i: int, j: int| 0 <= i < j < keys.len() ==> keys[i] != keys[j]
    &&& forall|i: int| 0 <= i < keys.len() ==> entries.contains_key(#[trigger] keys[i]) && prefix.is_prefix_of(keys[i])
        && infos[i] == entries[keys[i]]
    &&& forall|k: Seq<u8>| entries.contains_key(k) && prefix.is_prefix_of(k) ==> exists|i: int| 0 <= i < keys.len() && #[trigger] keys[i] == k
}

pub open spec fn infos_view(v: Seq<SnippetInfo>) -> Seq<SnippetInfoView> {
    v.map_values(|x: SnippetInfo| x@)
}

impl TargetData {
    pub fn new(language: &str) -> (r: Self)
        ensures
            r@.language == language@,
            r@.loaded == Set::<Seq<char>>::empty(),
            r@.triggers == Map::<Seq<u8>, SnippetInfoView>::empty(),
    {
        let r = Self { language: language.to_owned(), loaded_snippets: names_new(), triggers: trie_new() };
        assert(r@.triggers =~= Map::<Seq<u8>, SnippetInfoView>::empty());
        r
    }

    pub fn get_language(self) -> (r: String)
        ensures
            r@ == self@.language,
    {
        self.language.clone()
    }

    /// Records that the target loaded a snippet set.
    pub fn add_loaded(&mut self, snippet_set: String)
        ensures
            final(self)@ == (TargetDataView { loaded: old(self)@.loaded.insert(snippet_set@), ..old(self)@ }),
    {
        names_insert(&mut self.loaded_snippets, snippet_set);
    }

    /// Makes a trigger complete to a snippet.
    pub fn add_trigger(&mut self, trigger: Vec<u8>, info: SnippetInfo)
        ensures
            final(self)@ == (TargetDataView { triggers: old(self)@.triggers.insert(trigger@, info@), ..old(self)@ }),
    {
        trie_insert(&mut self.triggers, trigger, info);
    }

    /// Whether the target loaded a snippet set.
    pub fn has_loaded(&self, snippet_set: &String) -> (r: bool)
        ensures
            r == self@.loaded.contains(snippet_set@),
    {
        names_contains(&self.loaded_snippets, snippet_set)
    }

    /// The names of the snippet sets the target loaded, each once.
    pub fn loaded_list(&self) -> (r: Vec<String>)
        ensures
            forall|i: int, j: int| 0 <= i < j < r@.len() ==> r@[i]@ != r@[j]@,
            forall|i: int| 0 <= i < r@.len() ==> self@.loaded.contains(#[trigger] r@[i]@),
            forall|x: Seq<char>| self@.loaded.contains(x) ==> exists|i: int| 0 <= i < r@.len() && #[trigger] r@[i]@ == x,
    {
        names_list(&self.loaded_snippets)
    }

    /// The snippets whose trigger starts with the input, each trigger once.
    pub fn completions(&self, input: &Vec<u8>) -> (r: Vec<SnippetInfo>)
        ensures
            exists|keys: Seq<Seq<u8>>| is_completion_listing(self@.triggers, input@, keys, infos_view(r@)),
    {
        let keys = trie_keys_with_prefix(&self.triggers, input);
        let mut r: Vec<SnippetInfo> = Vec::new();
        for i in 0..keys.len()
            invariant
                r@.len() == i,
                i <= keys@.len(),
                forall|k: int| 0 <= k < keys@.len() ==> trie_entries(self.triggers).contains_key(#[trigger] keys@[k]@),
                forall|k: int| 0 <= k < i ==> #[trigger] r@[k]@ == trie_entries(self.triggers)[keys@[k]@],
        {
            match trie_get(&self.triggers, &keys[i]) {
                Some(info) => r.push(info.duplicate()),
                None => {
                    assert(false);
                },
            }
        }
        let ghost ks = keys@.map_values(|k: Vec<u8>| k@);
        assert(is_completion_listing(self@.triggers, input@, ks, infos_view(r@))) by {
            assert forall|k: Seq<u8>| self@.triggers.contains_key(k) && input@.is_prefix_of(k) implies exists|i: int| 0 <= i < ks.len() && #[trigger] ks[i] == k by {
                let i = choose|i: int| 0 <= i < keys@.len() && #[trigger] keys@[i]@ == k;
                assert(ks[i] == k);
            }
        }
        r
    }
}


/// The listing `keys`/`infos` holds the trigger `k` completing to `info`.
pub open spec fn lists_completion(keys: Seq<Seq<u8>>, infos: Seq<SnippetInfoView>, k: Seq<u8>, info: SnippetInfoView) -> bool {
    exists|j: int| 0 <= j < keys.len() && #[trigger] keys[j] == k && infos[j] == info
}

/// Law: a longer input completes to no more snippets: every snippet listed for
/// `p + q` is listed for `p`.
pub proof fn law_completions_narrow(
    entries: Map<Seq<u8>, SnippetInfoView>,
    p: Seq<u8>,
    q: Seq<u8>,
    keys1: Seq<Seq<u8>>,
    infos1: Seq<SnippetInfoView>,
    keys2: Seq<Seq<u8>>,
    infos2: Seq<SnippetInfoView>,
)
    requires
        is_completion_listing(entries, p, keys1, infos1),
        is_completion_listing(entries, p + q, keys2, infos2),
    ensures
        forall|i: int| 0 <= i < keys2.len() ==> #[trigger] lists_completion(keys1, infos1, keys2[i], infos2[i]),
{
    assert forall|i: int| 0 <= i < keys2.len() implies #[trigger] lists_completion(keys1, infos1, keys2[i], infos2[i]) by {
        let k = keys2[i];
        assert(entries.contains_key(k) && (p + q).is_prefix_of(k));
        assert forall|m: int| 0 <= m < p.len() implies p[m] == k[m] by {
            assert((p + q)[m] == p[m]);
        }
        assert(p.is_prefix_of(k));
        let j = choose|j: int| 0 <= j < keys1.len() && #[trigger] keys1[j] == k;
        assert(infos1[j] == entries[keys1[j]]);
        assert(infos2[i] == entries[keys2[i]]);
    }
}

/// Law: the empty input completes to every snippet that has a trigger.
pub proof fn law_empty_input_lists_all(
    entries: Map<Seq<u8>, SnippetInfoView>,
    keys: Seq<Seq<u8>>,
    infos: Seq<SnippetInfoView>,
)
    requires
        is_completion_listing(entries, Seq::empty(), keys, infos),
    ensures
        forall|k: Seq<u8>| #[trigger] entries.contains_key(k) ==> exists|j: int| 0 <= j < keys.len() && #[trigger] keys[j] == k
            && infos[j] == entries[k],
{
    assert forall|k: Seq<u8>| #[trigger] entries.contains_key(k) implies exists|j: int| 0 <= j < keys.len() && #[trigger] keys[j] == k
        && infos[j] == entries[k] by {
        assert(Seq::<u8>::empty().is_prefix_of(k));
        let j = choose|j: int| 0 <= j < keys.len() && #[trigger] keys[j] == k;
        assert(infos[j] == entries[keys[j]]);
    }
}
} // verus!
