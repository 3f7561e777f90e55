use vstd::prelude::*;
use dashmap::DashMap;
use crate::snippet::{Snippet, SnippetView, SnippetSet, SnippetSetView, Loader, strings_view, lemma_snippet_set_contents};
use crate::proto::{SnippetInfo, SnippetInfoView, Component, ComponentView, SnippetComponent, Tabstop,
    wrapped_view, components_view, snippet_components_view, wrap_components};
use crate::parser::{ComponentType, ComponentTypeView, spec_snippet_component, snippet_component, component_types_view, u32_as_i32};
use crate::target::{TargetData, TargetDataView};

verus! {

broadcast use lemma_snippet_set_contents;

#[verifier::external_type_specification]
#[verifier::external_body]
#[verifier::reject_recursive_types(K)]
#[verifier::reject_recursive_types(V)]
#[verifier::reject_recursive_types(S)]
pub struct ExDashMap<K, V, S>(DashMap<K, V, S>);

/// A key made of a language and a name.
pub open spec fn key_view(k: (String, String)) -> (Seq<char>, Seq<char>) {
    (k.0@, k.1@)
}

/// The snippets a snippet store holds, by (language, snippet name).
pub uninterp spec fn stored_snippets(m: DashMap<(String, String), Snippet>) -> Map<(Seq<char>, Seq<char>), SnippetView>;

/// The snippet sets a set store holds, by (language, set name).
pub uninterp spec fn stored_sets(m: DashMap<(String, String), SnippetSet>) -> Map<(Seq<char>, Seq<char>), SnippetSetView>;

/// `DashMap::new` for snippets: no snippets.
#[verifier::external_body]
fn snippets_new() -> (r: DashMap<(String, String), Snippet>)
    ensures
        stored_snippets(r).dom().is_empty(),
{
    DashMap::new()
}

/// `DashMap::insert` for snippets: the key holds the snippet afterwards.
#[verifier::external_body]
fn snippets_insert(m: &mut DashMap<(String, String), Snippet>, key: (String, String), value: Snippet)
    ensures
        stored_snippets(*final(m)) == stored_snippets(*old(m)).insert(key_view(key), value@),
{
    m.insert(key, value);
}

/// `DashMap::view` for snippets, the snippet cloned.
#[verifier::external_body]
fn snippets_get(m: &DashMap<(String, String), Snippet>, key: &(String, String)) -> (r: Option<Snippet>)
    ensures
        match r {
            Some(v) => stored_snippets(*m).contains_key(key_view(*key)) && v@ == stored_snippets(*m)[key_view(*key)],
            None => !stored_snippets(*m).contains_key(key_view(*key)),
        },
{
    m.view(key, |_, v| v.clone())
}

/// `DashMap::remove` for snippets: the key holds nothing afterwards.
#[verifier::external_body]
fn snippets_remove(m: &mut DashMap<(String, String), Snippet>, key: &(String, String))
    ensures
        stored_snippets(*final(m)) == stored_snippets(*old(m)).remove(key_view(*key)),
{
    m.remove(key);
}

/// `DashMap::contains_key` for snippets.
#[verifier::external_body]
pub(crate) fn snippets_contains(m: &DashMap<(String, String), Snippet>, key: &(String, String)) -> (r: bool)
    ensures
        r == stored_snippets(*m).contains_key(key_view(*key)),
{
    m.contains_key(key)
}

/// `DashMap::len` for snippets: how many keys hold a snippet.
#[verifier::external_body]
fn snippets_len(m: &DashMap<(String, String), Snippet>) -> (r: usize)
    ensures
        r == stored_snippets(*m).dom().len(),
{
    m.len()
}

/// `DashMap::new` for snippet sets: no sets.
#[verifier::external_body]
fn sets_new() -> (r: DashMap<(String, String), SnippetSet>)
    ensures
        stored_sets(r).dom().is_empty(),
{
    DashMap::new()
}

/// `DashMap::insert` for snippet sets.
#[verifier::external_body]
pub(crate) fn sets_insert(m: &mut DashMap<(String, String), SnippetSet>, key: (String, String), value: SnippetSet)
    ensures
        stored_sets(*final(m)) == stored_sets(*old(m)).insert(key_view(key), value@),
{
    m.insert(key, value);
}

/// `DashMap::view` for snippet sets, the set cloned.
#[verifier::external_body]
pub(crate) fn sets_get(m: &DashMap<(String, String), SnippetSet>, key: &(String, String)) -> (r: Option<SnippetSet>)
    ensures
        match r {
            Some(v) => stored_sets(*m).contains_key(key_view(*key)) && v@ == stored_sets(*m)[key_view(*key)],
            None => !stored_sets(*m).contains_key(key_view(*key)),
        },
{
    m.view(key, |_, v| v.clone())
}

/// `DashMap::remove` for snippet sets: the set the key held, which it holds no more.
#[verifier::external_body]
fn sets_remove(m: &mut DashMap<(String, String), SnippetSet>, key: &(String, String)) -> (r: Option<SnippetSet>)
    ensures
        stored_sets(*final(m)) == stored_sets(*old(m)).remove(key_view(*key)),
        match r {
            Some(v) => stored_sets(*old(m)).contains_key(key_view(*key)) && v@ == stored_sets(*old(m))[key_view(*key)],
            None => !stored_sets(*old(m)).contains_key(key_view(*key)),
        },
{
    m.remove(key).map(|(_, v)| v)
}

/// `DashMap::contains_key` for snippet sets.
#[verifier::external_body]
pub(crate) fn sets_contains(m: &DashMap<(String, String), SnippetSet>, key: &(String, String)) -> (r: bool)
    ensures
        r == stored_sets(*m).contains_key(key_view(*key)),
{
    m.contains_key(key)
}

/// `DashMap::iter` for snippet sets, each entry cloned: every set the map
/// holds, once, with its key, in an order the map chooses.
#[verifier::external_body]
fn sets_list(m: &DashMap<(String, String), SnippetSet>) -> (r: Vec<((String, String), SnippetSet)>)
    ensures
        forall|i: int, j: int| 0 <= i < j < r@.len() ==> key_view(r@[i].0) != key_view(r@[j].0),
        forall|i: int| 0 <= i < r@.len() ==> stored_sets(*m).contains_key(#[trigger] key_view(r@[i].0))
            && r@[i].1@ == stored_sets(*m)[key_view(r@[i].0)],
        forall|k: (Seq<char>, Seq<char>)| stored_sets(*m).contains_key(k) ==> exists|i: int| 0 <= i < r@.len() && #[trigger] key_view(r@[i].0) == k,
{
    m.iter().map(|e| (e.key().clone(), e.value().clone())).collect()
}

/// The snippets of a snippet file, each with its name.
pub open spec fn loader_entries(l: Seq<(String, Snippet)>) -> Seq<(Seq<char>, SnippetView)> {
    l.map_values(|p: (String, Snippet)| (p.0@, p.1@))
}

/// The names of the snippets of a snippet file, in file order.
pub open spec fn entry_names(e: Seq<(Seq<char>, SnippetView)>) -> Seq<Seq<char>> {
    e.map_values(|p: (Seq<char>, SnippetView)| p.0)
}

/// The store after the snippets of a file were added under a language, in
/// file order (a later snippet of the same name replaces an earlier one).
pub open spec fn with_snippets(
    m: Map<(Seq<char>, Seq<char>), SnippetView>,
    lang: Seq<char>,
    e: Seq<(Seq<char>, SnippetView)>,
) -> Map<(Seq<char>, Seq<char>), SnippetView>
    decreases e.len(),
{
    if e.len() == 0 {
        m
    } else {
        with_snippets(m, lang, e.drop_last()).insert((lang, e.last().0), e.last().1)
    }
}

/// The trigger of a snippet: the bytes of its prefix, completing to its name and description.
pub open spec fn trigger_of(name: Seq<char>, s: SnippetView) -> (Seq<u8>, SnippetInfoView) {
    (vstd::utf8::encode_utf8(s.prefix), SnippetInfoView { name, description: s.description })
}

/// The triggers of the snippets of a file, in file order.
pub open spec fn entry_triggers(e: Seq<(Seq<char>, SnippetView)>) -> Seq<(Seq<u8>, SnippetInfoView)> {
    e.map_values(|p: (Seq<char>, SnippetView)| trigger_of(p.0, p.1))
}

/// A trigger map after the given triggers were added in order.
pub open spec fn with_triggers(
    t: Map<Seq<u8>, SnippetInfoView>,
    pairs: Seq<(Seq<u8>, SnippetInfoView)>,
) -> Map<Seq<u8>, SnippetInfoView>
    decreases pairs.len(),
{
    if pairs.len() == 0 {
        t
    } else {
        with_triggers(t, pairs.drop_last()).insert(pairs.last().0, pairs.last().1)
    }
}

pub(crate) proof fn lemma_with_triggers(t: Map<Seq<u8>, SnippetInfoView>, pairs: Seq<(Seq<u8>, SnippetInfoView)>)
    ensures
        forall|k: Seq<u8>| t.contains_key(k) ==> #[trigger] with_triggers(t, pairs).contains_key(k),
        forall|j: int| 0 <= j < pairs.len() ==> with_triggers(t, pairs).contains_key(#[trigger] pairs[j].0),
        forall|j: int| 0 <= j < pairs.len() && (forall|j2: int| j < j2 < pairs.len() ==> #[trigger] pairs[j2].0 != pairs[j].0)
            ==> with_triggers(t, pairs)[#[trigger] pairs[j].0] == pairs[j].1,
    decreases pairs.len(),
{
    if pairs.len() > 0 {
        let pp = pairs.drop_last();
        lemma_with_triggers(t, pp);
        assert forall|k: Seq<u8>| t.contains_key(k) implies #[trigger] with_triggers(t, pairs).contains_key(k) by {
            assert(with_triggers(t, pp).contains_key(k));
        }
        assert forall|j: int| 0 <= j < pairs.len() implies with_triggers(t, pairs).contains_key(#[trigger] pairs[j].0) by {
            if j < pairs.len() - 1 {
                assert(pp[j] == pairs[j]);
            }
        }
        assert forall|j: int| 0 <= j < pairs.len() && (forall|j2: int| j < j2 < pairs.len() ==> #[trigger] pairs[j2].0 != pairs[j].0)
            implies with_triggers(t, pairs)[#[trigger] pairs[j].0] == pairs[j].1 by {
            if j < pairs.len() - 1 {
                assert(pp[j] == pairs[j]);
                assert(pairs[pairs.len() - 1].0 != pairs[j].0);
                assert forall|j2: int| j < j2 < pp.len() implies #[trigger] pp[j2].0 != pp[j].0 by {
                    assert(pp[j2] == pairs[j2]);
                }
            }
        }
    }
}

/// Law: giving a target the triggers of a file's snippets makes the UTF-8
/// bytes of each snippet's prefix a trigger, completing to that snippet's
/// name and description unless a later snippet of the file has the same
/// prefix; the triggers the target had stay triggers.
pub proof fn law_load_triggers_are_prefixes(t: Map<Seq<u8>, SnippetInfoView>, snippets: Seq<(String, Snippet)>)
    ensures
        forall|k: Seq<u8>| t.contains_key(k) ==> #[trigger] with_triggers(t, entry_triggers(loader_entries(snippets))).contains_key(k),
        forall|i: int| 0 <= i < snippets.len() ==> with_triggers(t, entry_triggers(loader_entries(snippets)))
            .contains_key(vstd::utf8::encode_utf8(#[trigger] snippets[i].1.prefix@)),
        forall|i: int| 0 <= i < snippets.len()
            && (forall|j: int| i < j < snippets.len() ==> vstd::utf8::encode_utf8(#[trigger] snippets[j].1.prefix@)
                != vstd::utf8::encode_utf8(snippets[i].1.prefix@))
            ==> with_triggers(t, entry_triggers(loader_entries(snippets)))[vstd::utf8::encode_utf8(#[trigger] snippets[i].1.prefix@)]
                == (SnippetInfoView { name: snippets[i].0@, description: snippets[i].1.description@ }),
{
    let pairs = entry_triggers(loader_entries(snippets));
    lemma_with_triggers(t, pairs);
    assert forall|i: int| 0 <= i < snippets.len() implies pairs[i] == (vstd::utf8::encode_utf8(#[trigger] snippets[i].1.prefix@),
        SnippetInfoView { name: snippets[i].0@, description: snippets[i].1.description@ }) by {
    }
    assert forall|i: int| 0 <= i < snippets.len() implies with_triggers(t, pairs)
        .contains_key(vstd::utf8::encode_utf8(#[trigger] snippets[i].1.prefix@)) by {
        assert(pairs[i].0 == vstd::utf8::encode_utf8(snippets[i].1.prefix@));
    }
    assert forall|i: int| 0 <= i < snippets.len()
        && (forall|j: int| i < j < snippets.len() ==> vstd::utf8::encode_utf8(#[trigger] snippets[j].1.prefix@)
            != vstd::utf8::encode_utf8(snippets[i].1.prefix@))
        implies with_triggers(t, pairs)[vstd::utf8::encode_utf8(#[trigger] snippets[i].1.prefix@)]
            == (SnippetInfoView { name: snippets[i].0@, description: snippets[i].1.description@ }) by {
        assert(pairs[i].0 == vstd::utf8::encode_utf8(snippets[i].1.prefix@));
        assert forall|j2: int| i < j2 < pairs.len() implies #[trigger] pairs[j2].0 != pairs[i].0 by {
            assert(pairs[j2].0 == vstd::utf8::encode_utf8(snippets[j2].1.prefix@));
        }
    }
}

pub open spec fn pairs_view(v: Seq<(Vec<u8>, SnippetInfo)>) -> Seq<(Seq<u8>, SnippetInfoView)> {
    v.map_values(|p: (Vec<u8>, SnippetInfo)| (p.0@, p.1@))
}

/// The state that holds all snippets and the snippet sets in play.
#[derive(Debug)]
pub struct SnippetManager {
    /// The snippets, by (language, snippet name).
    pub snippets: DashMap<(String, String), Snippet>,
    /// The snippet sets in play, by (language, set name); each lists the
    /// names of its snippets.
    pub snippet_sets: DashMap<(String, String), SnippetSet>,
}

pub struct SnippetManagerView {
    pub snippets: Map<(Seq<char>, Seq<char>), SnippetView>,
    pub sets: Map<(Seq<char>, Seq<char>), SnippetSetView>,
}

impl View for SnippetManager {
    type V = SnippetManagerView;

    open spec fn view(&self) -> SnippetManagerView {
        SnippetManagerView { snippets: stored_snippets(self.snippets), sets: stored_sets(self.snippet_sets) }
    }
}

/// The triggers of the snippets a set lists, in its order.
pub open spec fn set_trigger_pairs(m: SnippetManagerView, lang: Seq<char>, set: Seq<char>) -> Seq<(Seq<u8>, SnippetInfoView)> {
    m.sets[(lang, set)].contents.map_values(|n: Seq<char>| trigger_of(n, m.snippets[(lang, n)]))
}

/// The triggers of the snippets a set lists, in its order; none when the set
/// or one of its snippets is not in the store.
pub open spec fn spec_set_triggers(m: SnippetManagerView, lang: Seq<char>, set: Seq<char>) -> Option<Seq<(Seq<u8>, SnippetInfoView)>> {
    if m.sets.contains_key((lang, set)) {
        let names = m.sets[(lang, set)].contents;
        if forall|i: int| 0 <= i < names.len() ==> m.snippets.contains_key((lang, #[trigger] names[i])) {
            Some(set_trigger_pairs(m, lang, set))
        } else {
            None
        }
    } else {
        None
    }
}

/// Every snippet a set in play lists is in the store, under the set's language.
pub open spec fn sets_stored(m: SnippetManagerView) -> bool {
    forall|k: (Seq<char>, Seq<char>), n: Seq<char>| m.sets.contains_key(k) && #[trigger] m.sets[k].contents.contains(n)
        ==> m.snippets.contains_key((k.0, n))
}

/// Some set of the language other than `set` lists the name `n`.
pub open spec fn listed_elsewhere(
    sets: Map<(Seq<char>, Seq<char>), SnippetSetView>,
    lang: Seq<char>,
    set: Seq<char>,
    n: Seq<char>,
) -> bool {
    exists|s2: Seq<char>| s2 != set && sets.contains_key((lang, s2)) && #[trigger] sets[(lang, s2)].contents.contains(n)
}

/// The keys, among the names `names` of the set `set`, of the snippets that no
/// other set of the language lists: those that unloading the set drops.
pub open spec fn unload_keys(
    sets: Map<(Seq<char>, Seq<char>), SnippetSetView>,
    lang: Seq<char>,
    set: Seq<char>,
    names: Seq<Seq<char>>,
) -> Set<(Seq<char>, Seq<char>)> {
    Set::new(|k: (Seq<char>, Seq<char>)| k.0 == lang && names.contains(k.1) && !listed_elsewhere(sets, lang, set, k.1))
}

/// The keys of the snippets a set lists.
pub open spec fn set_keys(lang: Seq<char>, names: Seq<Seq<char>>) -> Set<(Seq<char>, Seq<char>)> {
    Set::new(|k: (Seq<char>, Seq<char>)| k.0 == lang && names.contains(k.1))
}

impl SnippetManager {
    pub fn new() -> (r: Self)
        ensures
            r@.snippets.dom().is_empty(),
            r@.sets.dom().is_empty(),
    {
        Self { snippets: snippets_new(), snippet_sets: sets_new() }
    }

    /// Adds the snippets of a set, read from its file, to the store, records
    /// the set as required by one target, and gives the target the triggers of
    /// the snippets.
    pub fn load(&mut self, language: &str, snip_set_name: &str, loader: &Loader, target: &mut TargetData)
        ensures
            final(self)@.snippets == with_snippets(old(self)@.snippets, language@, loader_entries(loader.snippets@)),
            final(self)@.sets == old(self)@.sets.insert(
                (language@, snip_set_name@),
                SnippetSetView { contents: entry_names(loader_entries(loader.snippets@)), target_counter: 1 },
            ),
            final(target)@ == (TargetDataView {
                loaded: old(target)@.loaded.insert(snip_set_name@),
                triggers: with_triggers(old(target)@.triggers, entry_triggers(loader_entries(loader.snippets@))),
                ..old(target)@
            }),
            forall|i: int| 0 <= i < loader.snippets@.len() ==> final(target)@.triggers
                .contains_key(vstd::utf8::encode_utf8(#[trigger] loader.snippets@[i].1.prefix@)),
    {
        let ghost e = loader_entries(loader.snippets@);
        let ghost snippets0 = self@.snippets;
        let ghost target0 = target@;
        let mut names: Vec<String> = Vec::new();
        for i in 0..loader.snippets.len()
            invariant
                e == loader_entries(loader.snippets@),
                names@.len() == i,
                i <= e.len(),
                strings_view(names@) == entry_names(e.take(i as int)),
                self@.snippets == with_snippets(snippets0, language@, e.take(i as int)),
                self@.sets == old(self)@.sets,
                target@ == (TargetDataView {
                    triggers: with_triggers(target0.triggers, entry_triggers(e.take(i as int))),
                    ..target0
                }),
        {
            let (name, snippet) = (&loader.snippets[i].0, &loader.snippets[i].1);
            let trigger = snippet.prefix.as_str().as_bytes_vec();
            target.add_trigger(trigger, SnippetInfo { name: name.clone(), description: snippet.description.clone() });
            snippets_insert(&mut self.snippets, (language.to_owned(), name.clone()), snippet.duplicate());
            let ghost names_before = strings_view(names@);
            names.push(name.clone());
            proof {
                assert(e[i as int].0 == name@);
                assert(strings_view(names@) =~= names_before.push(name@));
                assert(e.take(i + 1).drop_last() =~= e.take(i as int));
                assert(entry_triggers(e.take(i + 1)).drop_last() =~= entry_triggers(e.take(i as int)));
                assert(strings_view(names@) =~= entry_names(e.take(i + 1)));
            }
        }
        proof {
            assert(e.take(e.len() as int) =~= e);
        }
        sets_insert(&mut self.snippet_sets, (language.to_owned(), snip_set_name.to_owned()), SnippetSet::new(names));
        target.add_loaded(snip_set_name.to_owned());
        proof {
            law_load_triggers_are_prefixes(target0.triggers, loader.snippets@);
        }
    }

    /// The triggers of the snippets a set lists, in its order: the bytes of
    /// each snippet's prefix with its name and description.
    pub fn triggers(&self, language: &str, snippet_set: &str) -> (r: Vec<(Vec<u8>, SnippetInfo)>)
        requires
            spec_set_triggers(self@, language@, snippet_set@) is Some,
        ensures
            spec_set_triggers(self@, language@, snippet_set@) == Some(pairs_view(r@)),
    {
        self.collect_triggers(language, snippet_set).unwrap()
    }

    /// The triggers of the snippets a set lists, in its order; `None` when
    /// the set or one of its snippets is not in the store.
    pub(crate) fn collect_triggers(&self, language: &str, snippet_set: &str) -> (r: Option<Vec<(Vec<u8>, SnippetInfo)>>)
        ensures
            match r {
                Some(v) => spec_set_triggers(self@, language@, snippet_set@) == Some(pairs_view(v@)),
                None => spec_set_triggers(self@, language@, snippet_set@) is None,
            },
    {
        let set = match sets_get(&self.snippet_sets, &(language.to_owned(), snippet_set.to_owned())) {
            Some(set) => set,
            None => return None,
        };
        let ghost names = set@.contents;
        let mut out: Vec<(Vec<u8>, SnippetInfo)> = Vec::new();
        for i in 0..set.contents.len()
            invariant
                names == strings_view(set.contents@),
                self@.sets.contains_key((language@, snippet_set@)),
                names == self@.sets[(language@, snippet_set@)].contents,
                out@.len() == i,
                i <= names.len(),
                forall|j: int| 0 <= j < i ==> self@.snippets.contains_key((language@, #[trigger] names[j])),
                forall|j: int| 0 <= j < i ==> #[trigger] pairs_view(out@)[j] == trigger_of(names[j], self@.snippets[(language@, names[j])]),
        {
            let name = &set.contents[i];
            match snippets_get(&self.snippets, &(language.to_owned(), name.clone())) {
                Some(snippet) => {
                    let trigger = snippet.prefix.as_str().as_bytes_vec();
                    let ghost tview = trigger@;
                    let info = SnippetInfo { name: name.clone(), description: snippet.description.clone() };
                    let ghost out_before = out@;
                    out.push((trigger, info));
                    proof {
                        assert(names[i as int] == name@);
                        assert(tview == vstd::utf8::encode_utf8(snippet.prefix@));
                        assert(pairs_view(out@)[i as int] == (tview, info@));
                        assert(out@.drop_last() == out_before);
                        assert forall|j: int| 0 <= j < i + 1 implies #[trigger] pairs_view(out@)[j] == trigger_of(names[j], self@.snippets[(language@, names[j])]) by {
                            if j < i {
                                assert(pairs_view(out@)[j] == pairs_view(out@.drop_last())[j]);
                            }
                        }
                    }
                },
                None => {
                    proof {
                        assert(names[i as int] == name@);
                    }
                    return None;
                },
            }
        }
        proof {
            assert(pairs_view(out@) =~= names.map_values(|n: Seq<char>| trigger_of(n, self@.snippets[(language@, n)])));
        }
        Some(out)
    }

    /// Whether some set of the language other than `set` lists the name, given
    /// `all`, a listing of every set in play.
    fn listed_elsewhere_exec(
        &self,
        all: &Vec<((String, String), SnippetSet)>,
        language: &String,
        set: &String,
        name: &String,
    ) -> (b: bool)
        requires
            forall|i: int| 0 <= i < all@.len() ==> self@.sets.contains_key(#[trigger] key_view(all@[i].0))
                && all@[i].1@ == self@.sets[key_view(all@[i].0)],
            forall|k: (Seq<char>, Seq<char>)| self@.sets.contains_key(k) ==> exists|i: int| 0 <= i < all@.len() && #[trigger] key_view(all@[i].0) == k,
        ensures
            b == listed_elsewhere(self@.sets, language@, set@, name@),
    {
        for j in 0..all.len()
            invariant
                forall|i: int| 0 <= i < all@.len() ==> self@.sets.contains_key(#[trigger] key_view(all@[i].0))
                    && all@[i].1@ == self@.sets[key_view(all@[i].0)],
                forall|i: int| 0 <= i < j && key_view(all@[i].0).0 == language@ && key_view(all@[i].0).1 != set@
                    ==> !(#[trigger] all@[i].1@).contents.contains(name@),
        {
            let entry = &all[j];
            if entry.0.0 == *language && entry.0.1 != *set && vec_contains(&entry.1.contents, name) {
                proof {
                    assert(key_view(all@[j as int].0) == (language@, entry.0.1@));
                    assert(self@.sets[(language@, entry.0.1@)].contents.contains(name@));
                }
                return true;
            }
        }
        proof {
            if listed_elsewhere(self@.sets, language@, set@, name@) {
                let s2 = choose|s2: Seq<char>| s2 != set@ && self@.sets.contains_key((language@, s2))
                    && #[trigger] self@.sets[(language@, s2)].contents.contains(name@);
                let i = choose|i: int| 0 <= i < all@.len() && #[trigger] key_view(all@[i].0) == (language@, s2);
                assert(all@[i].1@ == self@.sets[(language@, s2)]);
            }
        }
        false
    }

    /// Drops a snippet set, and the snippets it lists that no other set of
    /// the language lists.
    pub fn unload(&mut self, language: &str, snip_set_to_drop: &str)
        requires
            old(self)@.sets.contains_key((language@, snip_set_to_drop@)),
        ensures
            final(self)@.snippets == old(self)@.snippets.remove_keys(
                unload_keys(old(self)@.sets, language@, snip_set_to_drop@, old(self)@.sets[(language@, snip_set_to_drop@)].contents),
            ),
            final(self)@.sets == old(self)@.sets.remove((language@, snip_set_to_drop@)),
            sets_stored(old(self)@) ==> sets_stored(final(self)@),
            forall|n: Seq<char>| #[trigger] old(self)@.sets[(language@, snip_set_to_drop@)].contents.contains(n)
                && !(exists|s2: Seq<char>| s2 != snip_set_to_drop@ && old(self)@.sets.contains_key((language@, s2))
                    && #[trigger] old(self)@.sets[(language@, s2)].contents.contains(n))
                ==> !final(self)@.snippets.contains_key((language@, n)),
            forall|n: Seq<char>, s2: Seq<char>| s2 != snip_set_to_drop@ && old(self)@.sets.contains_key((language@, s2))
                && #[trigger] old(self)@.sets[(language@, s2)].contents.contains(n) && old(self)@.snippets.contains_key((language@, n))
                ==> final(self)@.snippets.contains_key((language@, n))
                    && final(self)@.snippets[(language@, n)] == old(self)@.snippets[(language@, n)],
            forall|k: (Seq<char>, Seq<char>)| !(k.0 == language@ && old(self)@.sets[(language@, snip_set_to_drop@)].contents.contains(k.1))
                && #[trigger] old(self)@.snippets.contains_key(k)
                ==> final(self)@.snippets.contains_key(k) && final(self)@.snippets[k] == old(self)@.snippets[k],
            forall|k: (Seq<char>, Seq<char>)| #[trigger] final(self)@.snippets.contains_key(k) ==> old(self)@.snippets.contains_key(k),
    {
        let lang = language.to_owned();
        let set_name = snip_set_to_drop.to_owned();
        let key = (lang.clone(), set_name.clone());
        let set = sets_get(&self.snippet_sets, &key).unwrap();
        let all = sets_list(&self.snippet_sets);
        let ghost names = set@.contents;
        let ghost snippets0 = self@.snippets;
        let ghost sets0 = self@.sets;
        for i in 0..set.contents.len()
            invariant
                names == strings_view(set.contents@),
                key_view(key) == (language@, snip_set_to_drop@),
                lang@ == language@,
                set_name@ == snip_set_to_drop@,
                self@.sets == sets0,
                sets0 == old(self)@.sets,
                sets0.contains_key((language@, snip_set_to_drop@)),
                names == sets0[(language@, snip_set_to_drop@)].contents,
                forall|q: int| 0 <= q < all@.len() ==> sets0.contains_key(#[trigger] key_view(all@[q].0))
                    && all@[q].1@ == sets0[key_view(all@[q].0)],
                forall|k: (Seq<char>, Seq<char>)| sets0.contains_key(k) ==> exists|q: int| 0 <= q < all@.len() && #[trigger] key_view(all@[q].0) == k,
                self@.snippets == snippets0.remove_keys(unload_keys(sets0, language@, snip_set_to_drop@, names.take(i as int))),
        {
            let shared = self.listed_elsewhere_exec(&all, &lang, &set_name, &set.contents[i]);
            if !shared {
                snippets_remove(&mut self.snippets, &(lang.clone(), set.contents[i].clone()));
            }
            proof {
                let u0 = unload_keys(sets0, language@, snip_set_to_drop@, names.take(i as int));
                let u1 = unload_keys(sets0, language@, snip_set_to_drop@, names.take(i + 1));
                let x = names[i as int];
                assert(x == set.contents@[i as int]@);
                assert forall|y: Seq<char>| names.take(i + 1).contains(y) <==> (names.take(i as int).contains(y) || y == x) by {
                    if names.take(i + 1).contains(y) {
                        let j = choose|j: int| 0 <= j < i + 1 && #[trigger] names.take(i + 1)[j] == y;
                        if j < i {
                            assert(names.take(i as int)[j] == y);
                        }
                    }
                    if names.take(i as int).contains(y) {
                        let j = choose|j: int| 0 <= j < i && #[trigger] names.take(i as int)[j] == y;
                        assert(names.take(i + 1)[j] == y);
                    }
                    if y == x {
                        assert(names.take(i + 1)[i as int] == y);
                    }
                }
                if shared {
                    assert(u1 =~= u0);
                } else {
                    assert(!listed_elsewhere(sets0, language@, snip_set_to_drop@, x));
                    assert forall|k: (Seq<char>, Seq<char>)| #[trigger] u1.contains(k) <==> (u0.contains(k) || k == (language@, x)) by {
                        if k == (language@, x) {
                            assert(names.take(i + 1)[i as int] == x);
                            assert(names.take(i + 1).contains(x));
                        }
                    }
                    assert(u1 =~= u0.insert((language@, x)));
                }
                assert(self@.snippets =~= snippets0.remove_keys(u1));
            }
        }
        proof {
            assert(names.take(names.len() as int) =~= names);
        }
        sets_remove(&mut self.snippet_sets, &key);
        proof {
            let u = unload_keys(sets0, language@, snip_set_to_drop@, names);
            if sets_stored(old(self)@) {
                assert forall|k: (Seq<char>, Seq<char>), n: Seq<char>| self@.sets.contains_key(k) && #[trigger] self@.sets[k].contents.contains(n)
                    implies self@.snippets.contains_key((k.0, n)) by {
                    assert(sets0.contains_key(k) && sets0[k].contents.contains(n));
                    assert(snippets0.contains_key((k.0, n)));
                    if u.contains((k.0, n)) {
                        assert(k.0 == language@ && k.1 != snip_set_to_drop@);
                        assert(listed_elsewhere(sets0, language@, snip_set_to_drop@, n));
                    }
                }
            }
        }
    }
}

/// Whether the names hold the name.
fn vec_contains(v: &Vec<String>, x: &String) -> (b: bool)
    ensures
        b == strings_view(v@).contains(x@),
{
    for i in 0..v.len()
        invariant
            forall|j: int| 0 <= j < i ==> v@[j]@ != x@,
    {
        if v[i] == *x {
            proof {
                assert(strings_view(v@)[i as int] == x@);
            }
            return true;
        }
    }
    proof {
        if strings_view(v@).contains(x@) {
            let j = choose|j: int| 0 <= j < strings_view(v@).len() && #[trigger] strings_view(v@)[j] == x@;
            assert(v@[j]@ == x@);
        }
    }
    false
}

/// The pieces of a snippet body, line after line.
pub open spec fn body_tokens(body: Seq<Seq<char>>) -> Seq<ComponentTypeView>
    decreases body.len(),
{
    if body.len() == 0 {
        Seq::empty()
    } else {
        body_tokens(body.drop_last()) + spec_snippet_component(body.last())
    }
}

pub open spec fn fits_i32(x: int) -> bool {
    i32::MIN <= x <= i32::MAX
}

/// The components a snippet expands to, with nested snippets expanded in
/// place, and the tabstop offset that follows it; `offset` is added to the
/// numbers of its tabstops (plain `$n` ones and placeholders alike), and each
/// counts towards the offset of what follows. A snippet not in the store expands to nothing
/// and gives offset 0. `None` when the nesting is deeper than `fuel` or a
/// tabstop number leaves the `i32` range.
pub open spec fn spec_chamber(
    snips: Map<(Seq<char>, Seq<char>), SnippetView>,
    lang: Seq<char>,
    name: Seq<char>,
    offset: int,
    fuel: nat,
) -> Option<(Seq<ComponentView>, int)>
    decreases fuel, 0int,
{
    if fuel == 0 {
        None
    } else if !snips.contains_key((lang, name)) {
        Some((Seq::empty(), 0))
    } else {
        spec_discharge(snips, lang, body_tokens(snips[(lang, name)].body), 0, offset, 0, (fuel - 1) as nat)
    }
}

/// The components that the pieces `toks[idx..]` of a snippet expand to, with
/// the current tabstop offset and the number of placeholders seen so far,
/// and the offset that follows them.
pub open spec fn spec_discharge(
    snips: Map<(Seq<char>, Seq<char>), SnippetView>,
    lang: Seq<char>,
    toks: Seq<ComponentTypeView>,
    idx: int,
    offset: int,
    count: int,
    fuel: nat,
) -> Option<(Seq<ComponentView>, int)>
    decreases fuel, toks.len() - idx + 1,
{
    if idx < 0 || idx >= toks.len() {
        if fits_i32(offset + count) {
            Some((Seq::empty(), offset + count))
        } else {
            None
        }
    } else {
        match toks[idx] {
            ComponentTypeView::ReadyComponent(c) => match c {
                ComponentView::Tabstop(n, args) => {
                    let num = n + offset;
                    if fits_i32(num) && fits_i32(count + 1) {
                        match spec_discharge(snips, lang, toks, idx + 1, offset, count + 1, fuel) {
                            Some((rest, r)) => Some((seq![ComponentView::Tabstop(num as i32, args)] + rest, r)),
                            None => None,
                        }
                    } else {
                        None
                    }
                },
                _ => match spec_discharge(snips, lang, toks, idx + 1, offset, count, fuel) {
                    Some((rest, r)) => Some((seq![c] + rest, r)),
                    None => None,
                },
            },
            ComponentTypeView::Tabstop(n, args) => {
                let num = u32_as_i32(n as int) + offset;
                if fits_i32(num) && fits_i32(count + 1) {
                    match spec_discharge(snips, lang, toks, idx + 1, offset, count + 1, fuel) {
                        Some((rest, r)) => Some((seq![ComponentView::Tabstop(num as i32, wrapped_view(args))] + rest, r)),
                        None => None,
                    }
                } else {
                    None
                }
            },
            ComponentTypeView::Snippet(sub) => {
                let start = offset + count;
                if fits_i32(start) {
                    match spec_chamber(snips, lang, sub, start, fuel) {
                        Some((sub_out, r)) => {
                            let next = if r != start {
                                r - count
                            } else {
                                offset
                            };
                            if fits_i32(next) {
                                match spec_discharge(snips, lang, toks, idx + 1, next, count, fuel) {
                                    Some((rest, rr)) => Some((sub_out + rest, rr)),
                                    None => None,
                                }
                            } else {
                                None
                            }
                        },
                        None => None,
                    }
                } else {
                    None
                }
            },
        }
    }
}

/// Prefixes the components of an expansion result.
pub open spec fn prepend(pre: Seq<ComponentView>, o: Option<(Seq<ComponentView>, int)>) -> Option<(Seq<ComponentView>, int)> {
    match o {
        Some((rest, r)) => Some((pre + rest, r)),
        None => None,
    }
}

/// How deep snippets may nest when a snippet is expanded: one level more than
/// there are snippets in the store.
pub open spec fn expansion_depth(snips: Map<(Seq<char>, Seq<char>), SnippetView>) -> nat {
    if snips.dom().len() < usize::MAX {
        snips.dom().len() + 1
    } else {
        snips.dom().len()
    }
}

/// What a request for a snippet answers: nothing for a snippet not in the
/// store; otherwise its expansion, wrapped for sending, when the expansion
/// completes within the nesting depth and the `i32` range.
pub open spec fn spec_fire(
    snips: Map<(Seq<char>, Seq<char>), SnippetView>,
    lang: Seq<char>,
    name: Seq<char>,
) -> Option<Seq<Option<ComponentView>>> {
    if !snips.contains_key((lang, name)) {
        None
    } else {
        match spec_chamber(snips, lang, name, 0, expansion_depth(snips)) {
            Some((out, _)) => Some(wrapped_view(out)),
            None => None,
        }
    }
}

pub(crate) fn reversed<T>(v: Vec<T>) -> (r: Vec<T>)
    ensures
        r@ == v@.reverse(),
{
    let ghost v0 = v@;
    let mut v = v;
    let mut r: Vec<T> = Vec::new();
    while v.len() > 0
        invariant
            v0 == v@ + r@.reverse(),
        decreases v.len(),
    {
        let x = v.pop().unwrap();
        proof {
            assert(r@.push(x).reverse() =~= seq![x] + r@.reverse());
        }
        r.push(x);
        assert(v0 =~= v@ + r@.reverse());
    }
    assert(v0.reverse() =~= r@.reverse().reverse());
    r
}

/// Wraps a component for sending it to the editor.
pub fn discharge(component: Component) -> (r: SnippetComponent)
    ensures
        r.component == Some(component),
{
    SnippetComponent { component: Some(component) }
}

impl SnippetManager {
    /// The pieces of a snippet's body, line after line.
    fn body_pieces(body: &Vec<String>) -> (r: Vec<ComponentType>)
        ensures
            component_types_view(r@) == body_tokens(strings_view(body@)),
    {
        let mut r: Vec<ComponentType> = Vec::new();
        for i in 0..body.len()
            invariant
                i <= body@.len(),
                component_types_view(r@) == body_tokens(strings_view(body@).take(i as int)),
        {
            let mut pieces = snippet_component(body[i].as_str());
            let ghost r0 = component_types_view(r@);
            let ghost p0 = component_types_view(pieces@);
            r.append(&mut pieces);
            proof {
                assert(strings_view(body@).take(i + 1).drop_last() =~= strings_view(body@).take(i as int));
                assert(component_types_view(r@) =~= r0 + p0);
            }
        }
        proof {
            assert(strings_view(body@).take(body@.len() as int) =~= strings_view(body@));
        }
        r
    }

    /// Expands a snippet into the components to send, nested snippets in
    /// place; see `spec_chamber`.
    pub fn chamber(&self, language: &String, snippet_name: String, tab_offset: i32, fuel: usize) -> (r: Option<(Vec<Component>, i32)>)
        ensures
            match spec_chamber(self@.snippets, language@, snippet_name@, tab_offset as int, fuel as nat) {
                Some((out, off)) => match r {
                    Some((v, o)) => components_view(v@) == out && o as int == off,
                    None => false,
                },
                None => r is None,
            },
        decreases fuel,
    {
        if fuel == 0 {
            return None;
        }
        let ghost name_v = snippet_name@;
        let snippet = match snippets_get(&self.snippets, &(language.clone(), snippet_name.clone())) {
            Some(s) => s,
            None => {
                let v: Vec<Component> = Vec::new();
                assert(components_view(v@) =~= Seq::empty());
                return Some((v, 0));
            },
        };
        let pieces = Self::body_pieces(&snippet.body);
        let ghost toks = component_types_view(pieces@);
        let ghost snips = self@.snippets;
        let ghost f = (fuel - 1) as nat;
        let mut rest = reversed(pieces);
        let mut out: Vec<Component> = Vec::new();
        let mut offset: i32 = tab_offset;
        let mut count: i32 = 0;
        let ghost mut idx: int = 0;
        proof {
            assert(toks.subrange(0, toks.len() as int) =~= toks);
            assert(components_view(out@) =~= Seq::empty());
            assert(prepend(Seq::empty(), spec_discharge(snips, language@, toks, 0, offset as int, 0, f))
                =~= spec_discharge(snips, language@, toks, 0, offset as int, 0, f)) by {
                match spec_discharge(snips, language@, toks, 0, offset as int, 0, f) {
                    Some((a, b)) => { assert(Seq::<ComponentView>::empty() + a =~= a); },
                    None => {},
                }
            }
        }
        while rest.len() > 0
            invariant
                snips == self@.snippets,
                f == fuel - 1,
                name_v == snippet_name@,
                spec_chamber(snips, language@, name_v, tab_offset as int, fuel as nat)
                    == spec_discharge(snips, language@, toks, 0, tab_offset as int, 0, f),
                fuel > 0,
                0 <= idx <= toks.len(),
                component_types_view(rest@) == toks.subrange(idx, toks.len() as int).reverse(),
                spec_discharge(snips, language@, toks, 0, tab_offset as int, 0, f)
                    == prepend(components_view(out@), spec_discharge(snips, language@, toks, idx, offset as int, count as int, f)),
            decreases rest.len(),
        {
            let ghost out0 = components_view(out@);
            let ghost rest0 = rest@;
            let tok = rest.pop().unwrap();
            proof {
                let sub = toks.subrange(idx, toks.len() as int);
                assert(component_types_view(rest0).len() == rest0.len());
                assert(sub.reverse().len() == sub.len());
                assert(idx < toks.len());
                assert(sub.reverse()[sub.len() - 1] == sub[0]);
                assert(rest@ == rest0.drop_last());
                assert(tok == rest0.last());
                assert(component_types_view(rest0)[rest0.len() - 1] == toks[idx]);
                assert(tok@ == toks[idx]);
                let sub2 = toks.subrange(idx + 1, toks.len() as int);
                assert forall|k: int| 0 <= k < sub2.len() implies #[trigger] component_types_view(rest@)[k] == sub2.reverse()[k] by {
                    assert(component_types_view(rest@)[k] == component_types_view(rest0)[k]);
                    assert(sub.reverse()[k] == sub[sub.len() - 1 - k]);
                    assert(sub2.reverse()[k] == sub2[sub2.len() - 1 - k]);
                }
                assert(component_types_view(rest@) =~= toks.subrange(idx + 1, toks.len() as int).reverse());
            }
            match tok {
                ComponentType::ReadyComponent(Component::Tabstop(t)) => {
                    let num = match t.number.checked_add(offset) {
                        Some(x) => x,
                        None => return None,
                    };
                    let next_count = match count.checked_add(1) {
                        Some(x) => x,
                        None => return None,
                    };
                    let ghost args = snippet_components_view(t.content@);
                    let c = Component::Tabstop(Tabstop { number: num, content: t.content });
                    let ghost cv = c@;
                    out.push(c);
                    count = next_count;
                    proof {
                        assert(cv == ComponentView::Tabstop(num, args));
                        assert(components_view(out@) =~= out0 + seq![cv]);
                        match spec_discharge(snips, language@, toks, idx + 1, offset as int, count as int, f) {
                            Some((a, b)) => { assert(out0 + (seq![cv] + a) =~= components_view(out@) + a); },
                            None => {},
                        }
                        idx = idx + 1;
                    }
                },
                ComponentType::ReadyComponent(c) => {
                    let ghost cv = c@;
                    out.push(c);
                    proof {
                        assert(components_view(out@) =~= out0 + seq![cv]);
                        match spec_discharge(snips, language@, toks, idx + 1, offset as int, count as int, f) {
                            Some((a, b)) => { assert(out0 + (seq![cv] + a) =~= components_view(out@) + a); },
                            None => {},
                        }
                        idx = idx + 1;
                    }
                },
                ComponentType::Tabstop(n, args) => {
                    let base = crate::parser::to_i32(n);
                    let num = match base.checked_add(offset) {
                        Some(x) => x,
                        None => return None,
                    };
                    let next_count = match count.checked_add(1) {
                        Some(x) => x,
                        None => return None,
                    };
                    let ghost av = components_view(args@);
                    let c = Component::Tabstop(Tabstop { number: num, content: wrap_components(args) });
                    let ghost cv = c@;
                    out.push(c);
                    count = next_count;
                    proof {
                        assert(cv == ComponentView::Tabstop(num, wrapped_view(av)));
                        assert(components_view(out@) =~= out0 + seq![cv]);
                        match spec_discharge(snips, language@, toks, idx + 1, offset as int, count as int, f) {
                            Some((a, b)) => { assert(out0 + (seq![cv] + a) =~= components_view(out@) + a); },
                            None => {},
                        }
                        idx = idx + 1;
                    }
                },
                ComponentType::Snippet(sub) => {
                    let start = match offset.checked_add(count) {
                        Some(x) => x,
                        None => return None,
                    };
                    let (sub_out, r) = match self.chamber(language, sub, start, fuel - 1) {
                        Some(x) => x,
                        None => return None,
                    };
                    if r != start {
                        offset = match r.checked_sub(count) {
                            Some(x) => x,
                            None => return None,
                        };
                    }
                    let ghost sv = components_view(sub_out@);
                    let mut sub_out = sub_out;
                    out.append(&mut sub_out);
                    proof {
                        assert(components_view(out@) =~= out0 + sv);
                        match spec_discharge(snips, language@, toks, idx + 1, offset as int, count as int, f) {
                            Some((a, b)) => { assert(out0 + (sv + a) =~= components_view(out@) + a); },
                            None => {},
                        }
                        idx = idx + 1;
                    }
                },
            }
        }
        proof {
            assert(toks.subrange(idx, toks.len() as int).reverse().len() == 0);
        }
        match offset.checked_add(count) {
            Some(end) => {
                proof {
                    assert(components_view(out@) + Seq::<ComponentView>::empty() =~= components_view(out@));
                }
                Some((out, end))
            },
            None => None,
        }
    }

    /// The components a snippet expands to, ready to send: nested snippets
    /// expanded in place and their tabstops renumbered after those before them.
    /// `None` when the snippet is not in the store, when snippets nest deeper than there are snippets (which only a
    /// snippet that refers to itself, directly or not, can do) or a tabstop
    /// number leaves the `i32` range.
    pub fn fire(&self, language: String, snippet_name: String) -> (r: Option<Vec<SnippetComponent>>)
        ensures
            match spec_fire(self@.snippets, language@, snippet_name@) {
                Some(v) => r is Some && snippet_components_view(r->0@) == v,
                None => r is None,
            },
    {
        if !snippets_contains(&self.snippets, &(language.clone(), snippet_name.clone())) {
            return None;
        }
        let n = snippets_len(&self.snippets);
        let fuel = if n < usize::MAX { n + 1 } else { n };
        match self.chamber(&language, snippet_name, 0, fuel) {
            Some((out, _)) => Some(wrap_components(out)),
            None => None,
        }
    }
}

pub(crate) proof fn lemma_with_snippets_dom(
    m: Map<(Seq<char>, Seq<char>), SnippetView>,
    lang: Seq<char>,
    e: Seq<(Seq<char>, SnippetView)>,
)
    ensures
        forall|k: (Seq<char>, Seq<char>)| #[trigger] with_snippets(m, lang, e).contains_key(k)
            <==> (m.contains_key(k) || set_keys(lang, entry_names(e)).contains(k)),
        forall|k: (Seq<char>, Seq<char>)| m.contains_key(k) && !set_keys(lang, entry_names(e)).contains(k)
            ==> #[trigger] with_snippets(m, lang, e)[k] == m[k],
    decreases e.len(),
{
    if e.len() > 0 {
        let ep = e.drop_last();
        lemma_with_snippets_dom(m, lang, ep);
        assert forall|x: Seq<char>| entry_names(e).contains(x) <==> (entry_names(ep).contains(x) || x == e.last().0) by {
            if entry_names(e).contains(x) {
                let q = choose|q: int| 0 <= q < entry_names(e).len() && entry_names(e)[q] == x;
                if q < e.len() - 1 {
                    assert(entry_names(ep)[q] == x);
                }
            }
            if entry_names(ep).contains(x) {
                let q = choose|q: int| 0 <= q < entry_names(ep).len() && entry_names(ep)[q] == x;
                assert(entry_names(e)[q] == x);
            }
            if x == e.last().0 {
                assert(entry_names(e)[e.len() - 1] == x);
            }
        }
        let w = with_snippets(m, lang, e);
        assert(w == with_snippets(m, lang, ep).insert((lang, e.last().0), e.last().1));
        assert forall|k: (Seq<char>, Seq<char>)| #[trigger] set_keys(lang, entry_names(e)).contains(k)
            <==> (set_keys(lang, entry_names(ep)).contains(k) || k == (lang, e.last().0)) by {
        }
    } else {
        assert forall|k: (Seq<char>, Seq<char>)| !#[trigger] set_keys(lang, entry_names(e)).contains(k) by {
            assert(entry_names(e).len() == 0);
        }
    }
}

/// Law: unloading a snippet set right after loading it puts the store back as
/// it was, when the set was not in play and none of its snippets was stored
/// (in a store where every set in play has its snippets stored).
pub proof fn law_unload_undoes_load(
    m: SnippetManagerView,
    lang: Seq<char>,
    set: Seq<char>,
    e: Seq<(Seq<char>, SnippetView)>,
)
    requires
        sets_stored(m),
        !m.sets.contains_key((lang, set)),
        forall|k: (Seq<char>, Seq<char>)| #[trigger] set_keys(lang, entry_names(e)).contains(k) ==> !m.snippets.contains_key(k),
    ensures
        ({
            let loaded_sets = m.sets.insert((lang, set), SnippetSetView { contents: entry_names(e), target_counter: 1 });
            &&& with_snippets(m.snippets, lang, e).remove_keys(
                unload_keys(loaded_sets, lang, set, loaded_sets[(lang, set)].contents),
            ) == m.snippets
            &&& loaded_sets.remove((lang, set)) == m.sets
        }),
{
    lemma_with_snippets_dom(m.snippets, lang, e);
    let loaded_sets = m.sets.insert((lang, set), SnippetSetView { contents: entry_names(e), target_counter: 1 });
    let u = unload_keys(loaded_sets, lang, set, entry_names(e));
    assert forall|k: (Seq<char>, Seq<char>)| #[trigger] u.contains(k) <==> set_keys(lang, entry_names(e)).contains(k) by {
        if set_keys(lang, entry_names(e)).contains(k) && listed_elsewhere(loaded_sets, lang, set, k.1) {
            let s2 = choose|s2: Seq<char>| s2 != set && loaded_sets.contains_key((lang, s2))
                && #[trigger] loaded_sets[(lang, s2)].contents.contains(k.1);
            assert(m.sets.contains_key((lang, s2)) && m.sets[(lang, s2)].contents.contains(k.1));
            assert(m.snippets.contains_key(k));
        }
    }
    assert(with_snippets(m.snippets, lang, e).remove_keys(u) =~= m.snippets);
    assert(loaded_sets.remove((lang, set)) =~= m.sets);
}

proof fn lemma_discharge_more_depth(
    snips: Map<(Seq<char>, Seq<char>), SnippetView>,
    lang: Seq<char>,
    toks: Seq<ComponentTypeView>,
    idx: int,
    offset: int,
    count: int,
    fuel: nat,
)
    requires
        spec_discharge(snips, lang, toks, idx, offset, count, fuel) is Some,
    ensures
        spec_discharge(snips, lang, toks, idx, offset, count, fuel + 1) == spec_discharge(snips, lang, toks, idx, offset, count, fuel),
    decreases fuel, toks.len() - idx + 1,
{
    if 0 <= idx < toks.len() {
        match toks[idx] {
            ComponentTypeView::ReadyComponent(c) => {
                if c is Tabstop {
                    lemma_discharge_more_depth(snips, lang, toks, idx + 1, offset, count + 1, fuel);
                } else {
                    lemma_discharge_more_depth(snips, lang, toks, idx + 1, offset, count, fuel);
                }
            },
            ComponentTypeView::Tabstop(n, args) => {
                lemma_discharge_more_depth(snips, lang, toks, idx + 1, offset, count + 1, fuel);
            },
            ComponentTypeView::Snippet(sub) => {
                let start = offset + count;
                law_more_depth_same_expansion(snips, lang, sub, start, fuel);
                let (sub_out, r) = spec_chamber(snips, lang, sub, start, fuel)->Some_0;
                let next = if r != start { r - count } else { offset };
                lemma_discharge_more_depth(snips, lang, toks, idx + 1, next, count, fuel);
            },
        }
    }
}

/// Law: allowing snippets to nest deeper never changes an expansion that
/// already completed; only an expansion cut short by the depth can change.
pub proof fn law_more_depth_same_expansion(
    snips: Map<(Seq<char>, Seq<char>), SnippetView>,
    lang: Seq<char>,
    name: Seq<char>,
    offset: int,
    fuel: nat,
)
    requires
        spec_chamber(snips, lang, name, offset, fuel) is Some,
    ensures
        spec_chamber(snips, lang, name, offset, fuel + 1) == spec_chamber(snips, lang, name, offset, fuel),
    decreases fuel, 0int,
{
    if fuel > 0 && snips.contains_key((lang, name)) {
        lemma_discharge_more_depth(snips, lang, body_tokens(snips[(lang, name)].body), 0, offset, 0, (fuel - 1) as nat);
    }
}

/// The nesting of the stored snippets of a language is ranked by `rank`: a
/// snippet named inside the body of a stored snippet has a lower rank than it.
/// Such a rank exists exactly when no snippet refers to itself, directly or not.
pub open spec fn nesting_ranked(
    snips: Map<(Seq<char>, Seq<char>), SnippetView>,
    lang: Seq<char>,
    rank: spec_fn(Seq<char>) -> nat,
) -> bool {
    forall|n: Seq<char>, i: int| #![trigger body_tokens(snips[(lang, n)].body)[i]]
        snips.contains_key((lang, n)) && 0 <= i < body_tokens(snips[(lang, n)].body).len()
            && body_tokens(snips[(lang, n)].body)[i] is Snippet
            ==> rank(body_tokens(snips[(lang, n)].body)[i]->Snippet_0) < rank(n)
}

proof fn lemma_discharge_ranked(
    snips: Map<(Seq<char>, Seq<char>), SnippetView>,
    lang: Seq<char>,
    rank: spec_fn(Seq<char>) -> nat,
    parent: Seq<char>,
    idx: int,
    offset: int,
    count: int,
    fuel: nat,
)
    requires
        nesting_ranked(snips, lang, rank),
        snips.contains_key((lang, parent)),
        rank(parent) <= fuel,
    ensures
        spec_discharge(snips, lang, body_tokens(snips[(lang, parent)].body), idx, offset, count, fuel + 1)
            == spec_discharge(snips, lang, body_tokens(snips[(lang, parent)].body), idx, offset, count, fuel),
    decreases fuel, body_tokens(snips[(lang, parent)].body).len() - idx + 1,
{
    let toks = body_tokens(snips[(lang, parent)].body);
    if 0 <= idx < toks.len() {
        match toks[idx] {
            ComponentTypeView::ReadyComponent(c) => {
                if c is Tabstop {
                    lemma_discharge_ranked(snips, lang, rank, parent, idx + 1, offset, count + 1, fuel);
                } else {
                    lemma_discharge_ranked(snips, lang, rank, parent, idx + 1, offset, count, fuel);
                }
            },
            ComponentTypeView::Tabstop(n, args) => {
                lemma_discharge_ranked(snips, lang, rank, parent, idx + 1, offset, count + 1, fuel);
            },
            ComponentTypeView::Snippet(sub) => {
                let start = offset + count;
                assert(rank(sub) < rank(parent));
                law_ranked_nesting_fits_depth(snips, lang, rank, sub, start, fuel);
                match spec_chamber(snips, lang, sub, start, fuel) {
                    Some((sub_out, r)) => {
                        let next = if r != start { r - count } else { offset };
                        lemma_discharge_ranked(snips, lang, rank, parent, idx + 1, next, count, fuel);
                    },
                    None => {},
                }
            },
        }
    }
}

/// Law: when no snippet refers to itself, directly or not (the nesting is
/// ranked), an expansion whose depth bound exceeds the rank of the snippet is
/// the same under any larger bound: the bound never cuts it short.
pub proof fn law_ranked_nesting_fits_depth(
    snips: Map<(Seq<char>, Seq<char>), SnippetView>,
    lang: Seq<char>,
    rank: spec_fn(Seq<char>) -> nat,
    name: Seq<char>,
    offset: int,
    fuel: nat,
)
    requires
        nesting_ranked(snips, lang, rank),
        rank(name) < fuel,
    ensures
        spec_chamber(snips, lang, name, offset, fuel + 1) == spec_chamber(snips, lang, name, offset, fuel),
    decreases fuel, 1int,
{
    if snips.contains_key((lang, name)) {
        lemma_discharge_ranked(snips, lang, rank, name, 0, offset, 0, (fuel - 1) as nat);
    }
}

/// Law: under a ranked nesting, once the depth bound exceeds the rank of the
/// snippet, raising it by any amount gives the same expansion; so `fire`, whose
/// bound is one more than the number of stored snippets, gives the unbounded
/// expansion of every snippet whose rank is at most that number.
pub proof fn law_ranked_expansion_any_depth(
    snips: Map<(Seq<char>, Seq<char>), SnippetView>,
    lang: Seq<char>,
    rank: spec_fn(Seq<char>) -> nat,
    name: Seq<char>,
    offset: int,
    fuel: nat,
    extra: nat,
)
    requires
        nesting_ranked(snips, lang, rank),
        rank(name) < fuel,
    ensures
        spec_chamber(snips, lang, name, offset, fuel + extra) == spec_chamber(snips, lang, name, offset, fuel),
    decreases extra,
{
    if extra > 0 {
        law_ranked_expansion_any_depth(snips, lang, rank, name, offset, fuel, (extra - 1) as nat);
        law_ranked_nesting_fits_depth(snips, lang, rank, name, offset, (fuel + extra - 1) as nat);
    }
}

/// The component a piece of a body stands for when it is sent unchanged by
/// position: a ready component as it is, a placeholder as a tabstop holding
/// each of its default components.
spec fn flat_piece(t: ComponentTypeView) -> ComponentView {
    match t {
        ComponentTypeView::ReadyComponent(c) => c,
        ComponentTypeView::Tabstop(n, args) => ComponentView::Tabstop(u32_as_i32(n as int) as i32, args.map_values(|a: ComponentView| Some(a))),
        ComponentTypeView::Snippet(_) => ComponentView::Text(Seq::empty()),
    }
}

proof fn lemma_flat_discharge(
    snips: Map<(Seq<char>, Seq<char>), SnippetView>,
    lang: Seq<char>,
    toks: Seq<ComponentTypeView>,
    idx: int,
    count: int,
    fuel: nat,
)
    requires
        0 <= count <= idx <= toks.len(),
        toks.len() < i32::MAX,
        forall|i: int| 0 <= i < toks.len() ==> !(#[trigger] toks[i] is Snippet),
    ensures
        spec_discharge(snips, lang, toks, idx, 0, count, fuel) is Some,
        spec_discharge(snips, lang, toks, idx, 0, count, fuel)->Some_0.0.len() == toks.len() - idx,
        forall|i: int| 0 <= i < toks.len() - idx
            ==> #[trigger] spec_discharge(snips, lang, toks, idx, 0, count, fuel)->Some_0.0[i] == flat_piece(toks[idx + i]),
    decreases toks.len() - idx,
{
    if idx < toks.len() {
        let t = toks[idx];
        assert(!(t is Snippet));
        let next = if t is Tabstop || (t is ReadyComponent && t->ReadyComponent_0 is Tabstop) { count + 1 } else { count };
        lemma_flat_discharge(snips, lang, toks, idx + 1, next, fuel);
        let rest = spec_discharge(snips, lang, toks, idx + 1, 0, next, fuel)->Some_0.0;
        match t {
            ComponentTypeView::Tabstop(n, args) => {
                assert(i32::MIN <= u32_as_i32(n as int) <= i32::MAX);
                assert(wrapped_view(args) =~= args.map_values(|a: ComponentView| Some(a)));
            },
            _ => {},
        }
        let out = spec_discharge(snips, lang, toks, idx, 0, count, fuel)->Some_0.0;
        assert(out == seq![flat_piece(t)] + rest);
        assert forall|i: int| 0 <= i < toks.len() - idx implies #[trigger] out[i] == flat_piece(toks[idx + i]) by {
            if i > 0 {
                assert(out[i] == rest[i - 1]);
                assert(idx + 1 + (i - 1) == idx + i);
            }
        }
    }
}

/// Law: expanding a stored snippet whose body names no other snippet keeps
/// every piece of the body in its place: text and variables (with their
/// transforms) exactly as read, a plain tabstop with its number, and a
/// placeholder as a tabstop whose content is each of its default components
/// (each alternative of a choice), in order.
pub proof fn law_flat_expansion_keeps_pieces(
    snips: Map<(Seq<char>, Seq<char>), SnippetView>,
    lang: Seq<char>,
    name: Seq<char>,
)
    requires
        snips.contains_key((lang, name)),
        body_tokens(snips[(lang, name)].body).len() < i32::MAX,
        forall|i: int| 0 <= i < body_tokens(snips[(lang, name)].body).len()
            ==> !(#[trigger] body_tokens(snips[(lang, name)].body)[i] is Snippet),
    ensures
        spec_fire(snips, lang, name) is Some,
        spec_fire(snips, lang, name)->Some_0.len() == body_tokens(snips[(lang, name)].body).len(),
        forall|i: int| 0 <= i < body_tokens(snips[(lang, name)].body).len() ==> #[trigger] spec_fire(snips, lang, name)->Some_0[i]
            == Some(match body_tokens(snips[(lang, name)].body)[i] {
                ComponentTypeView::ReadyComponent(c) => c,
                ComponentTypeView::Tabstop(n, args) => ComponentView::Tabstop(
                    u32_as_i32(n as int) as i32,
                    args.map_values(|a: ComponentView| Some(a)),
                ),
                ComponentTypeView::Snippet(_) => ComponentView::Text(Seq::empty()),
            }),
{
    let toks = body_tokens(snips[(lang, name)].body);
    let fuel = expansion_depth(snips);
    assert(fuel >= 1);
    lemma_flat_discharge(snips, lang, toks, 0, 0, (fuel - 1) as nat);
    let out = spec_discharge(snips, lang, toks, 0, 0, 0, (fuel - 1) as nat)->Some_0.0;
    assert forall|i: int| 0 <= i < toks.len() implies #[trigger] spec_fire(snips, lang, name)->Some_0[i] == Some(flat_piece(toks[i])) by {
        assert(out[i] == flat_piece(toks[0 + i]));
    }
}

/// The snippet a key holds after a file's snippets were added: the last one of
/// that name in the file.
pub(crate) proof fn lemma_with_snippets_last(
    m: Map<(Seq<char>, Seq<char>), SnippetView>,
    lang: Seq<char>,
    e: Seq<(Seq<char>, SnippetView)>,
    n: Seq<char>,
)
    requires
        entry_names(e).contains(n),
    ensures
        exists|j: int| 0 <= j < e.len() && (#[trigger] e[j]).0 == n && with_snippets(m, lang, e)[(lang, n)] == e[j].1,
    decreases e.len(),
{
    let ep = e.drop_last();
    if e.last().0 == n {
        assert(e[e.len() - 1].0 == n);
    } else {
        let q = choose|q: int| 0 <= q < entry_names(e).len() && entry_names(e)[q] == n;
        assert(q < e.len() - 1);
        assert(entry_names(ep)[q] == n);
        lemma_with_snippets_last(m, lang, ep, n);
        let j = choose|j: int| 0 <= j < ep.len() && (#[trigger] ep[j]).0 == n && with_snippets(m, lang, ep)[(lang, n)] == ep[j].1;
        assert(e[j] == ep[j]);
    }
}

/// Whether a piece of a body is a tabstop (a plain one or a placeholder).
pub open spec fn is_tab_piece(t: ComponentTypeView) -> bool {
    t is Tabstop || (t is ReadyComponent && t->ReadyComponent_0 is Tabstop)
}

/// The number a tabstop piece carries, as an `i32` value.
pub open spec fn tab_piece_number(t: ComponentTypeView) -> int {
    match t {
        ComponentTypeView::ReadyComponent(ComponentView::Tabstop(n, _)) => n as int,
        ComponentTypeView::Tabstop(n, _) => u32_as_i32(n as int),
        _ => 0,
    }
}

/// How many tabstop pieces a run of pieces holds.
pub open spec fn tab_pieces(toks: Seq<ComponentTypeView>) -> int
    decreases toks.len(),
{
    if toks.len() == 0 {
        0
    } else {
        (if is_tab_piece(toks[0]) { 1int } else { 0int }) + tab_pieces(toks.drop_first())
    }
}

/// A piece as sent with its tabstop number raised by `o`: text and variables
/// as they are, a plain tabstop with its content, a placeholder with each of
/// its default components.
pub open spec fn raised_piece(t: ComponentTypeView, o: int) -> ComponentView {
    match t {
        ComponentTypeView::ReadyComponent(c) => match c {
            ComponentView::Tabstop(n, a) => ComponentView::Tabstop((n + o) as i32, a),
            _ => c,
        },
        ComponentTypeView::Tabstop(n, args) => ComponentView::Tabstop(
            (u32_as_i32(n as int) + o) as i32,
            args.map_values(|a: ComponentView| Some(a)),
        ),
        ComponentTypeView::Snippet(_) => ComponentView::Text(Seq::empty()),
    }
}

proof fn lemma_tab_pieces_bound(toks: Seq<ComponentTypeView>)
    ensures
        0 <= tab_pieces(toks) <= toks.len(),
    decreases toks.len(),
{
    if toks.len() > 0 {
        lemma_tab_pieces_bound(toks.drop_first());
    }
}

proof fn lemma_flat_run(
    snips: Map<(Seq<char>, Seq<char>), SnippetView>,
    lang: Seq<char>,
    toks: Seq<ComponentTypeView>,
    idx: int,
    j: int,
    o: int,
    c: int,
    fuel: nat,
)
    requires
        0 <= idx <= j <= toks.len(),
        0 <= c,
        c + (j - idx) <= i32::MAX,
        fits_i32(o),
        forall|i: int| idx <= i < j ==> !(#[trigger] toks[i] is Snippet),
        forall|i: int| idx <= i < j && is_tab_piece(#[trigger] toks[i]) ==> fits_i32(tab_piece_number(toks[i]) + o),
    ensures
        spec_discharge(snips, lang, toks, idx, o, c, fuel) == prepend(
            Seq::new((j - idx) as nat, |i: int| raised_piece(toks[idx + i], o)),
            spec_discharge(snips, lang, toks, j, o, c + tab_pieces(toks.subrange(idx, j)), fuel),
        ),
    decreases j - idx,
{
    let pieces = Seq::new((j - idx) as nat, |i: int| raised_piece(toks[idx + i], o));
    if idx == j {
        assert(toks.subrange(idx, j).len() == 0);
        assert(pieces =~= Seq::<ComponentView>::empty());
        match spec_discharge(snips, lang, toks, j, o, c, fuel) {
            Some((a, b)) => { assert(pieces + a =~= a); },
            None => {},
        }
    } else {
        let t = toks[idx];
        let step = if is_tab_piece(t) { 1int } else { 0int };
        assert(toks.subrange(idx, j).drop_first() =~= toks.subrange(idx + 1, j));
        assert(toks.subrange(idx, j)[0] == t);
        lemma_tab_pieces_bound(toks.subrange(idx + 1, j));
        lemma_flat_run(snips, lang, toks, idx + 1, j, o, c + step, fuel);
        let tail = Seq::new((j - idx - 1) as nat, |i: int| raised_piece(toks[idx + 1 + i], o));
        assert(pieces =~= seq![raised_piece(t, o)] + tail);
        match t {
            ComponentTypeView::Tabstop(n, args) => {
                assert(wrapped_view(args) =~= args.map_values(|a: ComponentView| Some(a)));
            },
            _ => {},
        }
        match spec_discharge(snips, lang, toks, j, o, c + tab_pieces(toks.subrange(idx, j)), fuel) {
            Some((a, b)) => {
                assert(seq![raised_piece(t, o)] + (tail + a) =~= pieces + a);
            },
            None => {},
        }
    }
}

/// Law: expanding a snippet whose body ends by naming another stored snippet,
/// with no other names before it, sends the pieces before the name as they
/// are, then the pieces of the named snippet with every tabstop number raised
/// by the number of tabstops before the name: its tabstops come after them.
pub proof fn law_nested_expansion_renumbers(
    snips: Map<(Seq<char>, Seq<char>), SnippetView>,
    lang: Seq<char>,
    name: Seq<char>,
    sub: Seq<char>,
)
    requires
        snips.dom().finite(),
        snips.contains_key((lang, name)),
        snips.contains_key((lang, sub)),
        name != sub,
        body_tokens(snips[(lang, name)].body).len() >= 1,
        body_tokens(snips[(lang, name)].body).len() < i32::MAX,
        body_tokens(snips[(lang, sub)].body).len() < i32::MAX,
        body_tokens(snips[(lang, name)].body).last() == ComponentTypeView::Snippet(sub),
        forall|i: int| 0 <= i < body_tokens(snips[(lang, name)].body).len() - 1
            ==> !(#[trigger] body_tokens(snips[(lang, name)].body)[i] is Snippet),
        forall|i: int| 0 <= i < body_tokens(snips[(lang, sub)].body).len()
            ==> !(#[trigger] body_tokens(snips[(lang, sub)].body)[i] is Snippet),
        forall|i: int| 0 <= i < body_tokens(snips[(lang, sub)].body).len()
            && is_tab_piece(#[trigger] body_tokens(snips[(lang, sub)].body)[i])
            ==> fits_i32(tab_piece_number(body_tokens(snips[(lang, sub)].body)[i])
                + tab_pieces(body_tokens(snips[(lang, name)].body).drop_last())),
        fits_i32(tab_pieces(body_tokens(snips[(lang, name)].body).drop_last()) + tab_pieces(body_tokens(snips[(lang, sub)].body))),
    ensures
        ({
            let ts = body_tokens(snips[(lang, name)].body);
            let tv = body_tokens(snips[(lang, sub)].body);
            let k = tab_pieces(ts.drop_last());
            &&& spec_fire(snips, lang, name) is Some
            &&& spec_fire(snips, lang, name)->Some_0.len() == ts.len() - 1 + tv.len()
            &&& forall|i: int| 0 <= i < ts.len() - 1 ==> #[trigger] spec_fire(snips, lang, name)->Some_0[i] == Some(raised_piece(ts[i], 0))
            &&& forall|i: int| 0 <= i < tv.len() ==> #[trigger] spec_fire(snips, lang, name)->Some_0[ts.len() - 1 + i]
                == Some(raised_piece(tv[i], k))
        }),
{
    let ts = body_tokens(snips[(lang, name)].body);
    let tv = body_tokens(snips[(lang, sub)].body);
    let pre = ts.drop_last();
    let kk = ts.len() - 1;
    let k = tab_pieces(pre);
    assert(ts.subrange(0, kk) =~= pre);
    lemma_tab_pieces_bound(pre);
    lemma_tab_pieces_bound(tv);
    // the store holds at least the two snippets
    let d = snips.dom();
    assert(d.remove((lang, name)).contains((lang, sub)));
    assert(d.remove((lang, name)).len() == d.len() - 1);
    assert(d.remove((lang, name)).remove((lang, sub)).len() == d.remove((lang, name)).len() - 1);
    let fuel = expansion_depth(snips);
    assert(fuel >= 2);
    let f = (fuel - 1) as nat;
    assert forall|i: int| 0 <= i < kk && is_tab_piece(#[trigger] ts[i]) implies fits_i32(tab_piece_number(ts[i]) + 0) by {
        match ts[i] {
            ComponentTypeView::Tabstop(n, _) => { assert(i32::MIN <= u32_as_i32(n as int) <= i32::MAX); },
            _ => {},
        }
    }
    lemma_flat_run(snips, lang, ts, 0, kk, 0, 0, f);
    lemma_flat_run(snips, lang, tv, 0, tv.len() as int, k, 0, (f - 1) as nat);
    assert(tv.subrange(0, tv.len() as int) =~= tv);
    let pv = Seq::new(tv.len(), |i: int| raised_piece(tv[0 + i], k));
    let pp = Seq::new(kk as nat, |i: int| raised_piece(ts[0 + i], 0));
    assert(spec_discharge(snips, lang, tv, tv.len() as int, k, tab_pieces(tv), (f - 1) as nat) == Some((Seq::<ComponentView>::empty(), k + tab_pieces(tv))));
    assert(pv + Seq::<ComponentView>::empty() =~= pv);
    assert(spec_chamber(snips, lang, sub, k, f) == Some((pv, k + tab_pieces(tv))));
    let next = if k + tab_pieces(tv) != k { k + tab_pieces(tv) - k } else { 0 };
    assert(spec_discharge(snips, lang, ts, kk + 1, next, k, f) == Some((Seq::<ComponentView>::empty(), next + k)));
    assert(pv + Seq::<ComponentView>::empty() =~= pv);
    assert(spec_discharge(snips, lang, ts, kk, 0, k, f) == Some((pv, next + k)));
    let out = pp + pv;
    assert(spec_discharge(snips, lang, ts, 0, 0, 0, f) == Some((out, next + k)));
    assert(spec_fire(snips, lang, name) == Some(wrapped_view(out)));
    assert forall|i: int| 0 <= i < ts.len() - 1 implies #[trigger] spec_fire(snips, lang, name)->Some_0[i] == Some(raised_piece(ts[i], 0)) by {
        assert(out[i] == pp[i]);
    }
    assert forall|i: int| 0 <= i < tv.len() implies #[trigger] spec_fire(snips, lang, name)->Some_0[ts.len() - 1 + i]
        == Some(raised_piece(tv[i], k)) by {
        assert(out[kk + i] == pv[i]);
    }
}
} // verus!
