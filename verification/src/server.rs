use vstd::prelude::*;
use dashmap::DashMap;
use crate::config::{SniperConfig, SniperConfigView};
use crate::proto::{SnippetInfo, SnippetComponent, snippet_components_view};
use crate::snippet::{Loader, SnippetView, SnippetSetView, lemma_snippet_set_contents};
use crate::snippet_manager::{
    SnippetManager, SnippetManagerView, key_view, spec_fire, set_keys,
    loader_entries, entry_names, entry_triggers, with_snippets, with_triggers, spec_set_triggers, pairs_view,
    set_trigger_pairs, sets_stored, unload_keys, listed_elsewhere,
    lemma_with_snippets_dom, lemma_with_triggers, lemma_with_snippets_last, trigger_of,
};
use crate::target::{TargetData, TargetDataView, is_completion_listing, infos_view};

verus! {

broadcast use lemma_snippet_set_contents;

/// The tracked targets, by (session id, uri).
pub uninterp spec fn stored_targets(m: DashMap<(String, String), TargetData>) -> Map<(Seq<char>, Seq<char>), TargetDataView>;

/// `DashMap::new` for targets: none tracked.
#[verifier::external_body]
fn targets_new() -> (r: DashMap<(String, String), TargetData>)
    ensures
        stored_targets(r).dom().is_empty(),
{
    DashMap::new()
}

/// `DashMap::insert` for targets.
#[verifier::external_body]
fn targets_insert(m: &mut DashMap<(String, String), TargetData>, key: (String, String), value: TargetData)
    ensures
        stored_targets(*final(m)) == stored_targets(*old(m)).insert(key_view(key), value@),
{
    m.insert(key, value);
}

/// `DashMap::remove` for targets: the target the key held, which it holds no more.
#[verifier::external_body]
fn targets_remove(m: &mut DashMap<(String, String), TargetData>, key: &(String, String)) -> (r: Option<TargetData>)
    ensures
        stored_targets(*final(m)) == stored_targets(*old(m)).remove(key_view(*key)),
        match r {
            Some(v) => stored_targets(*old(m)).contains_key(key_view(*key)) && v@ == stored_targets(*old(m))[key_view(*key)],
            None => !stored_targets(*old(m)).contains_key(key_view(*key)),
        },
{
    m.remove(key).map(|(_, v)| v)
}

/// `DashMap::contains_key` for targets.
#[verifier::external_body]
fn targets_contains(m: &DashMap<(String, String), TargetData>, key: &(String, String)) -> (r: bool)
    ensures
        r == stored_targets(*m).contains_key(key_view(*key)),
{
    m.contains_key(key)
}

/// `DashMap::get` for targets, picking the target's language.
#[verifier::external_body]
fn targets_language(m: &DashMap<(String, String), TargetData>, key: &(String, String)) -> (r: Option<String>)
    ensures
        match r {
            Some(l) => stored_targets(*m).contains_key(key_view(*key)) && l@ == stored_targets(*m)[key_view(*key)].language,
            None => !stored_targets(*m).contains_key(key_view(*key)),
        },
{
    m.get(key).map(|e| e.value().language.clone())
}

/// `DashMap::view` for targets, asking the target for the completions of an input.
#[verifier::external_body]
fn targets_completions(m: &DashMap<(String, String), TargetData>, key: &(String, String), input: &Vec<u8>) -> (r: Option<Vec<SnippetInfo>>)
    ensures
        match r {
            Some(v) => stored_targets(*m).contains_key(key_view(*key))
                && exists|keys: Seq<Seq<u8>>| is_completion_listing(stored_targets(*m)[key_view(*key)].triggers, input@, keys, infos_view(v@)),
            None => !stored_targets(*m).contains_key(key_view(*key)),
        },
{
    m.view(key, |_, t| t.completions(input))
}

/// `DashMap::is_empty` for targets.
#[verifier::external_body]
fn targets_is_empty(m: &DashMap<(String, String), TargetData>) -> (r: bool)
    ensures
        r == stored_targets(*m).dom().is_empty(),
{
    m.is_empty()
}

/// The server state: the configuration, the tracked targets and the snippets.
pub struct Sniper {
    pub config: SniperConfig,
    pub targets: DashMap<(String, String), TargetData>,
    pub snippet_manager: SnippetManager,
}

pub struct SniperView {
    pub config: SniperConfigView,
    pub targets: Map<(Seq<char>, Seq<char>), TargetDataView>,
    pub manager: SnippetManagerView,
}

impl View for Sniper {
    type V = SniperView;

    open spec fn view(&self) -> SniperView {
        SniperView { config: self.config@, targets: stored_targets(self.targets), manager: self.snippet_manager@ }
    }
}

/// The tracked targets of a language that loaded a snippet set.
pub open spec fn requiring_targets(
    targets: Map<(Seq<char>, Seq<char>), TargetDataView>,
    lang: Seq<char>,
    set: Seq<char>,
) -> Set<(Seq<char>, Seq<char>)> {
    targets.dom().filter(|k: (Seq<char>, Seq<char>)| targets[k].language == lang && targets[k].loaded.contains(set))
}

/// What holds of the server between requests: every snippet set in play
/// counts exactly the tracked targets that require it, and there is at least
/// one; every set a tracked target loaded is in play; every snippet a set in
/// play lists is stored.
pub open spec fn server_wf(s: SniperView) -> bool {
    &&& sets_stored(s.manager)
    &&& s.targets.dom().finite()
    &&& s.manager.sets.dom().finite()
    &&& s.manager.snippets.dom().finite()
    &&& forall|k: (Seq<char>, Seq<char>)| #[trigger] s.manager.sets.contains_key(k) ==> {
        &&& s.manager.sets[k].target_counter == requiring_targets(s.targets, k.0, k.1).len()
        &&& s.manager.sets[k].target_counter >= 1
    }
    &&& forall|t: (Seq<char>, Seq<char>), set: Seq<char>| #[trigger] s.targets.contains_key(t) && #[trigger] s.targets[t].loaded.contains(set)
        ==> s.manager.sets.contains_key((s.targets[t].language, set))
}

impl Sniper {
    pub open spec fn wf(&self) -> bool {
        server_wf(self@)
    }

    pub fn new(config: SniperConfig) -> (r: Self)
        ensures
            r.wf(),
            r@.config == config@,
            r@.targets.dom().is_empty(),
            r@.manager.snippets.dom().is_empty(),
            r@.manager.sets.dom().is_empty(),
    {
        let r = Self { config, targets: targets_new(), snippet_manager: SnippetManager::new() };
        proof {
            assert(r@.targets.dom() =~= Set::empty());
            assert(r@.manager.sets.dom() =~= Set::empty());
            assert(r@.manager.snippets.dom() =~= Set::empty());
        }
        r
    }

    /// The language of a tracked target.
    pub fn target_language(&self, session_id: &String, uri: &String) -> (r: Option<String>)
        ensures
            match r {
                Some(l) => self@.targets.contains_key((session_id@, uri@)) && l@ == self@.targets[(session_id@, uri@)].language,
                None => !self@.targets.contains_key((session_id@, uri@)),
            },
    {
        targets_language(&self.targets, &(session_id.clone(), uri.clone()))
    }

    /// The base snippet sets that a request to track this target would load
    /// from their files: for a target not yet tracked, of a language the
    /// configuration knows, the base sets of the language not in play.
    pub fn sets_to_load(&self, session_id: &String, uri: &String, language: &String) -> (r: Vec<String>)
        ensures
            self@.targets.contains_key((session_id@, uri@)) || !self@.config.languages.contains_key(language@) ==> r@.len() == 0,
            forall|i: int| 0 <= i < r@.len() ==> self@.config.languages[language@].base_snippets.contains(#[trigger] r@[i]@)
                && !self@.manager.sets.contains_key((language@, r@[i]@)),
            !self@.targets.contains_key((session_id@, uri@)) && self@.config.languages.contains_key(language@) ==>
                forall|x: Seq<char>| #[trigger] self@.config.languages[language@].base_snippets.contains(x)
                    && !self@.manager.sets.contains_key((language@, x)) ==> exists|i: int| 0 <= i < r@.len() && #[trigger] r@[i]@ == x,
    {
        let mut r: Vec<String> = Vec::new();
        if targets_contains(&self.targets, &(session_id.clone(), uri.clone())) {
            return r;
        }
        let base = match self.config.base_snippets(language.as_str()) {
            Some(b) => b,
            None => return r,
        };
        let ghost bv = crate::snippet::strings_view(base@);
        for i in 0..base.len()
            invariant
                bv == crate::snippet::strings_view(base@),
                bv == self@.config.languages[language@].base_snippets,
                forall|j: int| 0 <= j < r@.len() ==> bv.contains(#[trigger] r@[j]@) && !self@.manager.sets.contains_key((language@, r@[j]@)),
                forall|q: int| 0 <= q < i && !self@.manager.sets.contains_key((language@, #[trigger] bv[q]))
                    ==> exists|j: int| 0 <= j < r@.len() && #[trigger] r@[j]@ == bv[q],
        {
            if !crate::snippet_manager::sets_contains(&self.snippet_manager.snippet_sets, &(language.clone(), base[i].clone())) {
                let ghost r0 = r@;
                r.push(base[i].clone());
                proof {
                    assert(bv[i as int] == base@[i as int]@);
                    assert(r@[r0.len() as int]@ == bv[i as int]);
                    assert forall|q: int| 0 <= q < i + 1 && !self@.manager.sets.contains_key((language@, #[trigger] bv[q]))
                        implies exists|j: int| 0 <= j < r@.len() && #[trigger] r@[j]@ == bv[q] by {
                        if q < i {
                            let j = choose|j: int| 0 <= j < r0.len() && #[trigger] r0[j]@ == bv[q];
                            assert(r@[j] == r0[j]);
                        } else {
                            assert(r@[r0.len() as int]@ == bv[q]);
                        }
                    }
                }
            }
        }
        proof {
            assert forall|x: Seq<char>| #[trigger] bv.contains(x) && !self@.manager.sets.contains_key((language@, x))
                implies exists|i: int| 0 <= i < r@.len() && #[trigger] r@[i]@ == x by {
                let q = choose|q: int| 0 <= q < bv.len() && bv[q] == x;
                assert(!self@.manager.sets.contains_key((language@, bv[q])));
            }
        }
        r
    }

    /// Whether no target is tracked.
    pub fn no_targets(&self) -> (r: bool)
        ensures
            r == self@.targets.dom().is_empty(),
    {
        targets_is_empty(&self.targets)
    }

    /// The snippets whose trigger starts with the input, for a tracked target;
    /// nothing for a target that is not tracked.
    pub fn get_completions(&self, session_id: String, uri: String, input: Vec<u8>) -> (r: Vec<SnippetInfo>)
        ensures
            self@.targets.contains_key((session_id@, uri@)) ==> exists|keys: Seq<Seq<u8>>|
                is_completion_listing(self@.targets[(session_id@, uri@)].triggers, input@, keys, infos_view(r@)),
            !self@.targets.contains_key((session_id@, uri@)) ==> r@.len() == 0,
    {
        match targets_completions(&self.targets, &(session_id, uri), &input) {
            Some(v) => v,
            None => Vec::new(),
        }
    }

    /// The components of a snippet, for a tracked target, expanded in the
    /// target's language; `None` for a name not in the store, so that a client
    /// can tell a missing snippet from an empty one.
    pub fn get_snippet(&self, session_id: String, uri: String, snippet_name: String) -> (r: Option<Vec<SnippetComponent>>)
        requires
            self@.targets.contains_key((session_id@, uri@)),
        ensures
            match spec_fire(self@.manager.snippets, self@.targets[(session_id@, uri@)].language, snippet_name@) {
                Some(v) => r is Some && snippet_components_view(r->0@) == v,
                None => r is None,
            },
    {
        let language = targets_language(&self.targets, &(session_id, uri)).unwrap();
        self.snippet_manager.fire(language, snippet_name)
    }
}


/// The sets that dropping a target of language `lang` that loaded the sets
/// named in `names` takes out of play: those only it required.
pub open spec fn dropped_sets(
    sets: Map<(Seq<char>, Seq<char>), SnippetSetView>,
    lang: Seq<char>,
    names: Set<Seq<char>>,
) -> Set<(Seq<char>, Seq<char>)> {
    Set::new(|k: (Seq<char>, Seq<char>)| sets.contains_key(k) && k.0 == lang && names.contains(k.1) && sets[k].target_counter <= 1)
}

/// The snippet sets after such a drop: the dropped ones gone, the other
/// ones the target loaded counting one target less.
pub open spec fn sets_after_drop(
    sets: Map<(Seq<char>, Seq<char>), SnippetSetView>,
    lang: Seq<char>,
    names: Set<Seq<char>>,
) -> Map<(Seq<char>, Seq<char>), SnippetSetView> {
    Map::new(
        |k: (Seq<char>, Seq<char>)| sets.contains_key(k) && !dropped_sets(sets, lang, names).contains(k),
        |k: (Seq<char>, Seq<char>)| if k.0 == lang && names.contains(k.1) {
            SnippetSetView { target_counter: sets[k].target_counter - 1, ..sets[k] }
        } else {
            sets[k]
        },
    )
}

/// Some set of the language that stays in play after the drop lists the name.
pub open spec fn listed_after_drop(
    sets: Map<(Seq<char>, Seq<char>), SnippetSetView>,
    lang: Seq<char>,
    names: Set<Seq<char>>,
    x: Seq<char>,
) -> bool {
    exists|s: Seq<char>| #[trigger] sets_after_drop(sets, lang, names).contains_key((lang, s)) && sets[(lang, s)].contents.contains(x)
}

/// Some dropped set lists the name.
pub open spec fn listed_by_dropped(
    sets: Map<(Seq<char>, Seq<char>), SnippetSetView>,
    lang: Seq<char>,
    names: Set<Seq<char>>,
    x: Seq<char>,
) -> bool {
    exists|s: Seq<char>| #[trigger] dropped_sets(sets, lang, names).contains((lang, s)) && sets[(lang, s)].contents.contains(x)
}

/// The keys of the snippets that the dropped sets list and no set that stays
/// in play lists: those the drop takes out of the store.
pub open spec fn dropped_snippet_keys(
    sets: Map<(Seq<char>, Seq<char>), SnippetSetView>,
    lang: Seq<char>,
    names: Set<Seq<char>>,
) -> Set<(Seq<char>, Seq<char>)> {
    Set::new(|k: (Seq<char>, Seq<char>)| k.0 == lang && listed_by_dropped(sets, lang, names, k.1)
        && !listed_after_drop(sets, lang, names, k.1))
}

proof fn lemma_drop_step(
    sets: Map<(Seq<char>, Seq<char>), SnippetSetView>,
    snippets: Map<(Seq<char>, Seq<char>), crate::snippet::SnippetView>,
    lang: Seq<char>,
    done: Set<Seq<char>>,
    n: Seq<char>,
)
    requires
        sets.contains_key((lang, n)),
        !done.contains(n),
    ensures
        sets_after_drop(sets, lang, done).contains_key((lang, n)),
        sets_after_drop(sets, lang, done)[(lang, n)] == sets[(lang, n)],
        sets[(lang, n)].target_counter <= 1 ==> {
            &&& sets_after_drop(sets, lang, done.insert(n)) == sets_after_drop(sets, lang, done).remove((lang, n))
            &&& snippets.remove_keys(dropped_snippet_keys(sets, lang, done.insert(n)))
                == snippets.remove_keys(dropped_snippet_keys(sets, lang, done)).remove_keys(
                    unload_keys(sets_after_drop(sets, lang, done), lang, n, sets[(lang, n)].contents),
                )
        },
        sets[(lang, n)].target_counter > 1 ==> {
            &&& sets_after_drop(sets, lang, done.insert(n)) == sets_after_drop(sets, lang, done).insert(
                (lang, n),
                SnippetSetView { target_counter: sets[(lang, n)].target_counter - 1, ..sets[(lang, n)] },
            )
            &&& dropped_snippet_keys(sets, lang, done.insert(n)) == dropped_snippet_keys(sets, lang, done)
        },
{
    let d0 = dropped_sets(sets, lang, done);
    let d1 = dropped_sets(sets, lang, done.insert(n));
    let cur = sets_after_drop(sets, lang, done);
    let nxt = sets_after_drop(sets, lang, done.insert(n));
    let nc = sets[(lang, n)].contents;
    if sets[(lang, n)].target_counter <= 1 {
        assert(d1 =~= d0.insert((lang, n)));
        assert(nxt =~= cur.remove((lang, n)));
        let u = unload_keys(cur, lang, n, nc);
        let k0 = dropped_snippet_keys(sets, lang, done);
        let k1 = dropped_snippet_keys(sets, lang, done.insert(n));
        assert forall|x: Seq<char>| listed_after_drop(sets, lang, done.insert(n), x) <==> listed_elsewhere(cur, lang, n, x) by {
            if listed_after_drop(sets, lang, done.insert(n), x) {
                let s2 = choose|s2: Seq<char>| #[trigger] nxt.contains_key((lang, s2)) && sets[(lang, s2)].contents.contains(x);
                assert(cur[(lang, s2)].contents == sets[(lang, s2)].contents);
            }
            if listed_elsewhere(cur, lang, n, x) {
                let s2 = choose|s2: Seq<char>| s2 != n && cur.contains_key((lang, s2)) && #[trigger] cur[(lang, s2)].contents.contains(x);
                assert(nxt.contains_key((lang, s2)));
            }
        }
        assert forall|x: Seq<char>| listed_after_drop(sets, lang, done, x) <==> (listed_elsewhere(cur, lang, n, x) || nc.contains(x)) by {
            if listed_after_drop(sets, lang, done, x) {
                let s2 = choose|s2: Seq<char>| #[trigger] cur.contains_key((lang, s2)) && sets[(lang, s2)].contents.contains(x);
                if s2 != n {
                    assert(cur[(lang, s2)].contents == sets[(lang, s2)].contents);
                }
            }
            if listed_elsewhere(cur, lang, n, x) {
                let s2 = choose|s2: Seq<char>| s2 != n && cur.contains_key((lang, s2)) && #[trigger] cur[(lang, s2)].contents.contains(x);
                assert(cur.contains_key((lang, s2)));
            }
            if nc.contains(x) {
                assert(cur.contains_key((lang, n)));
            }
        }
        assert forall|x: Seq<char>| listed_by_dropped(sets, lang, done.insert(n), x) <==> (listed_by_dropped(sets, lang, done, x) || nc.contains(x)) by {
            if listed_by_dropped(sets, lang, done.insert(n), x) {
                let s2 = choose|s2: Seq<char>| #[trigger] d1.contains((lang, s2)) && sets[(lang, s2)].contents.contains(x);
                if s2 != n {
                    assert(d0.contains((lang, s2)));
                }
            }
            if listed_by_dropped(sets, lang, done, x) {
                let s2 = choose|s2: Seq<char>| #[trigger] d0.contains((lang, s2)) && sets[(lang, s2)].contents.contains(x);
                assert(d1.contains((lang, s2)));
            }
            if nc.contains(x) {
                assert(d1.contains((lang, n)));
            }
        }
        assert forall|k: (Seq<char>, Seq<char>)| #[trigger] k1.contains(k) <==> (k0.contains(k) || u.contains(k)) by {
            let x = k.1;
            assert(listed_after_drop(sets, lang, done.insert(n), x) <==> listed_elsewhere(cur, lang, n, x));
            assert(listed_after_drop(sets, lang, done, x) <==> (listed_elsewhere(cur, lang, n, x) || nc.contains(x)));
            assert(listed_by_dropped(sets, lang, done.insert(n), x) <==> (listed_by_dropped(sets, lang, done, x) || nc.contains(x)));
        }
        assert(snippets.remove_keys(k1) =~= snippets.remove_keys(k0).remove_keys(u));
    } else {
        assert(d1 =~= d0);
        let c1 = SnippetSetView { target_counter: sets[(lang, n)].target_counter - 1, ..sets[(lang, n)] };
        assert(nxt =~= cur.insert((lang, n), c1));
        assert forall|x: Seq<char>| listed_after_drop(sets, lang, done.insert(n), x) <==> listed_after_drop(sets, lang, done, x) by {
            if listed_after_drop(sets, lang, done.insert(n), x) {
                let s2 = choose|s2: Seq<char>| #[trigger] nxt.contains_key((lang, s2)) && sets[(lang, s2)].contents.contains(x);
                assert(cur.contains_key((lang, s2)));
            }
            if listed_after_drop(sets, lang, done, x) {
                let s2 = choose|s2: Seq<char>| #[trigger] cur.contains_key((lang, s2)) && sets[(lang, s2)].contents.contains(x);
                assert(nxt.contains_key((lang, s2)));
            }
        }
        assert forall|x: Seq<char>| listed_by_dropped(sets, lang, done.insert(n), x) <==> listed_by_dropped(sets, lang, done, x) by {
            if listed_by_dropped(sets, lang, done.insert(n), x) {
                let s2 = choose|s2: Seq<char>| #[trigger] d1.contains((lang, s2)) && sets[(lang, s2)].contents.contains(x);
                assert(d0.contains((lang, s2)));
            }
            if listed_by_dropped(sets, lang, done, x) {
                let s2 = choose|s2: Seq<char>| #[trigger] d0.contains((lang, s2)) && sets[(lang, s2)].contents.contains(x);
                assert(d1.contains((lang, s2)));
            }
        }
        assert(dropped_snippet_keys(sets, lang, done.insert(n)) =~= dropped_snippet_keys(sets, lang, done));
    }
}


proof fn lemma_drop_keeps_wf(s0: SniperView, s1: SniperView, kt: (Seq<char>, Seq<char>), lang: Seq<char>)
    requires
        server_wf(s0),
        s0.targets.contains_key(kt),
        s0.targets[kt].language == lang,
        s1.targets == s0.targets.remove(kt),
        s1.manager.sets == sets_after_drop(s0.manager.sets, lang, s0.targets[kt].loaded),
        s1.manager.snippets == s0.manager.snippets.remove_keys(dropped_snippet_keys(s0.manager.sets, lang, s0.targets[kt].loaded)),
    ensures
        server_wf(s1),
{
    let loaded = s0.targets[kt].loaded;
    let sets0 = s0.manager.sets;
    assert(s1.manager.sets.dom().subset_of(sets0.dom()));
    vstd::set_lib::lemma_set_subset_finite(sets0.dom(), s1.manager.sets.dom());
    assert(s1.manager.snippets.dom().subset_of(s0.manager.snippets.dom()));
    vstd::set_lib::lemma_set_subset_finite(s0.manager.snippets.dom(), s1.manager.snippets.dom());
    assert forall|k: (Seq<char>, Seq<char>)| #[trigger] s1.manager.sets.contains_key(k) implies {
        &&& s1.manager.sets[k].target_counter == requiring_targets(s1.targets, k.0, k.1).len()
        &&& s1.manager.sets[k].target_counter >= 1
    } by {
        let r0 = requiring_targets(s0.targets, k.0, k.1);
        let r1 = requiring_targets(s1.targets, k.0, k.1);
        assert(r1 =~= r0.remove(kt));
        assert(sets0.contains_key(k));
        if k.0 == lang && loaded.contains(k.1) {
            assert(r0.contains(kt));
            assert(!dropped_sets(sets0, lang, loaded).contains(k));
        }
    }
    assert forall|t: (Seq<char>, Seq<char>), set: Seq<char>| #[trigger] s1.targets.contains_key(t) && #[trigger] s1.targets[t].loaded.contains(set)
        implies s1.manager.sets.contains_key((s1.targets[t].language, set)) by {
        let k = (s1.targets[t].language, set);
        assert(s0.targets.contains_key(t) && s0.targets[t].loaded.contains(set));
        assert(sets0.contains_key(k));
        if dropped_sets(sets0, lang, loaded).contains(k) {
            let r0 = requiring_targets(s0.targets, k.0, k.1);
            assert(r0.contains(kt));
            assert(r0.remove(kt).contains(t));
            assert(r0.remove(kt).len() >= 1);
            assert(false);
        }
    }
}

impl Sniper {
    /// Stops tracking a target; a snippet set that no other target requires
    /// is dropped together with the snippets it lists that no set still in
    /// play lists. The sets are those of the language the target was tracked
    /// with; the language named in the request is not consulted.
    pub fn drop_target(&mut self, session_id: String, uri: String, _language: String)
        requires
            old(self).wf(),
        ensures
            final(self).wf(),
            final(self)@.config == old(self)@.config,
            old(self)@.targets.contains_key((session_id@, uri@)) ==> {
                let t = old(self)@.targets[(session_id@, uri@)];
                &&& final(self)@.targets == old(self)@.targets.remove((session_id@, uri@))
                &&& final(self)@.manager.sets == sets_after_drop(old(self)@.manager.sets, t.language, t.loaded)
                &&& final(self)@.manager.snippets == old(self)@.manager.snippets.remove_keys(
                    dropped_snippet_keys(old(self)@.manager.sets, t.language, t.loaded),
                )
            },
            !old(self)@.targets.contains_key((session_id@, uri@)) ==> final(self)@ == old(self)@,
    {
        let key = (session_id, uri);
        let target = match targets_remove(&mut self.targets, &key) {
            Some(t) => t,
            None => {
                assert(self@.targets =~= old(self)@.targets);
                return;
            },
        };
        let language = target.language.clone();
        let ghost s0 = old(self)@;
        let ghost sets0 = s0.manager.sets;
        let ghost snippets0 = s0.manager.snippets;
        let ghost kt = key_view(key);
        let ghost loaded = target@.loaded;
        let names = target.loaded_list();
        let ghost nv = names@.map_values(|x: String| x@);
        proof {
            assert forall|a: int| 0 <= a < names@.len() implies sets0.contains_key((language@, #[trigger] names@[a]@)) by {
                assert(s0.targets.contains_key(kt) && s0.targets[kt].loaded.contains(names@[a]@));
            }
            assert(sets_after_drop(sets0, language@, Set::empty()) =~= sets0);
            assert(dropped_snippet_keys(sets0, language@, Set::empty()) =~= Set::empty());
            assert(snippets0.remove_keys(Set::empty()) =~= snippets0);
            assert(nv.take(0).to_set() =~= Set::empty());
        }
        for i in 0..names.len()
            invariant
                nv == names@.map_values(|x: String| x@),
                forall|a: int, b: int| 0 <= a < b < names@.len() ==> names@[a]@ != names@[b]@,
                forall|a: int| 0 <= a < names@.len() ==> loaded.contains(#[trigger] names@[a]@),
                forall|a: int| 0 <= a < names@.len() ==> sets0.contains_key((language@, #[trigger] names@[a]@)),
                self@.manager.sets == sets_after_drop(sets0, language@, nv.take(i as int).to_set()),
                self@.manager.snippets == snippets0.remove_keys(dropped_snippet_keys(sets0, language@, nv.take(i as int).to_set())),
                self@.targets == s0.targets.remove(kt),
                self@.config == s0.config,
        {
            let ghost done = nv.take(i as int).to_set();
            let ghost n = names@[i as int]@;
            proof {
                assert(nv.take(i + 1).to_set() =~= done.insert(n)) by {
                    let t1 = nv.take(i + 1);
                    let t0 = nv.take(i as int);
                    assert forall|x: Seq<char>| t1.to_set().contains(x) <==> done.insert(n).contains(x) by {
                        if t1.contains(x) {
                            let a = choose|a: int| 0 <= a < t1.len() && t1[a] == x;
                            if a < i {
                                assert(t0[a] == x);
                                assert(t0.contains(x));
                            }
                        }
                        if t0.contains(x) {
                            let a = choose|a: int| 0 <= a < t0.len() && t0[a] == x;
                            assert(t1[a] == x);
                        }
                        if x == n {
                            assert(t1[i as int] == x);
                        }
                    }
                }
                if done.contains(n) {
                    let a = choose|a: int| 0 <= a < i && #[trigger] nv.take(i as int)[a] == n;
                    assert(names@[a]@ == n);
                }
                lemma_drop_step(sets0, snippets0, language@, done, n);
            }
            let set_key = (language.clone(), names[i].clone());
            let mut set = crate::snippet_manager::sets_get(&self.snippet_manager.snippet_sets, &set_key).unwrap();
            if set.decrement_target_count() {
                self.snippet_manager.unload(&language, &names[i]);
            } else {
                crate::snippet_manager::sets_insert(&mut self.snippet_manager.snippet_sets, set_key, set);
            }
            proof {
                assert(self@.manager.sets =~= sets_after_drop(sets0, language@, nv.take(i + 1).to_set()));
                assert(self@.manager.snippets =~= snippets0.remove_keys(dropped_snippet_keys(sets0, language@, nv.take(i + 1).to_set())));
            }
        }
        proof {
            assert(nv.take(names@.len() as int).to_set() =~= loaded) by {
                assert(nv.take(names@.len() as int) =~= nv);
                assert forall|x: Seq<char>| loaded.contains(x) implies nv.to_set().contains(x) by {
                    let a = choose|a: int| 0 <= a < names@.len() && #[trigger] names@[a]@ == x;
                    assert(nv[a] == x);
                }
            }
            lemma_drop_keeps_wf(s0, self@, kt, language@);
        }
    }
}

/// Why a target could not be added.
#[derive(Clone, Copy, Debug, PartialEq, Eq, Structural)]
pub enum AddTargetError {
    /// A snippet set the language needs is not loaded and its file's contents were not given.
    MissingSnippetData,
    /// A snippet set already counts as many targets as its counter can hold.
    TooManyTargets,
}

/// The snippet files given for the sets that are not loaded yet: each set's
/// name with its snippets.
pub open spec fn fresh_view(v: Seq<(String, Loader)>) -> Seq<(Seq<char>, Seq<(Seq<char>, SnippetView)>)> {
    v.map_values(|p: (String, Loader)| (p.0@, loader_entries(p.1.snippets@)))
}

/// The snippets given for a set: those of the first file given under its name.
pub open spec fn find_entries(
    fresh: Seq<(Seq<char>, Seq<(Seq<char>, SnippetView)>)>,
    name: Seq<char>,
) -> Option<Seq<(Seq<char>, SnippetView)>>
    decreases fresh.len(),
{
    if fresh.len() == 0 {
        None
    } else if fresh[0].0 == name {
        Some(fresh[0].1)
    } else {
        find_entries(fresh.drop_first(), name)
    }
}

/// One base snippet set of the new target's language: a set not in play is
/// loaded from its file and counts the target; a set in play gives the target
/// its triggers and counts it, unless the target counts for it already.
pub open spec fn add_set_step(
    m: SnippetManagerView,
    td: TargetDataView,
    lang: Seq<char>,
    set: Seq<char>,
    fresh: Seq<(Seq<char>, Seq<(Seq<char>, SnippetView)>)>,
) -> Result<(SnippetManagerView, TargetDataView), AddTargetError> {
    if !m.sets.contains_key((lang, set)) {
        match find_entries(fresh, set) {
            None => Err(AddTargetError::MissingSnippetData),
            Some(e) => Ok(
                (
                    SnippetManagerView {
                        snippets: with_snippets(m.snippets, lang, e),
                        sets: m.sets.insert((lang, set), SnippetSetView { contents: entry_names(e), target_counter: 1 }),
                    },
                    TargetDataView {
                        loaded: td.loaded.insert(set),
                        triggers: with_triggers(td.triggers, entry_triggers(e)),
                        ..td
                    },
                ),
            ),
        }
    } else {
        let pairs = set_trigger_pairs(m, lang, set);
        if td.loaded.contains(set) {
            Ok((m, TargetDataView { triggers: with_triggers(td.triggers, pairs), ..td }))
        } else if m.sets[(lang, set)].target_counter < i32::MAX {
            Ok(
                (
                    SnippetManagerView {
                        sets: m.sets.insert(
                            (lang, set),
                            SnippetSetView { target_counter: m.sets[(lang, set)].target_counter + 1, ..m.sets[(lang, set)] },
                        ),
                        ..m
                    },
                    TargetDataView { loaded: td.loaded.insert(set), triggers: with_triggers(td.triggers, pairs), ..td },
                ),
            )
        } else {
            Err(AddTargetError::TooManyTargets)
        }
    }
}

/// The base snippet sets of the language, taken in order.
pub open spec fn add_sets(
    m: SnippetManagerView,
    td: TargetDataView,
    lang: Seq<char>,
    base: Seq<Seq<char>>,
    fresh: Seq<(Seq<char>, Seq<(Seq<char>, SnippetView)>)>,
) -> Result<(SnippetManagerView, TargetDataView), AddTargetError>
    decreases base.len(),
{
    if base.len() == 0 {
        Ok((m, td))
    } else {
        match add_sets(m, td, lang, base.drop_last(), fresh) {
            Err(e) => Err(e),
            Ok((m1, td1)) => add_set_step(m1, td1, lang, base.last(), fresh),
        }
    }
}

/// A new target starts with its language, no sets and no triggers.
pub open spec fn fresh_target(lang: Seq<char>) -> TargetDataView {
    TargetDataView { language: lang, loaded: Set::empty(), triggers: Map::empty() }
}

/// The server after a request to track a target: nothing changes for a target
/// already tracked or a language the configuration does not know; otherwise
/// the target is tracked with the base snippet sets of its language.
pub open spec fn spec_add_target(
    s: SniperView,
    sid: Seq<char>,
    uri: Seq<char>,
    lang: Seq<char>,
    fresh: Seq<(Seq<char>, Seq<(Seq<char>, SnippetView)>)>,
) -> Result<SniperView, AddTargetError> {
    if s.targets.contains_key((sid, uri)) || !s.config.languages.contains_key(lang) {
        Ok(s)
    } else {
        match add_sets(s.manager, fresh_target(lang), lang, s.config.languages[lang].base_snippets, fresh) {
            Err(e) => Err(e),
            Ok((m, td)) => Ok(SniperView { targets: s.targets.insert((sid, uri), td), manager: m, ..s }),
        }
    }
}

fn find_fresh(fresh: &Vec<(String, Loader)>, name: &String) -> (r: Option<usize>)
    ensures
        match find_entries(fresh_view(fresh@), name@) {
            Some(e) => r is Some && r->0 < fresh@.len() && loader_entries(fresh@[r->0 as int].1.snippets@) == e,
            None => r is None,
        },
{
    let ghost fv = fresh_view(fresh@);
    let mut i: usize = 0;
    assert(fv.skip(0) =~= fv);
    while i < fresh.len()
        invariant
            fv == fresh_view(fresh@),
            i <= fresh@.len(),
            find_entries(fv, name@) == find_entries(fv.skip(i as int), name@),
        decreases fresh@.len() - i,
    {
        proof {
            assert(fv.skip(i as int).drop_first() =~= fv.skip(i + 1));
        }
        if fresh[i].0 == *name {
            return Some(i);
        }
        i += 1;
    }
    None
}


proof fn lemma_with_snippets_finite(
    m: Map<(Seq<char>, Seq<char>), SnippetView>,
    lang: Seq<char>,
    e: Seq<(Seq<char>, SnippetView)>,
)
    requires
        m.dom().finite(),
    ensures
        with_snippets(m, lang, e).dom().finite(),
    decreases e.len(),
{
    if e.len() > 0 {
        lemma_with_snippets_finite(m, lang, e.drop_last());
    }
}

/// How the base snippet sets shape the state when they are all added:
/// every set is in play afterwards, a set counts one target more when the
/// target did not count for it before, and the target loaded them all.
proof fn lemma_add_sets_shape(
    m0: SnippetManagerView,
    td0: TargetDataView,
    lang: Seq<char>,
    b: Seq<Seq<char>>,
    fresh: Seq<(Seq<char>, Seq<(Seq<char>, SnippetView)>)>,
)
    requires
        add_sets(m0, td0, lang, b, fresh) is Ok,
        forall|x: Seq<char>| #[trigger] td0.loaded.contains(x) ==> m0.sets.contains_key((lang, x)),
        m0.sets.dom().finite(),
        m0.snippets.dom().finite(),
    ensures
        ({
            let (m, td) = add_sets(m0, td0, lang, b, fresh)->Ok_0;
            &&& td.language == td0.language
            &&& forall|x: Seq<char>| #[trigger] td.loaded.contains(x) <==> (td0.loaded.contains(x) || b.contains(x))
            &&& forall|k: (Seq<char>, Seq<char>)| #[trigger] m.sets.contains_key(k) <==> (m0.sets.contains_key(k) || (k.0 == lang && b.contains(k.1)))
            &&& forall|k: (Seq<char>, Seq<char>)| #[trigger] m.sets.contains_key(k) ==> m.sets[k].target_counter
                == (if m0.sets.contains_key(k) { m0.sets[k].target_counter } else { 0 })
                + (if k.0 == lang && b.contains(k.1) && !td0.loaded.contains(k.1) { 1int } else { 0int })
            &&& m.sets.dom().finite()
            &&& m.snippets.dom().finite()
        }),
    decreases b.len(),
{
    if b.len() > 0 {
        let bp = b.drop_last();
        let x = b.last();
        lemma_add_sets_shape(m0, td0, lang, bp, fresh);
        let (m1, td1) = add_sets(m0, td0, lang, bp, fresh)->Ok_0;
        let (m, td) = add_sets(m0, td0, lang, b, fresh)->Ok_0;
        assert(add_set_step(m1, td1, lang, x, fresh) == Ok::<(SnippetManagerView, TargetDataView), AddTargetError>((m, td)));
        assert forall|y: Seq<char>| b.contains(y) <==> (bp.contains(y) || y == x) by {
            if b.contains(y) {
                let q = choose|q: int| 0 <= q < b.len() && b[q] == y;
                if q < b.len() - 1 {
                    assert(bp[q] == y);
                }
            }
            if bp.contains(y) {
                let q = choose|q: int| 0 <= q < bp.len() && bp[q] == y;
                assert(b[q] == y);
            }
        }
        if !m1.sets.contains_key((lang, x)) {
            let e = find_entries(fresh, x)->Some_0;
            lemma_with_snippets_finite(m1.snippets, lang, e);
            assert(!td1.loaded.contains(x));
        } else {
        }
    }
}

proof fn lemma_add_keeps_wf(
    s0: SniperView,
    s1: SniperView,
    kt: (Seq<char>, Seq<char>),
    lang: Seq<char>,
    b: Seq<Seq<char>>,
    fresh: Seq<(Seq<char>, Seq<(Seq<char>, SnippetView)>)>,
)
    requires
        server_wf(s0),
        !s0.targets.contains_key(kt),
        add_sets(s0.manager, fresh_target(lang), lang, b, fresh) == Ok::<(SnippetManagerView, TargetDataView), AddTargetError>((s1.manager, s1.targets[kt])),
        s1.targets == s0.targets.insert(kt, s1.targets[kt]),
        sets_stored(s1.manager),
    ensures
        server_wf(s1),
{
    let td = s1.targets[kt];
    lemma_add_sets_shape(s0.manager, fresh_target(lang), lang, b, fresh);
    assert forall|k: (Seq<char>, Seq<char>)| #[trigger] s1.manager.sets.contains_key(k) implies {
        &&& s1.manager.sets[k].target_counter == requiring_targets(s1.targets, k.0, k.1).len()
        &&& s1.manager.sets[k].target_counter >= 1
    } by {
        let r0 = requiring_targets(s0.targets, k.0, k.1);
        let r1 = requiring_targets(s1.targets, k.0, k.1);
        if k.0 == lang && b.contains(k.1) {
            assert(td.loaded.contains(k.1));
            assert(r1 =~= r0.insert(kt));
            assert(!r0.contains(kt));
            if !s0.manager.sets.contains_key(k) {
                assert forall|t: (Seq<char>, Seq<char>)| !r0.contains(t) by {
                    if r0.contains(t) {
                        assert(s0.targets.contains_key(t) && s0.targets[t].loaded.contains(k.1));
                    }
                }
                assert(r0 =~= Set::empty());
            }
        } else {
            assert(!td.loaded.contains(k.1) || td.language != k.0);
            assert(r1 =~= r0);
            assert(s0.manager.sets.contains_key(k));
        }
    }
    assert forall|t: (Seq<char>, Seq<char>), set: Seq<char>| #[trigger] s1.targets.contains_key(t) && #[trigger] s1.targets[t].loaded.contains(set)
        implies s1.manager.sets.contains_key((s1.targets[t].language, set)) by {
        if t != kt {
            assert(s0.targets.contains_key(t) && s0.targets[t].loaded.contains(set));
        }
    }
}


/// Once a base snippet set fails, the whole request fails the same way.
proof fn lemma_add_sets_err_extends(
    m0: SnippetManagerView,
    td0: TargetDataView,
    lang: Seq<char>,
    b: Seq<Seq<char>>,
    fresh: Seq<(Seq<char>, Seq<(Seq<char>, SnippetView)>)>,
    i: int,
)
    requires
        0 <= i <= b.len(),
        add_sets(m0, td0, lang, b.take(i), fresh) is Err,
    ensures
        add_sets(m0, td0, lang, b, fresh) == add_sets(m0, td0, lang, b.take(i), fresh),
    decreases b.len() - i,
{
    if i < b.len() {
        assert(b.drop_last().take(i) =~= b.take(i));
        lemma_add_sets_err_extends(m0, td0, lang, b.drop_last(), fresh, i);
    } else {
        assert(b.take(i) =~= b);
    }
}

/// Why one base snippet set of the language would stop a request to track a
/// target, judged on the state before the request: a set in play that
/// already counts as many targets as it can, or a set not in play whose
/// file's contents were not given.
pub open spec fn set_check(
    m: SnippetManagerView,
    lang: Seq<char>,
    set: Seq<char>,
    fresh: Seq<(Seq<char>, Seq<(Seq<char>, SnippetView)>)>,
) -> Option<AddTargetError> {
    if m.sets.contains_key((lang, set)) {
        if m.sets[(lang, set)].target_counter < i32::MAX {
            None
        } else {
            Some(AddTargetError::TooManyTargets)
        }
    } else if find_entries(fresh, set) is Some {
        None
    } else {
        Some(AddTargetError::MissingSnippetData)
    }
}

proof fn lemma_seq_push_contains(b: Seq<Seq<char>>)
    requires
        b.len() > 0,
    ensures
        forall|y: Seq<char>| b.contains(y) <==> (b.drop_last().contains(y) || y == b.last()),
{
    let bp = b.drop_last();
    assert forall|y: Seq<char>| b.contains(y) <==> (bp.contains(y) || y == b.last()) by {
        if b.contains(y) {
            let q = choose|q: int| 0 <= q < b.len() && b[q] == y;
            if q < b.len() - 1 {
                assert(bp[q] == y);
            }
        }
        if bp.contains(y) {
            let q = choose|q: int| 0 <= q < bp.len() && bp[q] == y;
            assert(b[q] == y);
        }
        if y == b.last() {
            assert(b[b.len() - 1] == y);
        }
    }
}

/// When every base set passes its check, adding them all succeeds.
proof fn lemma_add_sets_ok(
    m0: SnippetManagerView,
    td0: TargetDataView,
    lang: Seq<char>,
    b: Seq<Seq<char>>,
    fresh: Seq<(Seq<char>, Seq<(Seq<char>, SnippetView)>)>,
)
    requires
        forall|x: Seq<char>| !#[trigger] td0.loaded.contains(x),
        forall|i: int| 0 <= i < b.len() ==> set_check(m0, lang, #[trigger] b[i], fresh) is None,
        m0.sets.dom().finite(),
        m0.snippets.dom().finite(),
    ensures
        add_sets(m0, td0, lang, b, fresh) is Ok,
    decreases b.len(),
{
    if b.len() > 0 {
        let bp = b.drop_last();
        let x = b.last();
        assert forall|i: int| 0 <= i < bp.len() implies set_check(m0, lang, #[trigger] bp[i], fresh) is None by {
            assert(bp[i] == b[i]);
        }
        lemma_add_sets_ok(m0, td0, lang, bp, fresh);
        lemma_add_sets_shape(m0, td0, lang, bp, fresh);
        assert(set_check(m0, lang, b[b.len() - 1], fresh) is None);
    }
}

/// When the base set at `i` is the first to fail its check, adding the sets
/// up to it fails with that set's error.
proof fn lemma_add_sets_err(
    m0: SnippetManagerView,
    td0: TargetDataView,
    lang: Seq<char>,
    b: Seq<Seq<char>>,
    fresh: Seq<(Seq<char>, Seq<(Seq<char>, SnippetView)>)>,
    i: int,
)
    requires
        forall|x: Seq<char>| !#[trigger] td0.loaded.contains(x),
        0 <= i < b.len(),
        forall|j: int| 0 <= j < i ==> set_check(m0, lang, #[trigger] b[j], fresh) is None,
        set_check(m0, lang, b[i], fresh) is Some,
        m0.sets.dom().finite(),
        m0.snippets.dom().finite(),
    ensures
        add_sets(m0, td0, lang, b.take(i + 1), fresh) == Err::<(SnippetManagerView, TargetDataView), AddTargetError>(
            set_check(m0, lang, b[i], fresh)->Some_0,
        ),
{
    let bi = b.take(i);
    let x = b[i];
    assert forall|j: int| 0 <= j < bi.len() implies set_check(m0, lang, #[trigger] bi[j], fresh) is None by {
        assert(bi[j] == b[j]);
    }
    lemma_add_sets_ok(m0, td0, lang, bi, fresh);
    lemma_add_sets_shape(m0, td0, lang, bi, fresh);
    assert(b.take(i + 1).drop_last() =~= bi);
    assert(b.take(i + 1).last() == x);
    if bi.contains(x) {
        let j = choose|j: int| 0 <= j < bi.len() && bi[j] == x;
        assert(bi[j] == b[j]);
        assert(set_check(m0, lang, b[j], fresh) is None);
    }
}

/// A step of adding a set keeps every snippet a set in play lists stored.
proof fn lemma_step_keeps_stored(
    m: SnippetManagerView,
    td: TargetDataView,
    lang: Seq<char>,
    set: Seq<char>,
    fresh: Seq<(Seq<char>, Seq<(Seq<char>, SnippetView)>)>,
)
    requires
        sets_stored(m),
        add_set_step(m, td, lang, set, fresh) is Ok,
    ensures
        sets_stored(add_set_step(m, td, lang, set, fresh)->Ok_0.0),
{
    let m1 = add_set_step(m, td, lang, set, fresh)->Ok_0.0;
    if !m.sets.contains_key((lang, set)) {
        let e = find_entries(fresh, set)->Some_0;
        lemma_with_snippets_dom(m.snippets, lang, e);
        assert forall|k: (Seq<char>, Seq<char>), n: Seq<char>| m1.sets.contains_key(k) && #[trigger] m1.sets[k].contents.contains(n)
            implies m1.snippets.contains_key((k.0, n)) by {
            if k == (lang, set) {
                assert(crate::snippet_manager::set_keys(lang, entry_names(e)).contains((lang, n)));
            } else {
                assert(m.sets[k].contents.contains(n));
            }
        }
    } else {
        assert forall|k: (Seq<char>, Seq<char>), n: Seq<char>| m1.sets.contains_key(k) && #[trigger] m1.sets[k].contents.contains(n)
            implies m1.snippets.contains_key((k.0, n)) by {
            assert(m.sets[k].contents.contains(n));
        }
    }
}

/// In a store whose sets have their snippets stored, the triggers of a set in
/// play can be read.
proof fn lemma_stored_triggers(m: SnippetManagerView, lang: Seq<char>, set: Seq<char>)
    requires
        sets_stored(m),
        m.sets.contains_key((lang, set)),
    ensures
        spec_set_triggers(m, lang, set) == Some(set_trigger_pairs(m, lang, set)),
{
    let names = m.sets[(lang, set)].contents;
    assert forall|q: int| 0 <= q < names.len() implies m.snippets.contains_key((lang, #[trigger] names[q])) by {
        assert(m.sets[(lang, set)].contents.contains(names[q]));
    }
}

impl Sniper {
    /// Gives a target the triggers of a snippet set, in order.
    fn extend_triggers(target: &mut TargetData, pairs: Vec<(Vec<u8>, SnippetInfo)>)
        ensures
            final(target)@ == (TargetDataView { triggers: with_triggers(old(target)@.triggers, pairs_view(pairs@)), ..old(target)@ }),
    {
        let ghost pv = pairs_view(pairs@);
        let mut rest = crate::snippet_manager::reversed(pairs);
        let ghost mut j: int = 0;
        while rest.len() > 0
            invariant
                0 <= j <= pv.len(),
                pairs_view(rest@) == pv.subrange(j, pv.len() as int).reverse(),
                target@ == (TargetDataView { triggers: with_triggers(old(target)@.triggers, pv.take(j)), ..old(target)@ }),
            decreases rest.len(),
        {
            let ghost rest0 = rest@;
            let (k, v) = rest.pop().unwrap();
            proof {
                let sub = pv.subrange(j, pv.len() as int);
                assert(pairs_view(rest0).len() == rest0.len());
                assert(sub.reverse()[sub.len() - 1] == sub[0]);
                assert(pairs_view(rest0)[rest0.len() - 1] == pv[j]);
                assert((k@, v@) == pv[j]);
                let sub2 = pv.subrange(j + 1, pv.len() as int);
                assert forall|q: int| 0 <= q < sub2.len() implies #[trigger] pairs_view(rest@)[q] == sub2.reverse()[q] by {
                    assert(pairs_view(rest@)[q] == pairs_view(rest0)[q]);
                    assert(sub.reverse()[q] == sub[sub.len() - 1 - q]);
                    assert(sub2.reverse()[q] == sub2[sub2.len() - 1 - q]);
                }
                assert(pairs_view(rest@) =~= sub2.reverse());
                assert(pv.take(j + 1).drop_last() =~= pv.take(j));
            }
            target.add_trigger(k, v);
            proof {
                j = j + 1;
            }
        }
        proof {
            assert(pv.take(j) =~= pv);
        }
    }

    /// Starts tracking a target: the base snippet sets of its language are
    /// loaded (from `fresh`, the contents of their files) when they are not in
    /// play, and counted as required by the target; the target gets the
    /// triggers of their snippets. A target already tracked, or of a language
    /// the configuration does not know, changes nothing. Every base set is
    /// checked before anything changes, so a refused request changes nothing.
    pub fn add_target(&mut self, session_id: String, uri: String, language: String, fresh: &Vec<(String, Loader)>) -> (r: Result<(), AddTargetError>)
        requires
            old(self).wf(),
        ensures
            match spec_add_target(old(self)@, session_id@, uri@, language@, fresh_view(fresh@)) {
                Ok(s) => r is Ok && final(self)@ == s && final(self).wf(),
                Err(e) => r == Err::<(), AddTargetError>(e) && final(self)@ == old(self)@,
            },
    {
        let ghost sid = session_id@;
        let ghost uid = uri@;
        let key = (session_id, uri);
        if targets_contains(&self.targets, &key) {
            return Ok(());
        }
        let base = match self.config.base_snippets(language.as_str()) {
            Some(b) => b,
            None => return Ok(()),
        };
        let ghost s0 = self@;
        let ghost bv = crate::snippet::strings_view(base@);
        let ghost fv = fresh_view(fresh@);
        let ghost td0 = fresh_target(language@);
        for i in 0..base.len()
            invariant
                bv == crate::snippet::strings_view(base@),
                fv == fresh_view(fresh@),
                self@ == s0,
                s0 == old(self)@,
                server_wf(s0),
                key_view(key) == (sid, uid),
                sid == session_id@,
                uid == uri@,
                !s0.targets.contains_key(key_view(key)),
                s0.config.languages.contains_key(language@),
                bv == s0.config.languages[language@].base_snippets,
                td0 == fresh_target(language@),
                forall|j: int| 0 <= j < i ==> set_check(s0.manager, language@, #[trigger] bv[j], fv) is None,
        {
            let set = &base[i];
            let set_key = (language.clone(), set.clone());
            let failure = match crate::snippet_manager::sets_get(&self.snippet_manager.snippet_sets, &set_key) {
                Some(entry) => if entry.can_add_target() {
                    None
                } else {
                    Some(AddTargetError::TooManyTargets)
                },
                None => if find_fresh(fresh, set).is_some() {
                    None
                } else {
                    Some(AddTargetError::MissingSnippetData)
                },
            };
            proof {
                assert(bv[i as int] == set@);
                assert(failure == set_check(s0.manager, language@, bv[i as int], fv));
            }
            match failure {
                Some(e) => {
                    proof {
                        lemma_add_sets_err(s0.manager, td0, language@, bv, fv, i as int);
                        lemma_add_sets_err_extends(s0.manager, td0, language@, bv, fv, i + 1);
                    }
                    return Err(e);
                },
                None => {},
            }
        }
        let mut target = TargetData::new(language.as_str());
        proof {
            assert(target@ == fresh_target(language@));
            assert(bv.take(0) =~= Seq::<Seq<char>>::empty());
        }
        for i in 0..base.len()
            invariant
                bv == crate::snippet::strings_view(base@),
                fv == fresh_view(fresh@),
                self@.targets == s0.targets,
                self@.config == s0.config,
                s0 == old(self)@,
                server_wf(s0),
                key_view(key) == (sid, uid),
                sid == session_id@,
                uid == uri@,
                !s0.targets.contains_key(key_view(key)),
                s0.config.languages.contains_key(language@),
                bv == s0.config.languages[language@].base_snippets,
                i <= bv.len(),
                forall|j: int| 0 <= j < bv.len() ==> set_check(s0.manager, language@, #[trigger] bv[j], fv) is None,
                sets_stored(self@.manager),
                add_sets(s0.manager, fresh_target(language@), language@, bv.take(i as int), fv) == Ok::<(SnippetManagerView, TargetDataView), AddTargetError>((self@.manager, target@)),
        {
            let set = &base[i];
            let ghost m1 = self@.manager;
            let ghost td1 = target@;
            proof {
                assert(bv.take(i + 1).drop_last() =~= bv.take(i as int));
                assert(bv.take(i + 1).last() == set@);
                assert forall|j: int| 0 <= j < bv.take(i + 1).len() implies set_check(s0.manager, language@, #[trigger] bv.take(i + 1)[j], fv) is None by {
                    assert(bv.take(i + 1)[j] == bv[j]);
                }
                lemma_add_sets_ok(s0.manager, fresh_target(language@), language@, bv.take(i + 1), fv);
                lemma_step_keeps_stored(m1, td1, language@, set@, fv);
            }
            let set_key = (language.clone(), set.clone());
            if !crate::snippet_manager::sets_contains(&self.snippet_manager.snippet_sets, &set_key) {
                let idx = find_fresh(fresh, set).unwrap();
                self.snippet_manager.load(language.as_str(), set.as_str(), &fresh[idx].1, &mut target);
            } else {
                proof {
                    lemma_stored_triggers(m1, language@, set@);
                }
                let pairs = self.snippet_manager.triggers(language.as_str(), set.as_str());
                if target.has_loaded(set) {
                    Self::extend_triggers(&mut target, pairs);
                } else {
                    let mut entry = crate::snippet_manager::sets_get(&self.snippet_manager.snippet_sets, &set_key).unwrap();
                    entry.increment_target_count();
                    crate::snippet_manager::sets_insert(&mut self.snippet_manager.snippet_sets, set_key, entry);
                    Self::extend_triggers(&mut target, pairs);
                    target.add_loaded(set.clone());
                }
            }
        }
        proof {
            assert(bv.take(base@.len() as int) =~= bv);
        }
        targets_insert(&mut self.targets, key, target);
        proof {
            lemma_add_keeps_wf(s0, self@, key_view(key), language@, bv, fv);
        }
        Ok(())
    }
}

/// Law: when a tracked target is dropped, a snippet set it loaded leaves play
/// exactly when it is the only tracked target that requires the set.
pub proof fn law_drop_frees_unshared_sets(s: SniperView, kt: (Seq<char>, Seq<char>), set: Seq<char>)
    requires
        server_wf(s),
        s.targets.contains_key(kt),
        s.targets[kt].loaded.contains(set),
    ensures
        dropped_sets(s.manager.sets, s.targets[kt].language, s.targets[kt].loaded).contains((s.targets[kt].language, set))
            <==> requiring_targets(s.targets, s.targets[kt].language, set) == set![kt],
{
    let lang = s.targets[kt].language;
    let r = requiring_targets(s.targets, lang, set);
    assert(s.manager.sets.contains_key((lang, set)));
    assert(r.contains(kt));
    if r.len() <= 1 {
        assert forall|t: (Seq<char>, Seq<char>)| r.contains(t) implies t == kt by {
            if t != kt {
                assert(r.remove(kt).contains(t));
                assert(r.remove(kt).len() >= 1);
            }
        }
        assert(r =~= set![kt]);
    }
    if r == set![kt] {
        assert(r.len() == 1);
    }
}

/// Law: a tracked target keeps every snippet set it loaded in play, with
/// every snippet the set lists stored, and the set counts it: the count of a
/// set is the number of tracked targets that require it.
pub proof fn law_loaded_sets_stay_in_play(s: SniperView, kt: (Seq<char>, Seq<char>), set: Seq<char>)
    requires
        server_wf(s),
        s.targets.contains_key(kt),
        s.targets[kt].loaded.contains(set),
    ensures
        s.manager.sets.contains_key((s.targets[kt].language, set)),
        forall|n: Seq<char>| #[trigger] s.manager.sets[(s.targets[kt].language, set)].contents.contains(n)
            ==> s.manager.snippets.contains_key((s.targets[kt].language, n)),
        s.manager.sets[(s.targets[kt].language, set)].target_counter
            == requiring_targets(s.targets, s.targets[kt].language, set).len(),
        requiring_targets(s.targets, s.targets[kt].language, set).contains(kt),
{
}

/// The server after a tracked target is dropped, as `drop_target` leaves it.
pub open spec fn spec_drop_target(s: SniperView, kt: (Seq<char>, Seq<char>)) -> SniperView {
    let t = s.targets[kt];
    SniperView {
        targets: s.targets.remove(kt),
        manager: SnippetManagerView {
            snippets: s.manager.snippets.remove_keys(dropped_snippet_keys(s.manager.sets, t.language, t.loaded)),
            sets: sets_after_drop(s.manager.sets, t.language, t.loaded),
        },
        ..s
    }
}

/// Law: dropping one target leaves every other tracked target its snippet
/// sets in play, with their snippets stored and each set counting it.
pub proof fn law_drop_keeps_other_targets_sets(
    s: SniperView,
    kt: (Seq<char>, Seq<char>),
    other: (Seq<char>, Seq<char>),
    set: Seq<char>,
)
    requires
        server_wf(s),
        s.targets.contains_key(kt),
        s.targets.contains_key(other),
        other != kt,
        s.targets[other].loaded.contains(set),
    ensures
        ({
            let s1 = spec_drop_target(s, kt);
            let lang = s.targets[other].language;
            &&& s1.targets.contains_key(other)
            &&& s1.manager.sets.contains_key((lang, set))
            &&& forall|n: Seq<char>| #[trigger] s1.manager.sets[(lang, set)].contents.contains(n)
                ==> s1.manager.snippets.contains_key((lang, n))
            &&& requiring_targets(s1.targets, lang, set).contains(other)
        }),
{
    let s1 = spec_drop_target(s, kt);
    lemma_drop_keeps_wf(s, s1, kt, s.targets[kt].language);
    assert(s1.targets[other] == s.targets[other]);
    law_loaded_sets_stay_in_play(s1, other, set);
}

/// Law: a request to track a new target of a known language succeeds when
/// every base set of the language passes its check: a set in play can count
/// one target more, and a set not in play has its file's contents given.
pub proof fn law_add_target_succeeds(
    s0: SniperView,
    sid: Seq<char>,
    uri: Seq<char>,
    lang: Seq<char>,
    fresh: Seq<(Seq<char>, Seq<(Seq<char>, SnippetView)>)>,
)
    requires
        server_wf(s0),
        s0.config.languages.contains_key(lang),
        forall|i: int| 0 <= i < s0.config.languages[lang].base_snippets.len()
            ==> set_check(s0.manager, lang, #[trigger] s0.config.languages[lang].base_snippets[i], fresh) is None,
    ensures
        spec_add_target(s0, sid, uri, lang, fresh) is Ok,
{
    lemma_add_sets_ok(s0.manager, fresh_target(lang), lang, s0.config.languages[lang].base_snippets, fresh);
}

/// The keys of the snippets that a request to track a target loads from the
/// given files: those listed in the file of each base set not in play.
pub open spec fn fresh_keys(
    sets: Map<(Seq<char>, Seq<char>), SnippetSetView>,
    lang: Seq<char>,
    base: Seq<Seq<char>>,
    fresh: Seq<(Seq<char>, Seq<(Seq<char>, SnippetView)>)>,
) -> Set<(Seq<char>, Seq<char>)> {
    Set::new(|k: (Seq<char>, Seq<char>)| k.0 == lang && exists|i: int| #![trigger base[i]]
        0 <= i < base.len() && !sets.contains_key((lang, base[i])) && find_entries(fresh, base[i]) is Some
            && entry_names(find_entries(fresh, base[i])->Some_0).contains(k.1))
}

/// How the base snippet sets change the store: the snippets of the files
/// loaded for sets not in play are added, every other snippet stays, every
/// set in play keeps its names, and a set put in play lists the snippets of
/// its file.
proof fn lemma_add_sets_store(
    m0: SnippetManagerView,
    td0: TargetDataView,
    lang: Seq<char>,
    b: Seq<Seq<char>>,
    fresh: Seq<(Seq<char>, Seq<(Seq<char>, SnippetView)>)>,
)
    requires
        add_sets(m0, td0, lang, b, fresh) is Ok,
        forall|x: Seq<char>| #[trigger] td0.loaded.contains(x) ==> m0.sets.contains_key((lang, x)),
        m0.sets.dom().finite(),
        m0.snippets.dom().finite(),
    ensures
        ({
            let (m, td) = add_sets(m0, td0, lang, b, fresh)->Ok_0;
            let fk = fresh_keys(m0.sets, lang, b, fresh);
            &&& forall|k: (Seq<char>, Seq<char>)| #[trigger] m.snippets.contains_key(k) <==> (m0.snippets.contains_key(k) || fk.contains(k))
            &&& forall|k: (Seq<char>, Seq<char>)| m0.snippets.contains_key(k) && !fk.contains(k) ==> #[trigger] m.snippets[k] == m0.snippets[k]
            &&& forall|k: (Seq<char>, Seq<char>)| #[trigger] m0.sets.contains_key(k) ==> m.sets[k].contents == m0.sets[k].contents
            &&& forall|k: (Seq<char>, Seq<char>)| #[trigger] m.sets.contains_key(k) && !m0.sets.contains_key(k) ==> {
                &&& find_entries(fresh, k.1) is Some
                &&& m.sets[k].contents == entry_names(find_entries(fresh, k.1)->Some_0)
            }
        }),
    decreases b.len(),
{
    lemma_add_sets_shape(m0, td0, lang, b, fresh);
    let fk = fresh_keys(m0.sets, lang, b, fresh);
    if b.len() == 0 {
        assert(fk =~= Set::empty());
    } else {
        let bp = b.drop_last();
        let x = b.last();
        lemma_add_sets_store(m0, td0, lang, bp, fresh);
        lemma_add_sets_shape(m0, td0, lang, bp, fresh);
        let (m1, td1) = add_sets(m0, td0, lang, bp, fresh)->Ok_0;
        let (m, td) = add_sets(m0, td0, lang, b, fresh)->Ok_0;
        let fkp = fresh_keys(m0.sets, lang, bp, fresh);
        assert(add_set_step(m1, td1, lang, x, fresh) == Ok::<(SnippetManagerView, TargetDataView), AddTargetError>((m, td)));
        assert forall|y: Seq<char>| b.contains(y) <==> (bp.contains(y) || y == x) by {
            if b.contains(y) {
                let q = choose|q: int| 0 <= q < b.len() && b[q] == y;
                if q < b.len() - 1 {
                    assert(bp[q] == y);
                }
            }
            if bp.contains(y) {
                let q = choose|q: int| 0 <= q < bp.len() && bp[q] == y;
                assert(b[q] == y);
            }
        }
        let xnew = !m0.sets.contains_key((lang, x)) && find_entries(fresh, x) is Some;
        assert forall|k: (Seq<char>, Seq<char>)| #[trigger] fk.contains(k) <==> (fkp.contains(k) || (k.0 == lang && xnew
            && entry_names(find_entries(fresh, x)->Some_0).contains(k.1))) by {
            if fk.contains(k) {
                let i = choose|i: int| #![trigger b[i]] 0 <= i < b.len() && !m0.sets.contains_key((lang, b[i]))
                    && find_entries(fresh, b[i]) is Some && entry_names(find_entries(fresh, b[i])->Some_0).contains(k.1);
                if i < b.len() - 1 {
                    assert(bp[i] == b[i]);
                }
            }
            if fkp.contains(k) {
                let i = choose|i: int| #![trigger bp[i]] 0 <= i < bp.len() && !m0.sets.contains_key((lang, bp[i]))
                    && find_entries(fresh, bp[i]) is Some && entry_names(find_entries(fresh, bp[i])->Some_0).contains(k.1);
                assert(b[i] == bp[i]);
            }
            if k.0 == lang && xnew && entry_names(find_entries(fresh, x)->Some_0).contains(k.1) {
                assert(b[b.len() - 1] == x);
            }
        }
        if !m1.sets.contains_key((lang, x)) {
            let e = find_entries(fresh, x)->Some_0;
            lemma_with_snippets_dom(m1.snippets, lang, e);
            assert(!bp.contains(x));
            assert forall|k: (Seq<char>, Seq<char>)| #[trigger] set_keys(lang, entry_names(e)).contains(k)
                <==> (k.0 == lang && xnew && entry_names(e).contains(k.1)) by {
            }
        } else {
            assert(m.snippets == m1.snippets);
            if xnew {
                assert(bp.contains(x));
                let q = choose|q: int| 0 <= q < bp.len() && bp[q] == x;
                assert forall|k: (Seq<char>, Seq<char>)| k.0 == lang && entry_names(find_entries(fresh, x)->Some_0).contains(k.1)
                    implies #[trigger] fkp.contains(k) by {
                    assert(bp[q] == x);
                }
            }
        }
    }
}

/// Law: dropping a target right after adding it puts the server back as it
/// was (the same targets, the same sets with the same counts, the same
/// snippets), when none of the snippets loaded for it from the given files
/// was stored already.
pub proof fn law_drop_undoes_add(
    s0: SniperView,
    sid: Seq<char>,
    uri: Seq<char>,
    lang: Seq<char>,
    fresh: Seq<(Seq<char>, Seq<(Seq<char>, SnippetView)>)>,
)
    requires
        server_wf(s0),
        !s0.targets.contains_key((sid, uri)),
        s0.config.languages.contains_key(lang),
        spec_add_target(s0, sid, uri, lang, fresh) is Ok,
        forall|k: (Seq<char>, Seq<char>)| #[trigger] fresh_keys(s0.manager.sets, lang, s0.config.languages[lang].base_snippets, fresh).contains(k)
            ==> !s0.manager.snippets.contains_key(k),
    ensures
        ({
            let s1 = spec_add_target(s0, sid, uri, lang, fresh)->Ok_0;
            let loaded = s1.targets[(sid, uri)].loaded;
            &&& s1.targets.contains_key((sid, uri))
            &&& s1.targets[(sid, uri)].language == lang
            &&& s1.targets.remove((sid, uri)) == s0.targets
            &&& sets_after_drop(s1.manager.sets, lang, loaded) == s0.manager.sets
            &&& s1.manager.snippets.remove_keys(dropped_snippet_keys(s1.manager.sets, lang, loaded)) == s0.manager.snippets
        }),
{
    let b = s0.config.languages[lang].base_snippets;
    let s1 = spec_add_target(s0, sid, uri, lang, fresh)->Ok_0;
    let kt = (sid, uri);
    let sets0 = s0.manager.sets;
    lemma_add_sets_shape(s0.manager, fresh_target(lang), lang, b, fresh);
    lemma_add_sets_store(s0.manager, fresh_target(lang), lang, b, fresh);
    let loaded = s1.targets[kt].loaded;
    let sets1 = s1.manager.sets;
    let fk = fresh_keys(sets0, lang, b, fresh);
    assert(s1.targets.remove(kt) =~= s0.targets);
    assert forall|k: (Seq<char>, Seq<char>)| #[trigger] dropped_sets(sets1, lang, loaded).contains(k)
        <==> (k.0 == lang && b.contains(k.1) && !sets0.contains_key(k)) by {
        if k.0 == lang && b.contains(k.1) && sets0.contains_key(k) {
            assert(sets0[k].target_counter >= 1);
        }
    }
    assert(sets_after_drop(sets1, lang, loaded) =~= sets0) by {
        assert forall|k: (Seq<char>, Seq<char>)| #[trigger] sets_after_drop(sets1, lang, loaded).contains_key(k)
            implies sets_after_drop(sets1, lang, loaded)[k] == sets0[k] by {
            assert(sets0.contains_key(k));
        }
    }
    let dk = dropped_snippet_keys(sets1, lang, loaded);
    assert forall|k: (Seq<char>, Seq<char>)| #[trigger] dk.contains(k) <==> fk.contains(k) by {
        if dk.contains(k) {
            let s = choose|s: Seq<char>| #[trigger] dropped_sets(sets1, lang, loaded).contains((lang, s))
                && sets1[(lang, s)].contents.contains(k.1);
            assert(b.contains(s));
            let i = choose|i: int| 0 <= i < b.len() && b[i] == s;
            assert(b[i] == s);
        }
        if fk.contains(k) {
            let i = choose|i: int| #![trigger b[i]] 0 <= i < b.len() && !sets0.contains_key((lang, b[i]))
                && find_entries(fresh, b[i]) is Some && entry_names(find_entries(fresh, b[i])->Some_0).contains(k.1);
            assert(b.contains(b[i]));
            assert(dropped_sets(sets1, lang, loaded).contains((lang, b[i])));
        }
    }
    assert(s1.manager.snippets.remove_keys(dk) =~= s0.manager.snippets);
}

/// Adding all the base sets keeps every snippet a set in play lists stored.
proof fn lemma_add_sets_keeps_stored(
    m0: SnippetManagerView,
    td0: TargetDataView,
    lang: Seq<char>,
    b: Seq<Seq<char>>,
    fresh: Seq<(Seq<char>, Seq<(Seq<char>, SnippetView)>)>,
)
    requires
        sets_stored(m0),
        add_sets(m0, td0, lang, b, fresh) is Ok,
    ensures
        sets_stored(add_sets(m0, td0, lang, b, fresh)->Ok_0.0),
    decreases b.len(),
{
    if b.len() > 0 {
        let bp = b.drop_last();
        lemma_add_sets_keeps_stored(m0, td0, lang, bp, fresh);
        let (m1, td1) = add_sets(m0, td0, lang, bp, fresh)->Ok_0;
        lemma_step_keeps_stored(m1, td1, lang, b.last(), fresh);
    }
}

/// Law: a request that tracks a new target leaves the server well formed,
/// the other targets as they were, and the new target tracked with its
/// language, having loaded exactly the base sets of the language.
pub proof fn law_add_target_tracks(
    s0: SniperView,
    sid: Seq<char>,
    uri: Seq<char>,
    lang: Seq<char>,
    fresh: Seq<(Seq<char>, Seq<(Seq<char>, SnippetView)>)>,
)
    requires
        server_wf(s0),
        !s0.targets.contains_key((sid, uri)),
        s0.config.languages.contains_key(lang),
        spec_add_target(s0, sid, uri, lang, fresh) is Ok,
    ensures
        ({
            let s1 = spec_add_target(s0, sid, uri, lang, fresh)->Ok_0;
            &&& server_wf(s1)
            &&& s1.config == s0.config
            &&& s1.targets.contains_key((sid, uri))
            &&& s1.targets.remove((sid, uri)) == s0.targets
            &&& s1.targets[(sid, uri)].language == lang
            &&& forall|x: Seq<char>| #[trigger] s1.targets[(sid, uri)].loaded.contains(x)
                <==> s0.config.languages[lang].base_snippets.contains(x)
        }),
{
    let b = s0.config.languages[lang].base_snippets;
    let s1 = spec_add_target(s0, sid, uri, lang, fresh)->Ok_0;
    lemma_add_sets_shape(s0.manager, fresh_target(lang), lang, b, fresh);
    lemma_add_sets_keeps_stored(s0.manager, fresh_target(lang), lang, b, fresh);
    lemma_add_keeps_wf(s0, s1, (sid, uri), lang, b, fresh);
    assert(s1.targets.remove((sid, uri)) =~= s0.targets);
}

/// Law: when two targets of a language are tracked one after the other and
/// the first is dropped, every base set of the language stays in play with
/// its snippets stored, since the second target still requires it.
pub proof fn law_second_target_keeps_sets(
    s0: SniperView,
    first: (Seq<char>, Seq<char>),
    second: (Seq<char>, Seq<char>),
    lang: Seq<char>,
    fresh1: Seq<(Seq<char>, Seq<(Seq<char>, SnippetView)>)>,
    fresh2: Seq<(Seq<char>, Seq<(Seq<char>, SnippetView)>)>,
)
    requires
        server_wf(s0),
        first != second,
        !s0.targets.contains_key(first),
        !s0.targets.contains_key(second),
        s0.config.languages.contains_key(lang),
        spec_add_target(s0, first.0, first.1, lang, fresh1) is Ok,
        spec_add_target(spec_add_target(s0, first.0, first.1, lang, fresh1)->Ok_0, second.0, second.1, lang, fresh2) is Ok,
    ensures
        ({
            let s1 = spec_add_target(s0, first.0, first.1, lang, fresh1)->Ok_0;
            let s2 = spec_add_target(s1, second.0, second.1, lang, fresh2)->Ok_0;
            let s3 = spec_drop_target(s2, first);
            &&& !s3.targets.contains_key(first)
            &&& s3.targets.contains_key(second)
            &&& forall|x: Seq<char>| #[trigger] s0.config.languages[lang].base_snippets.contains(x) ==> {
                &&& s3.manager.sets.contains_key((lang, x))
                &&& forall|n: Seq<char>| #[trigger] s3.manager.sets[(lang, x)].contents.contains(n)
                    ==> s3.manager.snippets.contains_key((lang, n))
            }
        }),
{
    let s1 = spec_add_target(s0, first.0, first.1, lang, fresh1)->Ok_0;
    law_add_target_tracks(s0, first.0, first.1, lang, fresh1);
    assert(!s1.targets.contains_key(second)) by {
        assert(s1.targets.remove(first).contains_key(second) == s0.targets.contains_key(second));
    }
    let s2 = spec_add_target(s1, second.0, second.1, lang, fresh2)->Ok_0;
    law_add_target_tracks(s1, second.0, second.1, lang, fresh2);
    assert(s2.targets.contains_key(first)) by {
        assert(s2.targets.remove(second).contains_key(first));
    }
    assert forall|x: Seq<char>| #[trigger] s0.config.languages[lang].base_snippets.contains(x) implies {
        &&& spec_drop_target(s2, first).manager.sets.contains_key((lang, x))
        &&& forall|n: Seq<char>| #[trigger] spec_drop_target(s2, first).manager.sets[(lang, x)].contents.contains(n)
            ==> spec_drop_target(s2, first).manager.snippets.contains_key((lang, n))
    } by {
        assert(s2.targets[second].loaded.contains(x));
        law_drop_keeps_other_targets_sets(s2, first, second, x);
    }
}

/// Every base set already added gives the target the trigger of every
/// snippet it lists, as the snippet now stands in the store.
proof fn lemma_add_sets_triggers(
    m0: SnippetManagerView,
    td0: TargetDataView,
    lang: Seq<char>,
    b: Seq<Seq<char>>,
    fresh: Seq<(Seq<char>, Seq<(Seq<char>, SnippetView)>)>,
)
    requires
        add_sets(m0, td0, lang, b, fresh) is Ok,
        forall|x: Seq<char>| #[trigger] td0.loaded.contains(x) ==> m0.sets.contains_key((lang, x)),
        m0.sets.dom().finite(),
        m0.snippets.dom().finite(),
        sets_stored(m0),
    ensures
        ({
            let (m, td) = add_sets(m0, td0, lang, b, fresh)->Ok_0;
            forall|x: Seq<char>, n: Seq<char>| b.contains(x) && #[trigger] m.sets[(lang, x)].contents.contains(n)
                ==> td.triggers.contains_key(vstd::utf8::encode_utf8(m.snippets[(lang, n)].prefix))
        }),
    decreases b.len(),
{
    if b.len() > 0 {
        let bp = b.drop_last();
        let y = b.last();
        lemma_add_sets_triggers(m0, td0, lang, bp, fresh);
        lemma_add_sets_shape(m0, td0, lang, bp, fresh);
        lemma_add_sets_keeps_stored(m0, td0, lang, bp, fresh);
        lemma_seq_push_contains(b);
        let (m1, td1) = add_sets(m0, td0, lang, bp, fresh)->Ok_0;
        let (m, td) = add_sets(m0, td0, lang, b, fresh)->Ok_0;
        assert(add_set_step(m1, td1, lang, y, fresh) == Ok::<(SnippetManagerView, TargetDataView), AddTargetError>((m, td)));
        if !m1.sets.contains_key((lang, y)) {
            lemma_fresh_step_triggers(m1, td1, lang, bp, y, fresh);
        } else {
            lemma_in_play_step_triggers(m1, td1, lang, bp, y, fresh);
        }
    }
}

/// The step that loads a set from its file keeps the triggers of the sets
/// before it and gives those of the set's own snippets.
proof fn lemma_fresh_step_triggers(
    m1: SnippetManagerView,
    td1: TargetDataView,
    lang: Seq<char>,
    bp: Seq<Seq<char>>,
    y: Seq<char>,
    fresh: Seq<(Seq<char>, Seq<(Seq<char>, SnippetView)>)>,
)
    requires
        !m1.sets.contains_key((lang, y)),
        add_set_step(m1, td1, lang, y, fresh) is Ok,
        sets_stored(m1),
        forall|x: Seq<char>| #[trigger] bp.contains(x) ==> m1.sets.contains_key((lang, x)),
        forall|x: Seq<char>, n: Seq<char>| bp.contains(x) && #[trigger] m1.sets[(lang, x)].contents.contains(n)
            ==> td1.triggers.contains_key(vstd::utf8::encode_utf8(m1.snippets[(lang, n)].prefix)),
    ensures
        ({
            let (m, td) = add_set_step(m1, td1, lang, y, fresh)->Ok_0;
            forall|x: Seq<char>, n: Seq<char>| (bp.contains(x) || x == y) && #[trigger] m.sets[(lang, x)].contents.contains(n)
                ==> td.triggers.contains_key(vstd::utf8::encode_utf8(m.snippets[(lang, n)].prefix))
        }),
{
    let (m, td) = add_set_step(m1, td1, lang, y, fresh)->Ok_0;
    let e = find_entries(fresh, y)->Some_0;
    let pairs = entry_triggers(e);
    lemma_with_snippets_dom(m1.snippets, lang, e);
    lemma_with_triggers(td1.triggers, pairs);
    assert forall|x: Seq<char>, n: Seq<char>| (bp.contains(x) || x == y) && #[trigger] m.sets[(lang, x)].contents.contains(n)
        implies td.triggers.contains_key(vstd::utf8::encode_utf8(m.snippets[(lang, n)].prefix)) by {
        if x == y {
            assert(entry_names(e).contains(n));
            lemma_with_snippets_last(m1.snippets, lang, e, n);
            let j = choose|j: int| 0 <= j < e.len() && (#[trigger] e[j]).0 == n && with_snippets(m1.snippets, lang, e)[(lang, n)] == e[j].1;
            assert(pairs[j] == trigger_of(e[j].0, e[j].1));
            assert(td.triggers.contains_key(pairs[j].0));
        } else {
            assert(m1.sets[(lang, x)].contents.contains(n));
            assert(m1.snippets.contains_key((lang, n)));
            if crate::snippet_manager::set_keys(lang, entry_names(e)).contains((lang, n)) {
                lemma_with_snippets_last(m1.snippets, lang, e, n);
                let j = choose|j: int| 0 <= j < e.len() && (#[trigger] e[j]).0 == n && with_snippets(m1.snippets, lang, e)[(lang, n)] == e[j].1;
                assert(pairs[j] == trigger_of(e[j].0, e[j].1));
                assert(td.triggers.contains_key(pairs[j].0));
            } else {
                assert(m.snippets[(lang, n)] == m1.snippets[(lang, n)]);
                assert(td1.triggers.contains_key(vstd::utf8::encode_utf8(m1.snippets[(lang, n)].prefix)));
            }
        }
    }
}

/// The step for a set already in play keeps the triggers of the sets before
/// it and gives those of every snippet the set lists.
proof fn lemma_in_play_step_triggers(
    m1: SnippetManagerView,
    td1: TargetDataView,
    lang: Seq<char>,
    bp: Seq<Seq<char>>,
    y: Seq<char>,
    fresh: Seq<(Seq<char>, Seq<(Seq<char>, SnippetView)>)>,
)
    requires
        m1.sets.contains_key((lang, y)),
        add_set_step(m1, td1, lang, y, fresh) is Ok,
        forall|x: Seq<char>| #[trigger] bp.contains(x) ==> m1.sets.contains_key((lang, x)),
        forall|x: Seq<char>, n: Seq<char>| bp.contains(x) && #[trigger] m1.sets[(lang, x)].contents.contains(n)
            ==> td1.triggers.contains_key(vstd::utf8::encode_utf8(m1.snippets[(lang, n)].prefix)),
    ensures
        ({
            let (m, td) = add_set_step(m1, td1, lang, y, fresh)->Ok_0;
            forall|x: Seq<char>, n: Seq<char>| (bp.contains(x) || x == y) && #[trigger] m.sets[(lang, x)].contents.contains(n)
                ==> td.triggers.contains_key(vstd::utf8::encode_utf8(m.snippets[(lang, n)].prefix))
        }),
{
    let (m, td) = add_set_step(m1, td1, lang, y, fresh)->Ok_0;
    let pairs = set_trigger_pairs(m1, lang, y);
    lemma_with_triggers(td1.triggers, pairs);
    assert forall|x: Seq<char>, n: Seq<char>| (bp.contains(x) || x == y) && #[trigger] m.sets[(lang, x)].contents.contains(n)
        implies td.triggers.contains_key(vstd::utf8::encode_utf8(m.snippets[(lang, n)].prefix)) by {
        assert(m.sets[(lang, x)].contents == m1.sets[(lang, x)].contents);
        if x == y {
            let names = m1.sets[(lang, y)].contents;
            let q = choose|q: int| 0 <= q < names.len() && names[q] == n;
            assert(pairs[q].0 == vstd::utf8::encode_utf8(m1.snippets[(lang, n)].prefix));
            assert(td.triggers.contains_key(pairs[q].0));
        } else {
            assert(td1.triggers.contains_key(vstd::utf8::encode_utf8(m1.snippets[(lang, n)].prefix)));
        }
    }
}

/// Law: a target tracked by a successful request gets, for every base set of
/// its language and every snippet the set lists, the UTF-8 bytes of that
/// snippet's prefix as a trigger, whether the set was loaded from its file or
/// was already in play.
pub proof fn law_add_target_gives_all_triggers(
    s0: SniperView,
    sid: Seq<char>,
    uri: Seq<char>,
    lang: Seq<char>,
    fresh: Seq<(Seq<char>, Seq<(Seq<char>, SnippetView)>)>,
)
    requires
        server_wf(s0),
        !s0.targets.contains_key((sid, uri)),
        s0.config.languages.contains_key(lang),
        spec_add_target(s0, sid, uri, lang, fresh) is Ok,
    ensures
        ({
            let s1 = spec_add_target(s0, sid, uri, lang, fresh)->Ok_0;
            forall|x: Seq<char>, n: Seq<char>| s0.config.languages[lang].base_snippets.contains(x)
                && #[trigger] s1.manager.sets[(lang, x)].contents.contains(n)
                ==> s1.targets[(sid, uri)].triggers.contains_key(vstd::utf8::encode_utf8(s1.manager.snippets[(lang, n)].prefix))
        }),
{
    lemma_add_sets_triggers(s0.manager, fresh_target(lang), lang, s0.config.languages[lang].base_snippets, fresh);
}
} // verus!
