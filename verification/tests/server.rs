use sniper::config::{LanguageConfig, SniperConfig};
use sniper::parser::ComponentType;
use sniper::proto::{Component, SnippetComponent, SnippetInfo, Tabstop};
use sniper::server::{AddTargetError, Sniper};
use sniper::snippet::{Loader, Snippet, SnippetTypes};
use sniper::snippet_manager::{discharge, SnippetManager};
use sniper::target::TargetData;

fn snippet(prefix: &str, body: &[&str], description: &str) -> Snippet {
    Snippet {
        prefix: prefix.to_string(),
        snippet_type: SnippetTypes::Statement,
        body: body.iter().map(|s| s.to_string()).collect(),
        description: description.to_string(),
        is_conditional: false,
        actions: vec![],
        requires_assembly: true,
    }
}

fn base_loader() -> Loader {
    Loader {
        snippets: vec![
            ("if".to_string(), snippet("if", &["if ${1:expression}:", "\t${2:pass}"], "an if")),
            ("ifelse".to_string(), snippet("ife", &["$!if", "else:", "\t${1:pass}"], "if/else")),
            ("for".to_string(), snippet("for", &["for ${1:x} in ${2:xs}:"], "a loop")),
        ],
    }
}

fn txt(s: &str) -> Component {
    Component::Text(s.to_string())
}

fn stop(n: i32, content: &str) -> Component {
    Component::Tabstop(Tabstop { number: n, content: vec![SnippetComponent { component: Some(txt(content)) }] })
}

fn wrapped(v: Vec<Component>) -> Vec<SnippetComponent> {
    v.into_iter().map(|c| SnippetComponent { component: Some(c) }).collect()
}

fn server() -> Sniper {
    Sniper::new(SniperConfig::from_settings(
        "/cfg".to_string(),
        vec![("python".to_string(), LanguageConfig { base_snippets: vec!["base".to_string()], initialized: false })],
    ))
}

fn add(s: &mut Sniper, sid: &str, uri: &str) -> Result<(), AddTargetError> {
    s.add_target(sid.to_string(), uri.to_string(), "python".to_string(), &vec![("base".to_string(), base_loader())])
}

fn names(v: Vec<SnippetInfo>) -> Vec<String> {
    let mut n: Vec<String> = v.into_iter().map(|i| i.name).collect();
    n.sort();
    n
}

#[test]
fn manager_load_and_unload() {
    let mut m = SnippetManager::new();
    let mut t = TargetData::new("python");
    m.load("python", "base", &base_loader(), &mut t);
    assert!(m.snippets.contains_key(&("python".to_string(), "for".to_string())));
    assert!(t.has_loaded(&"base".to_string()));
    assert_eq!(names(t.completions(&b"i".to_vec())), vec!["if".to_string(), "ifelse".to_string()]);
    let trig = m.triggers("python", "base");
    assert_eq!(trig.len(), 3);
    assert_eq!(trig[1].0, b"ife".to_vec());
    assert_eq!(trig[1].1, SnippetInfo { name: "ifelse".to_string(), description: "if/else".to_string() });
    m.unload("python", "base");
    assert!(m.snippets.is_empty());
    assert!(m.snippet_sets.is_empty());
}

#[test]
fn fire_expands_nested_snippets() {
    let mut m = SnippetManager::new();
    let mut t = TargetData::new("python");
    m.load("python", "base", &base_loader(), &mut t);
    let out = m.fire("python".to_string(), "ifelse".to_string()).unwrap();
    assert_eq!(
        out,
        wrapped(vec![
            txt("if "),
            stop(1, "expression"),
            txt(":"),
            txt("\t"),
            stop(2, "pass"),
            txt("else:"),
            txt("\t"),
            stop(3, "pass"),
        ])
    );
    assert_eq!(m.fire("python".to_string(), "missing".to_string()), None);
    assert_eq!(m.fire("rust".to_string(), "if".to_string()), None);
}

#[test]
fn fire_with_missing_sub_snippet_resets_offset() {
    let mut m = SnippetManager::new();
    let mut t = TargetData::new("python");
    let l = Loader { snippets: vec![("a".to_string(), snippet("a", &["${1:x}$!gone${2:y}"], ""))] };
    m.load("python", "s", &l, &mut t);
    let out = m.fire("python".to_string(), "a".to_string()).unwrap();
    assert_eq!(out, wrapped(vec![stop(1, "x"), stop(1, "y")]));
}

#[test]
fn fire_expands_a_chain_as_deep_as_the_store() {
    let mut m = SnippetManager::new();
    let mut t = TargetData::new("python");
    let l = Loader {
        snippets: vec![
            ("a".to_string(), snippet("a", &["${1:a}$!b"], "")),
            ("b".to_string(), snippet("b", &["${1:b}$!c"], "")),
            ("c".to_string(), snippet("c", &["${1:c}"], "")),
        ],
    };
    m.load("python", "s", &l, &mut t);
    let out = m.fire("python".to_string(), "a".to_string()).unwrap();
    assert_eq!(out, wrapped(vec![stop(1, "a"), stop(2, "b"), stop(3, "c")]));
}

fn plain(n: i32) -> Component {
    Component::Tabstop(Tabstop { number: n, content: vec![] })
}

#[test]
fn fire_renumbers_plain_tabstops_through_nested_snippets() {
    let mut m = SnippetManager::new();
    let mut t = TargetData::new("python");
    let l = Loader {
        snippets: vec![
            ("S".to_string(), snippet("s", &["$1$2$!V$3"], "")),
            ("V".to_string(), snippet("v", &["$1$2"], "")),
        ],
    };
    m.load("python", "s", &l, &mut t);
    let out = m.fire("python".to_string(), "S".to_string()).unwrap();
    assert_eq!(out, wrapped(vec![plain(1), plain(2), plain(3), plain(4), plain(5)]));
    let (_, next) = m.chamber(&"python".to_string(), "S".to_string(), 0, 3).unwrap();
    assert_eq!(next, 5);
}

#[test]
fn fire_refuses_self_reference() {
    let mut m = SnippetManager::new();
    let mut t = TargetData::new("python");
    let l = Loader { snippets: vec![("loop".to_string(), snippet("l", &["x$!loop"], ""))] };
    m.load("python", "s", &l, &mut t);
    assert_eq!(m.fire("python".to_string(), "loop".to_string()), None);
}

#[test]
fn chamber_adds_offset() {
    let mut m = SnippetManager::new();
    let mut t = TargetData::new("python");
    m.load("python", "base", &base_loader(), &mut t);
    let (out, next) = m.chamber(&"python".to_string(), "for".to_string(), 5, 3).unwrap();
    assert_eq!(out, vec![txt("for "), stop(6, "x"), txt(" in "), stop(7, "xs"), txt(":")]);
    assert_eq!(next, 7);
    assert_eq!(m.chamber(&"python".to_string(), "for".to_string(), 5, 0), None);
    assert_eq!(m.chamber(&"python".to_string(), "for".to_string(), i32::MAX, 3), None);
}

#[test]
fn discharge_wraps() {
    assert_eq!(discharge(txt("a")), SnippetComponent { component: Some(txt("a")) });
}

#[test]
fn add_target_loads_base_sets_and_completes() {
    let mut s = server();
    assert_eq!(s.sets_to_load(&"1".to_string(), &"a.py".to_string(), &"python".to_string()), vec!["base".to_string()]);
    assert_eq!(add(&mut s, "1", "a.py"), Ok(()));
    assert_eq!(s.target_language(&"1".to_string(), &"a.py".to_string()), Some("python".to_string()));
    assert_eq!(names(s.get_completions("1".to_string(), "a.py".to_string(), b"i".to_vec())), vec!["if".to_string(), "ifelse".to_string()]);
    assert_eq!(names(s.get_completions("1".to_string(), "a.py".to_string(), b"f".to_vec())), vec!["for".to_string()]);
    assert_eq!(s.get_completions("2".to_string(), "a.py".to_string(), b"i".to_vec()), vec![]);
    assert!(s.sets_to_load(&"2".to_string(), &"b.py".to_string(), &"python".to_string()).is_empty());
    let snip = s.get_snippet("1".to_string(), "a.py".to_string(), "if".to_string()).unwrap();
    assert_eq!(snip, wrapped(vec![txt("if "), stop(1, "expression"), txt(":"), txt("\t"), stop(2, "pass")]));
}

#[test]
fn add_target_ignores_unknown_language_and_tracked_targets() {
    let mut s = server();
    assert_eq!(s.add_target("1".to_string(), "a.go".to_string(), "go".to_string(), &vec![]), Ok(()));
    assert!(s.no_targets());
    assert_eq!(add(&mut s, "1", "a.py"), Ok(()));
    // tracked already: nothing needed, nothing changes
    assert_eq!(s.add_target("1".to_string(), "a.py".to_string(), "python".to_string(), &vec![]), Ok(()));
    assert_eq!(s.snippet_manager.snippet_sets.len(), 1);
}

#[test]
fn add_target_without_set_data_fails() {
    let mut s = server();
    assert_eq!(
        s.add_target("1".to_string(), "a.py".to_string(), "python".to_string(), &vec![]),
        Err(AddTargetError::MissingSnippetData)
    );
}

#[test]
fn refused_add_target_changes_nothing() {
    let mut s = Sniper::new(SniperConfig::from_settings(
        "/cfg".to_string(),
        vec![(
            "python".to_string(),
            LanguageConfig { base_snippets: vec!["base".to_string(), "extra".to_string()], initialized: false },
        )],
    ));
    // "base" could be loaded, but "extra" has no data: nothing is loaded
    assert_eq!(add(&mut s, "1", "a.py"), Err(AddTargetError::MissingSnippetData));
    assert!(s.no_targets());
    assert!(s.snippet_manager.snippet_sets.is_empty());
    assert!(s.snippet_manager.snippets.is_empty());
}

#[test]
fn unload_keeps_snippets_another_set_lists() {
    let mut m = SnippetManager::new();
    let mut t = TargetData::new("python");
    let a = Loader { snippets: vec![("shared".to_string(), snippet("sh", &["x"], "")), ("only_a".to_string(), snippet("a", &["a"], ""))] };
    let b = Loader { snippets: vec![("shared".to_string(), snippet("sh", &["x"], ""))] };
    m.load("python", "a", &a, &mut t);
    m.load("python", "b", &b, &mut t);
    m.unload("python", "a");
    assert!(m.snippets.contains_key(&("python".to_string(), "shared".to_string())));
    assert!(!m.snippets.contains_key(&("python".to_string(), "only_a".to_string())));
    assert_eq!(m.triggers("python", "b").len(), 1);
    m.unload("python", "b");
    assert!(m.snippets.is_empty());
}

#[test]
fn drop_uses_the_tracked_language() {
    let mut s = server();
    assert_eq!(add(&mut s, "1", "a.py"), Ok(()));
    s.drop_target("1".to_string(), "a.py".to_string(), "rust".to_string());
    assert!(s.no_targets());
    assert!(s.snippet_manager.snippet_sets.is_empty());
    assert!(s.snippet_manager.snippets.is_empty());
}

#[test]
fn shared_sets_stay_until_last_target_drops() {
    let mut s = server();
    assert_eq!(add(&mut s, "1", "a.py"), Ok(()));
    // the second target reuses the set in play; no file needed
    assert_eq!(s.add_target("2".to_string(), "b.py".to_string(), "python".to_string(), &vec![]), Ok(()));
    assert_eq!(names(s.get_completions("2".to_string(), "b.py".to_string(), b"fo".to_vec())), vec!["for".to_string()]);
    s.drop_target("1".to_string(), "a.py".to_string(), "python".to_string());
    assert!(s.snippet_manager.snippet_sets.contains_key(&("python".to_string(), "base".to_string())));
    assert_eq!(s.snippet_manager.snippets.len(), 3);
    assert_eq!(s.get_completions("1".to_string(), "a.py".to_string(), b"i".to_vec()), vec![]);
    s.drop_target("2".to_string(), "b.py".to_string(), "python".to_string());
    assert!(s.snippet_manager.snippet_sets.is_empty());
    assert!(s.snippet_manager.snippets.is_empty());
    assert!(s.no_targets());
    // dropping an untracked target changes nothing
    s.drop_target("3".to_string(), "c.py".to_string(), "python".to_string());
    assert!(s.no_targets());
}

#[test]
fn drop_then_add_again_reloads() {
    let mut s = server();
    assert_eq!(add(&mut s, "1", "a.py"), Ok(()));
    s.drop_target("1".to_string(), "a.py".to_string(), "python".to_string());
    assert_eq!(s.sets_to_load(&"1".to_string(), &"a.py".to_string(), &"python".to_string()), vec!["base".to_string()]);
    assert_eq!(add(&mut s, "1", "a.py"), Ok(()));
    assert_eq!(s.snippet_manager.snippets.len(), 3);
}

#[test]
fn plain_line_component_type() {
    assert_eq!(sniper::parser::snippet_component("pass"), vec![ComponentType::ReadyComponent(txt("pass"))]);
}
