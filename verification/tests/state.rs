use sniper::config::{not_initialized, LanguageConfig, SniperConfig, SnippetSet as ConfigSnippetSet};
use sniper::snippet::{
    assembly_required, default_snippet_type, no_action, unconditional, Actions, Loader, Snippet, SnippetSet, SnippetTypes,
};
use sniper::target::TargetData;
use sniper::proto::SnippetInfo;

fn snippet(prefix: &str, body: &[&str], description: &str) -> Snippet {
    Snippet {
        prefix: prefix.to_string(),
        snippet_type: default_snippet_type(),
        body: body.iter().map(|s| s.to_string()).collect(),
        description: description.to_string(),
        is_conditional: unconditional(),
        actions: no_action(),
        requires_assembly: assembly_required(),
    }
}

#[test]
fn snippet_defaults() {
    assert!(matches!(default_snippet_type(), SnippetTypes::Shorthand));
    assert!(!unconditional());
    assert!(no_action().is_empty());
    assert!(assembly_required());
    assert!(!not_initialized());
}

#[test]
fn snippet_duplicate_keeps_fields() {
    let mut s = snippet("if", &["if ${1:x}:"], "an if");
    s.actions = vec![Actions::Load(vec!["numpy".to_string()])];
    let d = s.duplicate();
    assert_eq!(d.prefix, "if");
    assert_eq!(d.body, vec!["if ${1:x}:".to_string()]);
    assert_eq!(d.description, "an if");
    assert!(matches!(&d.actions[0], Actions::Load(v) if v == &vec!["numpy".to_string()]));
    let _l = Loader { snippets: vec![("if".to_string(), d)] };
}

#[test]
fn snippet_set_counts_targets() {
    let mut set = SnippetSet::new(vec!["if".to_string()]);
    set.increment_target_count();
    set.increment_target_count();
    assert!(!set.decrement_target_count());
    assert!(!set.decrement_target_count());
    assert!(set.decrement_target_count());
    // the last target stays counted until the set is dropped
    assert!(set.decrement_target_count());
    assert_eq!(set.contents, vec!["if".to_string()]);
}

#[test]
fn config_snippet_set_counts_targets() {
    let mut set = ConfigSnippetSet::new(vec!["base".to_string()]);
    assert!(set.dropped_target());
    set.added_target();
    assert!(!set.dropped_target());
    assert!(set.dropped_target());
}

fn config() -> SniperConfig {
    SniperConfig::from_settings(
        "/home/u/.config/sniper".to_string(),
        vec![
            ("python".to_string(), LanguageConfig { base_snippets: vec!["old".to_string()], initialized: false }),
            ("rust".to_string(), LanguageConfig { base_snippets: vec!["base".to_string()], initialized: false }),
            ("python".to_string(), LanguageConfig { base_snippets: vec!["base".to_string(), "extra".to_string()], initialized: false }),
        ],
    )
}

#[test]
fn config_lookups_use_the_last_entry() {
    let c = config();
    assert!(c.contains_language("python"));
    assert!(!c.contains_language("go"));
    assert_eq!(c.base_snippets("python"), Some(vec!["base".to_string(), "extra".to_string()]));
    assert_eq!(c.base_snippets("go"), None);
    assert_eq!(c.is_initialized("rust"), Some(false));
}

#[test]
fn language_initialized_sets_the_flag() {
    let mut c = config();
    c.language_initialized("python");
    assert_eq!(c.is_initialized("python"), Some(true));
    assert_eq!(c.is_initialized("rust"), Some(false));
    assert_eq!(c.base_snippets("python"), Some(vec!["base".to_string(), "extra".to_string()]));
}

#[test]
fn snippet_data_path_joins_the_parts() {
    let c = config();
    assert_eq!(c.snippet_data_path("python", "base"), "/home/u/.config/sniper/python/base.toml");
}

#[test]
fn target_completions_follow_the_prefix() {
    let mut t = TargetData::new("python");
    t.add_trigger(b"if".to_vec(), SnippetInfo { name: "if".to_string(), description: "an if".to_string() });
    t.add_trigger(b"ifelse".to_vec(), SnippetInfo { name: "ifelse".to_string(), description: "if/else".to_string() });
    t.add_trigger(b"for".to_vec(), SnippetInfo { name: "for".to_string(), description: "a loop".to_string() });
    let mut names: Vec<String> = t.completions(&b"if".to_vec()).into_iter().map(|i| i.name).collect();
    names.sort();
    assert_eq!(names, vec!["if".to_string(), "ifelse".to_string()]);
    assert_eq!(t.completions(&b"x".to_vec()), vec![]);
    assert_eq!(t.completions(&vec![]).len(), 3);
    // a trigger maps to the latest snippet given for it
    t.add_trigger(b"for".to_vec(), SnippetInfo { name: "for2".to_string(), description: "".to_string() });
    assert_eq!(t.completions(&b"fo".to_vec())[0].name, "for2");
    t.add_loaded("base".to_string());
    assert!(t.has_loaded(&"base".to_string()));
    assert!(!t.has_loaded(&"other".to_string()));
    assert_eq!(t.loaded_list(), vec!["base".to_string()]);
    assert_eq!(t.get_language(), "python");
}

#[test]
fn counter_rounds_drop_with_the_last_target() {
    let mut set = SnippetSet::new(vec!["a".to_string()]);
    set.increment_target_count();
    set.increment_target_count();
    assert!(!set.decrement_target_count());
    assert!(!set.decrement_target_count());
    assert!(set.decrement_target_count());
    assert!(set.decrement_target_count());
}
