use sniper::parser::{nested_component, non_text_token, snippet_component, text, ComponentType, ParseError};
use sniper::proto::{Component, Functor, SnippetComponent, Tabstop};

struct Snips {
    ifv: Vec<String>,
    elifv: Vec<String>,
    elsev: Vec<String>,
    ifelifelsev: Vec<String>,
}

impl Snips {
    fn new() -> Self {
        Self {
            ifv: vec!["if ${1:expression}:".into(), "\t${2:pass}".into()],
            elifv: vec!["elif ${1:expression}:".into(), "\t${1:pass}".into()],
            elsev: vec!["else:".into(), "\t${1:pass}".into()],
            ifelifelsev: vec!["$!if".into(), "$!elif".into(), "$!else".into()],
        }
    }
}

fn txt(s: &str) -> Component {
    Component::Text(s.to_string())
}

#[test]
fn test_text() {
    let snips = Snips::new();
    let res = text(&snips.ifv[0]).unwrap();
    assert!(res.0.eq("${1:expression}:"));
    assert!(ComponentType::ReadyComponent(Component::Text("if ".to_string())) == res.1);
}

#[test]
fn test_nested_component() {
    assert_eq!(
        nested_component("{1:another ${2:placeholder}}"),
        Ok((
            "",
            ComponentType::Tabstop(
                1,
                vec![
                    Component::Text("another ".to_string()),
                    Component::Tabstop(Tabstop {
                        number: 2,
                        content: vec![SnippetComponent {
                            component: Some(Component::Text("placeholder".to_string()))
                        }]
                    })
                ]
            )
        ))
    )
}

#[test]
fn text_needs_a_following_dollar() {
    assert_eq!(text("else:"), Err(ParseError));
    assert_eq!(text("$1"), Err(ParseError));
    assert_eq!(text(""), Err(ParseError));
}

// `$` opens the placeholder `{1:expression}`, a tabstop whose default
// content is the text "expression"; the `:` after its closing bracket is what
// is left of the input.
#[test]
fn test_non_text() {
    assert_eq!(
        non_text_token("${1:expression}:"),
        Ok((":", ComponentType::Tabstop(1, vec![txt("expression")])))
    );
}

#[test]
fn non_text_token_reads_raw_forms() {
    assert_eq!(
        non_text_token("$12 rest"),
        Ok((" rest", ComponentType::ReadyComponent(Component::Tabstop(Tabstop { number: 12, content: vec![] }))))
    );
    assert_eq!(non_text_token("$!if"), Ok(("", ComponentType::Snippet("if".to_string()))));
    assert_eq!(
        non_text_token("$TM_SELECTED_TEXT"),
        Ok(("", ComponentType::ReadyComponent(Component::Var(Functor { name: "TM_SELECTED_TEXT".to_string(), transform: None }))))
    );
    assert_eq!(
        non_text_token("$_a1 b"),
        Ok((" b", ComponentType::ReadyComponent(Component::Var(Functor { name: "_a1".to_string(), transform: None }))))
    );
    assert_eq!(non_text_token("if"), Err(ParseError));
    assert_eq!(non_text_token("$ "), Err(ParseError));
}

#[test]
fn tabstop_number_wraps_like_a_cast() {
    assert_eq!(
        non_text_token("$4294967295"),
        Ok(("", ComponentType::ReadyComponent(Component::Tabstop(Tabstop { number: -1, content: vec![] }))))
    );
    // too large for u32, and a variable name cannot start with a digit
    assert_eq!(non_text_token("$4294967296"), Err(ParseError));
}

#[test]
fn nested_forms() {
    assert_eq!(nested_component("{1}"), Ok(("", ComponentType::Tabstop(1, vec![]))));
    assert_eq!(nested_component("{1:}x"), Ok(("x", ComponentType::Tabstop(1, vec![txt("")]))));
    assert_eq!(
        nested_component("{1|one,two|}"),
        Ok(("", ComponentType::Tabstop(1, vec![txt("one"), txt("two")])))
    );
    assert_eq!(nested_component("{!elif}"), Ok(("", ComponentType::Snippet("elif".to_string()))));
    assert_eq!(
        nested_component("{NAME/(.*)/x/}"),
        Ok(("", ComponentType::ReadyComponent(Component::Var(Functor {
            name: "NAME".to_string(),
            transform: Some("(.*)/x/".to_string())
        }))))
    );
    assert_eq!(
        non_text_token(r"${TM_FILENAME/(.*)\..+$/$1/}"),
        Ok(("", ComponentType::ReadyComponent(Component::Var(Functor {
            name: "TM_FILENAME".to_string(),
            transform: Some(r"(.*)\..+$/$1/".to_string())
        }))))
    );
    assert_eq!(
        nested_component("{NAME}"),
        Ok(("", ComponentType::ReadyComponent(Component::Var(Functor { name: "NAME".to_string(), transform: None }))))
    );
    assert_eq!(nested_component("{1|one,|}"), Err(ParseError));
    assert_eq!(nested_component("{1:abc"), Err(ParseError));
    assert_eq!(nested_component("{1:${!if}}"), Err(ParseError));
}

#[test]
fn snippet_lines_are_split_into_pieces() {
    let snips = Snips::new();
    assert_eq!(
        snippet_component(&snips.ifv[0]),
        vec![
            ComponentType::ReadyComponent(txt("if ")),
            ComponentType::Tabstop(1, vec![txt("expression")]),
            ComponentType::ReadyComponent(txt(":")),
        ]
    );
    assert_eq!(
        snippet_component(&snips.elifv[1]),
        vec![ComponentType::ReadyComponent(txt("\t")), ComponentType::Tabstop(1, vec![txt("pass")])]
    );
    assert_eq!(snippet_component(&snips.ifelifelsev[1]), vec![ComponentType::Snippet("elif".to_string())]);
}

#[test]
fn plain_line_is_one_text() {
    let snips = Snips::new();
    assert_eq!(snippet_component(&snips.elsev[0]), vec![ComponentType::ReadyComponent(txt("else:"))]);
    assert_eq!(snippet_component(""), vec![]);
}

#[test]
fn line_with_broken_dollar_gives_nothing() {
    assert_eq!(snippet_component("a $ b"), vec![]);
    assert_eq!(snippet_component("x ${A/b"), vec![]);
}
