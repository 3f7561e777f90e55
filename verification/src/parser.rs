use vstd::prelude::*;
use crate::proto::{
    Component, ComponentView, Functor, SnippetComponent, Tabstop, components_view, wrapped_view,
    wrap_components, snippet_components_view, opt_string_view,
};

verus! {

// ---------------------------------------------------------------------------
// Character classes (ASCII, as the snippet syntax uses them)
// ---------------------------------------------------------------------------

pub open spec fn is_digit(c: char) -> bool {
    '0' <= c && c <= '9'
}

pub open spec fn is_alpha(c: char) -> bool {
    ('a' <= c && c <= 'z') || ('A' <= c && c <= 'Z')
}

pub open spec fn is_alnum(c: char) -> bool {
    is_digit(c) || is_alpha(c)
}

/// A character that may start a variable name: a letter or `_`.
pub open spec fn is_var_start(c: char) -> bool {
    is_alpha(c) || c == '_'
}

pub open spec fn is_space(c: char) -> bool {
    c == ' ' || c == '\t' || c == '\r' || c == '\n'
}

/// The classes of characters that the parser reads runs of.
#[derive(Clone, Copy, PartialEq, Eq, Structural)]
pub enum CharClass {
    Digit,
    Alpha,
    Alnum,
    /// letters, digits and `_`: the rest of a variable name
    VarName,
    Space,
    /// anything but `$`
    Raw,
    /// anything but `$` and `}`
    PlaceholderRaw,
    /// anything but `}`
    UntilBrace,
}

pub open spec fn in_class(k: CharClass, c: char) -> bool {
    match k {
        CharClass::Digit => is_digit(c),
        CharClass::Alpha => is_alpha(c),
        CharClass::Alnum => is_alnum(c),
        CharClass::VarName => is_alnum(c) || c == '_',
        CharClass::Space => is_space(c),
        CharClass::Raw => c != '$',
        CharClass::PlaceholderRaw => c != '$' && c != '}',
        CharClass::UntilBrace => c != '}',
    }
}

/// The end of the longest run of characters of class `k` that starts at `i`.
pub open spec fn scan(s: Seq<char>, i: int, k: CharClass) -> int
    decreases s.len() - i,
{
    if 0 <= i < s.len() && in_class(k, s[i]) {
        scan(s, i + 1, k)
    } else {
        i
    }
}

pub proof fn lemma_scan(s: Seq<char>, i: int, k: CharClass)
    requires
        0 <= i <= s.len(),
    ensures
        i <= scan(s, i, k) <= s.len(),
        forall|m: int| i <= m < scan(s, i, k) ==> in_class(k, #[trigger] s[m]),
        scan(s, i, k) < s.len() ==> !in_class(k, s[scan(s, i, k)]),
    decreases s.len() - i,
{
    if i < s.len() && in_class(k, s[i]) {
        lemma_scan(s, i + 1, k);
    }
}

proof fn lemma_scan_is(s: Seq<char>, i: int, j: int, k: CharClass)
    requires
        0 <= i <= j <= s.len(),
        forall|m: int| i <= m < j ==> in_class(k, #[trigger] s[m]),
        j == s.len() || !in_class(k, s[j]),
    ensures
        scan(s, i, k) == j,
    decreases j - i,
{
    if i < j {
        lemma_scan_is(s, i + 1, j, k);
    }
}

/// The number written by the decimal digits `s[i..j]`.
pub open spec fn digits_value(s: Seq<char>, i: int, j: int) -> int
    decreases j - i,
{
    if j <= i {
        0
    } else {
        digits_value(s, i, j - 1) * 10 + (s[j - 1] as int - '0' as int)
    }
}

proof fn lemma_digits_value_grows(s: Seq<char>, i: int, k: int, j: int)
    requires
        i <= k <= j,
        forall|m: int| i <= m < j ==> is_digit(#[trigger] s[m]),
    ensures
        0 <= digits_value(s, i, k) <= digits_value(s, i, j),
    decreases j - k,
{
    if k < j {
        lemma_digits_value_grows(s, i, k, j - 1);
        lemma_digits_value_nonneg(s, i, j - 1);
    } else {
        lemma_digits_value_nonneg(s, i, j);
    }
}

proof fn lemma_digits_value_nonneg(s: Seq<char>, i: int, j: int)
    requires
        forall|m: int| i <= m < j ==> is_digit(#[trigger] s[m]),
    ensures
        0 <= digits_value(s, i, j),
    decreases j - i,
{
    if i < j {
        lemma_digits_value_nonneg(s, i, j - 1);
    }
}

/// A tabstop number read as `u32` and stored as `i32`, as a cast does it.
pub open spec fn u32_as_i32(v: int) -> int {
    if v <= i32::MAX {
        v
    } else {
        v - 0x1_0000_0000
    }
}

// ---------------------------------------------------------------------------
// What the parser produces
// ---------------------------------------------------------------------------

/// A parsed piece of a snippet body: a component ready to be sent, a tabstop
/// with its default content, or the name of another snippet.
#[derive(Debug, PartialEq, Eq)]
pub enum ComponentType {
    ReadyComponent(Component),
    Tabstop(u32, Vec<Component>),
    Snippet(String),
}

pub enum ComponentTypeView {
    ReadyComponent(ComponentView),
    Tabstop(u32, Seq<ComponentView>),
    Snippet(Seq<char>),
}

impl View for ComponentType {
    type V = ComponentTypeView;

    open spec fn view(&self) -> ComponentTypeView {
        match self {
            ComponentType::ReadyComponent(c) => ComponentTypeView::ReadyComponent(c@),
            ComponentType::Tabstop(n, v) => ComponentTypeView::Tabstop(*n, components_view(v@)),
            ComponentType::Snippet(s) => ComponentTypeView::Snippet(s@),
        }
    }
}

/// The tokens a snippet body can be read into.
#[derive(Debug, PartialEq, Eq)]
pub enum Token {
    TabstopToken(u32, Option<Vec<Token>>),
    TextToken(String),
    VariableToken(String, Option<String>),
    SnippetToken(String),
}

/// The input did not match what the parser expected.
#[derive(Debug, PartialEq, Eq, Structural)]
pub struct ParseError;

pub open spec fn text_view(s: Seq<char>, i: int, j: int) -> ComponentView {
    ComponentView::Text(s.subrange(i, j))
}

// ---------------------------------------------------------------------------
// The grammar
// ---------------------------------------------------------------------------

/// Raw text up to the next `$`; at least one character, and a `$` must follow.
pub open spec fn spec_text(s: Seq<char>, i: int) -> Option<(int, ComponentTypeView)> {
    let j = scan(s, i, CharClass::Raw);
    if i < j && j < s.len() {
        Some((j, ComponentTypeView::ReadyComponent(text_view(s, i, j))))
    } else {
        None
    }
}

/// A run of whitespace, possibly empty.
pub open spec fn spec_sp(s: Seq<char>, i: int) -> int {
    scan(s, i, CharClass::Space)
}

/// `1`: a tabstop without arguments.
pub open spec fn spec_tabstop(s: Seq<char>, i: int) -> Option<(int, ComponentTypeView)> {
    let j = scan(s, i, CharClass::Digit);
    if i < j && digits_value(s, i, j) <= u32::MAX {
        Some(
            (
                j,
                ComponentTypeView::ReadyComponent(
                    ComponentView::Tabstop(u32_as_i32(digits_value(s, i, j)) as i32, Seq::empty()),
                ),
            ),
        )
    } else {
        None
    }
}

/// `!name`: the name of another snippet (letters only, possibly empty).
pub open spec fn spec_snippet_name(s: Seq<char>, i: int) -> Option<(int, ComponentTypeView)> {
    if 0 <= i < s.len() && s[i] == '!' {
        let j = scan(s, i + 1, CharClass::Alpha);
        Some((j, ComponentTypeView::Snippet(s.subrange(i + 1, j))))
    } else {
        None
    }
}

/// `{!name}`: a snippet reference inside brackets.
pub open spec fn spec_snippet_object(s: Seq<char>, i: int) -> Option<(int, ComponentTypeView)> {
    spec_snippet_name(s, i)
}

/// The end of a variable name `[_a-zA-Z][_a-zA-Z0-9]*` that starts at `i`;
/// `i` itself when no name starts there.
pub open spec fn var_name_end(s: Seq<char>, i: int) -> int {
    if 0 <= i < s.len() && is_var_start(s[i]) {
        scan(s, i + 1, CharClass::VarName)
    } else {
        i
    }
}

/// `NAME`: a variable without transform.
pub open spec fn spec_variable(s: Seq<char>, i: int) -> Option<(int, ComponentTypeView)> {
    let j = var_name_end(s, i);
    if i < j {
        Some((j, ComponentTypeView::ReadyComponent(ComponentView::Var(s.subrange(i, j), None))))
    } else {
        None
    }
}

/// `NAME` or `NAME/transform` inside brackets; the transform runs up to the next `}`.
pub open spec fn spec_nested_variable(s: Seq<char>, i: int) -> Option<(int, ComponentTypeView)> {
    let j = var_name_end(s, i);
    let name = s.subrange(i, j);
    if i < j {
        if j < s.len() && s[j] == '/' && scan(s, j + 1, CharClass::UntilBrace) < s.len() {
            let k = scan(s, j + 1, CharClass::UntilBrace);
            Some((k, ComponentTypeView::ReadyComponent(ComponentView::Var(name, Some(s.subrange(j + 1, k))))))
        } else {
            Some((j, ComponentTypeView::ReadyComponent(ComponentView::Var(name, None))))
        }
    } else {
        None
    }
}

/// What follows `$` without brackets: a tabstop, a snippet name or a variable, tried in that order.
pub open spec fn spec_raw_component(s: Seq<char>, i: int) -> Option<(int, ComponentTypeView)> {
    match spec_tabstop(s, i) {
        Some(r) => Some(r),
        None => match spec_snippet_name(s, i) {
            Some(r) => Some(r),
            None => spec_variable(s, i),
        },
    }
}

/// The alternatives after the first one in `|one,two|`: each `,` followed by letters or digits.
pub open spec fn spec_choice_rest(s: Seq<char>, j: int) -> (int, Seq<ComponentView>)
    decreases s.len() - j,
{
    if 0 <= j < s.len() && s[j] == ',' {
        let k = scan(s, j + 1, CharClass::Alnum);
        proof {
            lemma_scan(s, j + 1, CharClass::Alnum);
        }
        if j + 1 < k {
            let (e, rest) = spec_choice_rest(s, k);
            (e, seq![text_view(s, j + 1, k)] + rest)
        } else {
            (j, Seq::empty())
        }
    } else {
        (j, Seq::empty())
    }
}

/// `one,two|`: the alternatives of a choice, up to and with the closing `|`.
pub open spec fn spec_choice_list(s: Seq<char>, i: int) -> Option<(int, Seq<ComponentView>)> {
    let j = scan(s, i, CharClass::Alnum);
    if i < j {
        let (e, rest) = spec_choice_rest(s, j);
        if 0 <= e < s.len() && s[e] == '|' {
            Some((e + 1, seq![text_view(s, i, j)] + rest))
        } else {
            None
        }
    } else {
        None
    }
}

/// The component a parsed piece stands for inside a placeholder; a snippet
/// reference has none there.
pub open spec fn as_component(c: ComponentTypeView) -> Option<ComponentView> {
    match c {
        ComponentTypeView::ReadyComponent(v) => Some(v),
        ComponentTypeView::Tabstop(n, args) => Some(ComponentView::Tabstop(u32_as_i32(n as int) as i32, wrapped_view(args))),
        ComponentTypeView::Snippet(_) => None,
    }
}

/// `$...`: a component introduced by `$`, with brackets or without.
pub open spec fn spec_non_text_token(s: Seq<char>, i: int) -> Option<(int, ComponentTypeView)>
    decreases s.len() - i, 0int,
{
    if 0 <= i < s.len() && s[i] == '$' {
        match spec_nested_component(s, i + 1) {
            Some(r) => Some(r),
            None => spec_raw_component(s, i + 1),
        }
    } else {
        None
    }
}

/// `{...}`: a placeholder, a snippet reference or a variable, in brackets.
pub open spec fn spec_nested_component(s: Seq<char>, i: int) -> Option<(int, ComponentTypeView)>
    decreases s.len() - i, 0int,
{
    if 0 <= i < s.len() && s[i] == '{' {
        let inner = match spec_placeholder(s, i + 1) {
            Some(r) => Some(r),
            None => match spec_snippet_object(s, i + 1) {
                Some(r) => Some(r),
                None => spec_nested_variable(s, i + 1),
            },
        };
        match inner {
            Some((k, c)) => if 0 <= k < s.len() && s[k] == '}' {
                Some((k + 1, c))
            } else {
                None
            },
            None => None,
        }
    } else {
        None
    }
}

/// `1:text`, `1|one,two|` or `1`: a tabstop number and its default content.
pub open spec fn spec_placeholder(s: Seq<char>, i: int) -> Option<(int, ComponentTypeView)>
    decreases s.len() - i, 0int,
{
    let j = scan(s, i, CharClass::Digit);
    if 0 <= i < j && j <= s.len() && digits_value(s, i, j) <= u32::MAX {
        match spec_placeholder_arguments(s, j) {
            Some((k, args)) => Some((k, ComponentTypeView::Tabstop(digits_value(s, i, j) as u32, args))),
            None => None,
        }
    } else {
        None
    }
}

/// `:text`, `|one,two|`, or nothing before the closing bracket.
pub open spec fn spec_placeholder_arguments(s: Seq<char>, j: int) -> Option<(int, Seq<ComponentView>)>
    decreases s.len() - j, 0int,
{
    if 0 <= j < s.len() && s[j] == ':' {
        spec_placeholder_text(s, j + 1)
    } else if 0 <= j < s.len() && s[j] == '|' {
        spec_choice_list(s, j + 1)
    } else if 0 <= j < s.len() && s[j] == '}' {
        Some((j, Seq::empty()))
    } else {
        None
    }
}

/// The content of a placeholder, up to its closing bracket: raw text and
/// nested components.
pub open spec fn spec_placeholder_text(s: Seq<char>, i: int) -> Option<(int, Seq<ComponentView>)>
    decreases s.len() - i, 2int,
{
    spec_placeholder_items(s, i, true)
}

/// The rest of a placeholder's content from `pos`; the first run of raw text
/// is always part of it, later runs only when they are not empty.
pub open spec fn spec_placeholder_items(s: Seq<char>, pos: int, first: bool) -> Option<(int, Seq<ComponentView>)>
    decreases s.len() - pos, 1int,
{
    if 0 <= pos <= s.len() {
        let t = scan(s, pos, CharClass::PlaceholderRaw);
        let head: Seq<ComponentView> = if first || pos < t {
            seq![text_view(s, pos, t)]
        } else {
            Seq::empty()
        };
        proof {
            lemma_scan(s, pos, CharClass::PlaceholderRaw);
        }
        if t < s.len() && s[t] == '$' {
            match spec_non_text_token(s, t) {
                Some((k, ct)) => match as_component(ct) {
                    Some(c) => if t < k <= s.len() {
                        match spec_placeholder_items(s, k, false) {
                            Some((e, rest)) => Some((e, head + seq![c] + rest)),
                            None => None,
                        }
                    } else {
                        None
                    },
                    None => None,
                },
                None => None,
            }
        } else {
            Some((t, head))
        }
    } else {
        None
    }
}

/// The pieces of a snippet line from `pos` to its end: raw text and the
/// components introduced by `$`; `None` when some `$` starts no component.
pub open spec fn spec_components_from(s: Seq<char>, pos: int) -> Option<Seq<ComponentTypeView>>
    decreases s.len() - pos,
{
    if pos < 0 || pos >= s.len() {
        Some(Seq::empty())
    } else if s[pos] != '$' {
        let j = scan(s, pos, CharClass::Raw);
        proof {
            lemma_scan(s, pos, CharClass::Raw);
        }
        match spec_components_from(s, j) {
            Some(rest) => Some(seq![ComponentTypeView::ReadyComponent(text_view(s, pos, j))] + rest),
            None => None,
        }
    } else {
        match spec_non_text_token(s, pos) {
            Some((k, c)) => if pos < k <= s.len() {
                match spec_components_from(s, k) {
                    Some(rest) => Some(seq![c] + rest),
                    None => None,
                }
            } else {
                None
            },
            None => None,
        }
    }
}

/// The pieces of a whole snippet line; nothing when the line does not parse.
pub open spec fn spec_snippet_component(s: Seq<char>) -> Seq<ComponentTypeView> {
    match spec_components_from(s, 0) {
        Some(v) => v,
        None => Seq::empty(),
    }
}


// ---------------------------------------------------------------------------
// Reading the input
// ---------------------------------------------------------------------------

/// The characters of a string, in order.
pub fn chars_of(s: &str) -> (v: Vec<char>)
    ensures
        v@ == s@,
{
    let n = s.unicode_len();
    let mut v: Vec<char> = Vec::new();
    for i in 0..n
        invariant
            n == s@.len(),
            v@ == s@.take(i as int),
    {
        let c = s.get_char(i);
        v.push(c);
        assert(v@ =~= s@.take(i + 1));
    }
    assert(s@.take(n as int) =~= s@);
    v
}

fn in_class_exec(k: CharClass, c: char) -> (b: bool)
    ensures
        b == in_class(k, c),
{
    match k {
        CharClass::Digit => '0' <= c && c <= '9',
        CharClass::Alpha => ('a' <= c && c <= 'z') || ('A' <= c && c <= 'Z'),
        CharClass::Alnum => ('0' <= c && c <= '9') || ('a' <= c && c <= 'z') || ('A' <= c && c <= 'Z'),
        CharClass::VarName => ('0' <= c && c <= '9') || ('a' <= c && c <= 'z') || ('A' <= c && c <= 'Z') || c == '_',
        CharClass::Space => c == ' ' || c == '\t' || c == '\r' || c == '\n',
        CharClass::Raw => c != '$',
        CharClass::PlaceholderRaw => c != '$' && c != '}',
        CharClass::UntilBrace => c != '}',
    }
}

/// The end of the run of characters of class `k` from `i`.
fn scan_exec(cs: &Vec<char>, i: usize, k: CharClass) -> (j: usize)
    requires
        i <= cs@.len(),
    ensures
        j as int == scan(cs@, i as int, k),
        i <= j <= cs@.len(),
{
    let mut j = i;
    while j < cs.len() && in_class_exec(k, cs[j])
        invariant
            i <= j <= cs@.len(),
            forall|m: int| i <= m < j ==> in_class(k, #[trigger] cs@[m]),
        decreases cs@.len() - j,
    {
        j += 1;
    }
    proof {
        lemma_scan_is(cs@, i as int, j as int, k);
    }
    j
}

/// The number written by the digits `cs[i..j]`, when it fits in `u32`.
fn parse_u32(cs: &Vec<char>, i: usize, j: usize) -> (r: Option<u32>)
    requires
        i <= j <= cs@.len(),
        forall|m: int| i <= m < j ==> is_digit(#[trigger] cs@[m]),
    ensures
        match r {
            Some(v) => v as int == digits_value(cs@, i as int, j as int),
            None => digits_value(cs@, i as int, j as int) > u32::MAX,
        },
{
    let mut acc: u64 = 0;
    let mut m = i;
    while m < j
        invariant
            i <= m <= j <= cs@.len(),
            forall|q: int| i <= q < j ==> is_digit(#[trigger] cs@[q]),
            acc as int == digits_value(cs@, i as int, m as int),
            acc <= u32::MAX,
        decreases j - m,
    {
        let d = (cs[m] as u32 - '0' as u32) as u64;
        assert(is_digit(cs@[m as int]));
        acc = acc * 10 + d;
        m += 1;
        if acc > 0xFFFF_FFFF {
            proof {
                lemma_digits_value_grows(cs@, i as int, m as int, j as int);
            }
            return None;
        }
    }
    Some(acc as u32)
}

/// A tabstop number read as `u32`, stored as `i32` the way a cast does it.
pub fn to_i32(v: u32) -> (r: i32)
    ensures
        r as int == u32_as_i32(v as int),
{
    if v <= 0x7FFF_FFFF {
        v as i32
    } else {
        let low = (v - 0x8000_0000) as i32;
        low - 0x4000_0000 - 0x4000_0000
    }
}

/// The characters `i..j` of `src` as a new string.
fn substring(src: &str, i: usize, j: usize) -> (r: String)
    requires
        i <= j <= src@.len(),
    ensures
        r@ == src@.subrange(i as int, j as int),
{
    src.substring_char(i, j).to_owned()
}

pub open spec fn result_matches(r: Option<(usize, ComponentType)>, sp: Option<(int, ComponentTypeView)>) -> bool {
    match sp {
        Some((j, v)) => match r {
            Some((k, c)) => k as int == j && c@ == v,
            None => false,
        },
        None => r is None,
    }
}

pub open spec fn list_matches(r: Option<(usize, Vec<Component>)>, sp: Option<(int, Seq<ComponentView>)>) -> bool {
    match sp {
        Some((j, v)) => match r {
            Some((k, c)) => k as int == j && components_view(c@) == v,
            None => false,
        },
        None => r is None,
    }
}

/// The position after a parsed piece lies past the start and within the input.
pub open spec fn advances(r: Option<(usize, ComponentType)>, i: int, len: int) -> bool {
    r matches Some((k, _)) ==> i < k <= len
}

// ---------------------------------------------------------------------------
// The grammar, executable
// ---------------------------------------------------------------------------

fn text_at(src: &str, cs: &Vec<char>, i: usize) -> (r: Option<(usize, ComponentType)>)
    requires
        cs@ == src@,
        i <= cs@.len(),
    ensures
        result_matches(r, spec_text(cs@, i as int)),
        advances(r, i as int, cs@.len() as int),
{
    let j = scan_exec(cs, i, CharClass::Raw);
    if i < j && j < cs.len() {
        Some((j, ComponentType::ReadyComponent(Component::Text(substring(src, i, j)))))
    } else {
        None
    }
}

/// The end of the run of whitespace that starts at `i`.
pub fn sp(cs: &Vec<char>, i: usize) -> (j: usize)
    requires
        i <= cs@.len(),
    ensures
        j as int == spec_sp(cs@, i as int),
{
    scan_exec(cs, i, CharClass::Space)
}

fn tabstop(src: &str, cs: &Vec<char>, i: usize) -> (r: Option<(usize, ComponentType)>)
    requires
        cs@ == src@,
        i <= cs@.len(),
    ensures
        result_matches(r, spec_tabstop(cs@, i as int)),
        advances(r, i as int, cs@.len() as int),
{
    let j = scan_exec(cs, i, CharClass::Digit);
    proof {
        lemma_scan(cs@, i as int, CharClass::Digit);
    }
    if i < j {
        match parse_u32(cs, i, j) {
            Some(v) => {
                let c = Component::Tabstop(Tabstop { number: to_i32(v), content: Vec::new() });
                proof {
                    assert(snippet_components_view(Seq::<SnippetComponent>::empty()) =~= Seq::empty());
                }
                Some((j, ComponentType::ReadyComponent(c)))
            },
            None => None,
        }
    } else {
        None
    }
}

fn snippet_name(src: &str, cs: &Vec<char>, i: usize) -> (r: Option<(usize, ComponentType)>)
    requires
        cs@ == src@,
        i <= cs@.len(),
    ensures
        result_matches(r, spec_snippet_name(cs@, i as int)),
        advances(r, i as int, cs@.len() as int),
{
    if i < cs.len() && cs[i] == '!' {
        let j = scan_exec(cs, i + 1, CharClass::Alpha);
        Some((j, ComponentType::Snippet(substring(src, i + 1, j))))
    } else {
        None
    }
}

fn snippet_object(src: &str, cs: &Vec<char>, i: usize) -> (r: Option<(usize, ComponentType)>)
    requires
        cs@ == src@,
        i <= cs@.len(),
    ensures
        result_matches(r, spec_snippet_object(cs@, i as int)),
        advances(r, i as int, cs@.len() as int),
{
    snippet_name(src, cs, i)
}

/// The end of the variable name that starts at `i`.
fn var_name_end_exec(cs: &Vec<char>, i: usize) -> (j: usize)
    requires
        i <= cs@.len(),
    ensures
        j as int == var_name_end(cs@, i as int),
        i <= j <= cs@.len(),
{
    if i < cs.len() && (('a' <= cs[i] && cs[i] <= 'z') || ('A' <= cs[i] && cs[i] <= 'Z') || cs[i] == '_') {
        scan_exec(cs, i + 1, CharClass::VarName)
    } else {
        i
    }
}

fn variable(src: &str, cs: &Vec<char>, i: usize) -> (r: Option<(usize, ComponentType)>)
    requires
        cs@ == src@,
        i <= cs@.len(),
    ensures
        result_matches(r, spec_variable(cs@, i as int)),
        advances(r, i as int, cs@.len() as int),
{
    let j = var_name_end_exec(cs, i);
    if i < j {
        let f = Functor { name: substring(src, i, j), transform: None };
        Some((j, ComponentType::ReadyComponent(Component::Var(f))))
    } else {
        None
    }
}

fn nested_variable(src: &str, cs: &Vec<char>, i: usize) -> (r: Option<(usize, ComponentType)>)
    requires
        cs@ == src@,
        i <= cs@.len(),
    ensures
        result_matches(r, spec_nested_variable(cs@, i as int)),
        advances(r, i as int, cs@.len() as int),
{
    let j = var_name_end_exec(cs, i);
    if i < j {
        let name = substring(src, i, j);
        if j < cs.len() && cs[j] == '/' {
            let k = scan_exec(cs, j + 1, CharClass::UntilBrace);
            if k < cs.len() {
                let f = Functor { name, transform: Some(substring(src, j + 1, k)) };
                return Some((k, ComponentType::ReadyComponent(Component::Var(f))));
            }
        }
        let f = Functor { name, transform: None };
        Some((j, ComponentType::ReadyComponent(Component::Var(f))))
    } else {
        None
    }
}

fn raw_component(src: &str, cs: &Vec<char>, i: usize) -> (r: Option<(usize, ComponentType)>)
    requires
        cs@ == src@,
        i <= cs@.len(),
    ensures
        result_matches(r, spec_raw_component(cs@, i as int)),
        advances(r, i as int, cs@.len() as int),
{
    match tabstop(src, cs, i) {
        Some(r) => Some(r),
        None => match snippet_name(src, cs, i) {
            Some(r) => Some(r),
            None => variable(src, cs, i),
        },
    }
}

fn choice_rest(src: &str, cs: &Vec<char>, j: usize) -> (r: (usize, Vec<Component>))
    requires
        cs@ == src@,
        j <= cs@.len(),
    ensures
        r.0 as int == spec_choice_rest(cs@, j as int).0,
        components_view(r.1@) == spec_choice_rest(cs@, j as int).1,
        j <= r.0 <= cs@.len(),
    decreases cs@.len() - j,
{
    if j < cs.len() && cs[j] == ',' {
        let k = scan_exec(cs, j + 1, CharClass::Alnum);
        if j + 1 < k {
            let (e, rest) = choice_rest(src, cs, k);
            let mut v: Vec<Component> = Vec::new();
            v.push(Component::Text(substring(src, j + 1, k)));
            let ghost v1 = v@;
            let mut rest = rest;
            v.append(&mut rest);
            proof {
                assert(components_view(v@) =~= seq![text_view(cs@, j + 1, k as int)] + spec_choice_rest(cs@, k as int).1);
            }
            (e, v)
        } else {
            (j, Vec::new())
        }
    } else {
        (j, Vec::new())
    }
}

fn choice_list(src: &str, cs: &Vec<char>, i: usize) -> (r: Option<(usize, Vec<Component>)>)
    requires
        cs@ == src@,
        i <= cs@.len(),
    ensures
        list_matches(r, spec_choice_list(cs@, i as int)),
        r matches Some((k, _)) ==> i < k <= cs@.len(),
{
    let j = scan_exec(cs, i, CharClass::Alnum);
    if i < j {
        let (e, rest) = choice_rest(src, cs, j);
        if e < cs.len() && cs[e] == '|' {
            let mut v: Vec<Component> = Vec::new();
            v.push(Component::Text(substring(src, i, j)));
            let mut rest = rest;
            let ghost r0 = rest@;
            v.append(&mut rest);
            proof {
                assert(components_view(v@) =~= seq![text_view(cs@, i as int, j as int)] + components_view(r0));
            }
            Some((e + 1, v))
        } else {
            None
        }
    } else {
        None
    }
}

fn as_component_exec(c: ComponentType) -> (r: Option<Component>)
    ensures
        match as_component(c@) {
            Some(v) => r is Some && r->0@ == v,
            None => r is None,
        },
{
    match c {
        ComponentType::ReadyComponent(c) => Some(c),
        ComponentType::Tabstop(n, args) => Some(Component::Tabstop(Tabstop { number: to_i32(n), content: wrap_components(args) })),
        ComponentType::Snippet(_) => None,
    }
}

fn non_text_token_at(src: &str, cs: &Vec<char>, i: usize) -> (r: Option<(usize, ComponentType)>)
    requires
        cs@ == src@,
        i <= cs@.len(),
    ensures
        result_matches(r, spec_non_text_token(cs@, i as int)),
        advances(r, i as int, cs@.len() as int),
    decreases cs@.len() - i, 0int,
{
    if i < cs.len() && cs[i] == '$' {
        match nested_component_at(src, cs, i + 1) {
            Some(r) => Some(r),
            None => raw_component(src, cs, i + 1),
        }
    } else {
        None
    }
}

fn nested_component_at(src: &str, cs: &Vec<char>, i: usize) -> (r: Option<(usize, ComponentType)>)
    requires
        cs@ == src@,
        i <= cs@.len(),
    ensures
        result_matches(r, spec_nested_component(cs@, i as int)),
        advances(r, i as int, cs@.len() as int),
    decreases cs@.len() - i, 0int,
{
    if i < cs.len() && cs[i] == '{' {
        let inner = match placeholder(src, cs, i + 1) {
            Some(r) => Some(r),
            None => match snippet_object(src, cs, i + 1) {
                Some(r) => Some(r),
                None => nested_variable(src, cs, i + 1),
            },
        };
        match inner {
            Some((k, c)) => if k < cs.len() && cs[k] == '}' {
                Some((k + 1, c))
            } else {
                None
            },
            None => None,
        }
    } else {
        None
    }
}

fn placeholder(src: &str, cs: &Vec<char>, i: usize) -> (r: Option<(usize, ComponentType)>)
    requires
        cs@ == src@,
        i <= cs@.len(),
    ensures
        result_matches(r, spec_placeholder(cs@, i as int)),
        advances(r, i as int, cs@.len() as int),
    decreases cs@.len() - i, 0int,
{
    let j = scan_exec(cs, i, CharClass::Digit);
    proof {
        lemma_scan(cs@, i as int, CharClass::Digit);
    }
    if i < j {
        match parse_u32(cs, i, j) {
            Some(v) => match placeholder_arguments(src, cs, j) {
                Some((k, args)) => Some((k, ComponentType::Tabstop(v, args))),
                None => None,
            },
            None => None,
        }
    } else {
        None
    }
}

fn placeholder_arguments(src: &str, cs: &Vec<char>, j: usize) -> (r: Option<(usize, Vec<Component>)>)
    requires
        cs@ == src@,
        j <= cs@.len(),
    ensures
        list_matches(r, spec_placeholder_arguments(cs@, j as int)),
        r matches Some((k, _)) ==> j <= k <= cs@.len(),
    decreases cs@.len() - j, 0int,
{
    if j < cs.len() && cs[j] == ':' {
        placeholder_text(src, cs, j + 1)
    } else if j < cs.len() && cs[j] == '|' {
        choice_list(src, cs, j + 1)
    } else if j < cs.len() && cs[j] == '}' {
        let v: Vec<Component> = Vec::new();
        assert(components_view(v@) =~= Seq::empty());
        Some((j, v))
    } else {
        None
    }
}

fn placeholder_text(src: &str, cs: &Vec<char>, i: usize) -> (r: Option<(usize, Vec<Component>)>)
    requires
        cs@ == src@,
        i <= cs@.len(),
    ensures
        list_matches(r, spec_placeholder_text(cs@, i as int)),
        r matches Some((k, _)) ==> i <= k <= cs@.len(),
    decreases cs@.len() - i, 2int,
{
    placeholder_items(src, cs, i, true)
}

fn placeholder_items(src: &str, cs: &Vec<char>, pos: usize, first: bool) -> (r: Option<(usize, Vec<Component>)>)
    requires
        cs@ == src@,
        pos <= cs@.len(),
    ensures
        list_matches(r, spec_placeholder_items(cs@, pos as int, first)),
        r matches Some((k, _)) ==> pos <= k <= cs@.len(),
    decreases cs@.len() - pos, 1int,
{
    let t = scan_exec(cs, pos, CharClass::PlaceholderRaw);
    let mut head: Vec<Component> = Vec::new();
    if first || pos < t {
        head.push(Component::Text(substring(src, pos, t)));
    }
    let ghost h = head@;
    proof {
        assert(components_view(h) =~= (if first || pos < t {
            seq![text_view(cs@, pos as int, t as int)]
        } else {
            Seq::<ComponentView>::empty()
        }));
    }
    if t < cs.len() && cs[t] == '$' {
        match non_text_token_at(src, cs, t) {
            Some((k, ct)) => match as_component_exec(ct) {
                Some(c) => if t < k && k <= cs.len() {
                    match placeholder_items(src, cs, k, false) {
                        Some((e, rest)) => {
                            let ghost cv = c@;
                            head.push(c);
                            let mut rest = rest;
                            let ghost r0 = rest@;
                            head.append(&mut rest);
                            proof {
                                assert(components_view(head@) =~= components_view(h) + seq![cv] + components_view(r0));
                            }
                            Some((e, head))
                        },
                        None => None,
                    }
                } else {
                    None
                },
                None => None,
            },
            None => None,
        }
    } else {
        Some((t, head))
    }
}

pub open spec fn component_types_view(v: Seq<ComponentType>) -> Seq<ComponentTypeView> {
    v.map_values(|c: ComponentType| c@)
}

/// Reads a snippet line into its pieces: raw text and the components that
/// `$` introduces, in order. A line in which some `$` starts no component
/// gives no pieces at all.
pub fn snippet_component(snippet_string: &str) -> (r: Vec<ComponentType>)
    ensures
        component_types_view(r@) == spec_snippet_component(snippet_string@),
{
    let cs = chars_of(snippet_string);
    let ghost s = cs@;
    let mut acc: Vec<ComponentType> = Vec::new();
    let mut pos: usize = 0;
    assert(component_types_view(acc@) =~= Seq::empty());
    while pos < cs.len()
        invariant
            cs@ == s,
            s == snippet_string@,
            pos <= s.len(),
            spec_components_from(s, 0) == match spec_components_from(s, pos as int) {
                Some(rest) => Some(component_types_view(acc@) + rest),
                None => None,
            },
        decreases s.len() - pos,
    {
        let ghost acc0 = component_types_view(acc@);
        match text_at(snippet_string, &cs, pos) {
            Some((j, c)) => {
                proof {
                    lemma_scan(s, pos as int, CharClass::Raw);
                }
                acc.push(c);
                proof {
                    assert(component_types_view(acc@) =~= acc0 + seq![c@]);
                }
                pos = j;
                proof {
                    match spec_components_from(s, pos as int) {
                        Some(rest) => {
                            assert(acc0 + (seq![c@] + rest) =~= component_types_view(acc@) + rest);
                        },
                        None => {},
                    }
                }
            },
            None => {
                if cs[pos] != '$' {
                    // raw text up to the end of the line
                    let j = scan_exec(&cs, pos, CharClass::Raw);
                    proof {
                        lemma_scan(s, pos as int, CharClass::Raw);
                    }
                    let c = ComponentType::ReadyComponent(Component::Text(substring(snippet_string, pos, j)));
                    acc.push(c);
                    pos = j;
                    proof {
                        assert(j == s.len());
                        assert(spec_components_from(s, j as int) == Some(Seq::<ComponentTypeView>::empty()));
                        assert(component_types_view(acc@) =~= acc0 + seq![c@]);
                        assert(acc0 + (seq![c@] + Seq::<ComponentTypeView>::empty()) =~= component_types_view(acc@) + Seq::<ComponentTypeView>::empty());
                    }
                } else {
                    match non_text_token_at(snippet_string, &cs, pos) {
                        Some((k, c)) => {
                            acc.push(c);
                            let ghost p0 = pos;
                            pos = k;
                            proof {
                                assert(component_types_view(acc@) =~= acc0 + seq![c@]);
                                match spec_components_from(s, pos as int) {
                                    Some(rest) => {
                                        assert(acc0 + (seq![c@] + rest) =~= component_types_view(acc@) + rest);
                                    },
                                    None => {},
                                }
                            }
                        },
                        None => {
                            let empty: Vec<ComponentType> = Vec::new();
                            assert(component_types_view(empty@) =~= Seq::empty());
                            return empty;
                        },
                    }
                }
            },
        }
    }
    proof {
        assert(component_types_view(acc@) + Seq::<ComponentTypeView>::empty() =~= component_types_view(acc@));
    }
    acc
}

/// The result of one parser step on a whole string: the rest of the input
/// and the parsed piece, or an error.
pub open spec fn step_matches(src: Seq<char>, r: Result<(&str, ComponentType), ParseError>, sp: Option<(int, ComponentTypeView)>) -> bool {
    match sp {
        Some((j, v)) => match r {
            Ok((rest, c)) => rest@ == src.subrange(j, src.len() as int) && c@ == v,
            Err(_) => false,
        },
        None => r is Err,
    }
}

/// Raw text at the start of a snippet line, up to the first `$`.
pub fn text(snippet_string: &str) -> (r: Result<(&str, ComponentType), ParseError>)
    ensures
        step_matches(snippet_string@, r, spec_text(snippet_string@, 0)),
{
    let cs = chars_of(snippet_string);
    match text_at(snippet_string, &cs, 0) {
        Some((j, c)) => Ok((snippet_string.substring_char(j, cs.len()), c)),
        None => Err(ParseError),
    }
}

/// A component introduced by `$` at the start of a snippet line.
pub fn non_text_token(snippet_string: &str) -> (r: Result<(&str, ComponentType), ParseError>)
    ensures
        step_matches(snippet_string@, r, spec_non_text_token(snippet_string@, 0)),
{
    let cs = chars_of(snippet_string);
    match non_text_token_at(snippet_string, &cs, 0) {
        Some((j, c)) => Ok((snippet_string.substring_char(j, cs.len()), c)),
        None => Err(ParseError),
    }
}

/// A bracketed component (`{...}`) at the start of a string.
pub fn nested_component(snippet_string: &str) -> (r: Result<(&str, ComponentType), ParseError>)
    ensures
        step_matches(snippet_string@, r, spec_nested_component(snippet_string@, 0)),
{
    let cs = chars_of(snippet_string);
    match nested_component_at(snippet_string, &cs, 0) {
        Some((j, c)) => Ok((snippet_string.substring_char(j, cs.len()), c)),
        None => Err(ParseError),
    }
}

/// Law: a line without `$` is one piece of raw text, the whole line.
pub proof fn law_plain_line_is_text(s: Seq<char>)
    requires
        s.len() > 0,
        forall|i: int| 0 <= i < s.len() ==> #[trigger] s[i] != '$',
    ensures
        spec_snippet_component(s) == seq![ComponentTypeView::ReadyComponent(ComponentView::Text(s))],
{
    lemma_scan_is(s, 0, s.len() as int, CharClass::Raw);
    assert(s.subrange(0, s.len() as int) =~= s);
    assert(spec_components_from(s, s.len() as int) == Some(Seq::<ComponentTypeView>::empty()));
    assert(seq![ComponentTypeView::ReadyComponent(text_view(s, 0, s.len() as int))] + Seq::<ComponentTypeView>::empty()
        =~= seq![ComponentTypeView::ReadyComponent(ComponentView::Text(s))]);
}

/// A word of a choice: one or more letters or digits.
pub open spec fn is_choice_word(w: Seq<char>) -> bool {
    w.len() > 0 && forall|i: int| 0 <= i < w.len() ==> is_alnum(#[trigger] w[i])
}

/// `,w1,w2,...`: each word preceded by a comma.
pub open spec fn comma_words(ws: Seq<Seq<char>>) -> Seq<char>
    decreases ws.len(),
{
    if ws.len() == 0 {
        Seq::empty()
    } else {
        seq![','] + ws[0] + comma_words(ws.drop_first())
    }
}

proof fn lemma_digits_value_shift(s: Seq<char>, ds: Seq<char>, i0: int, k: int)
    requires
        0 <= k <= ds.len(),
        0 <= i0,
        i0 + k <= s.len(),
        forall|m: int| 0 <= m < k ==> s[i0 + m] == #[trigger] ds[m],
    ensures
        digits_value(s, i0, i0 + k) == digits_value(ds, 0, k),
    decreases k,
{
    if k > 0 {
        lemma_digits_value_shift(s, ds, i0, k - 1);
        assert(s[i0 + k - 1] == ds[k - 1]);
    }
}

proof fn lemma_choice_rest_words(s: Seq<char>, j: int, ws: Seq<Seq<char>>)
    requires
        0 <= j,
        forall|i: int| 0 <= i < ws.len() ==> is_choice_word(#[trigger] ws[i]),
        j + comma_words(ws).len() < s.len(),
        forall|m: int| 0 <= m < comma_words(ws).len() ==> s[j + m] == #[trigger] comma_words(ws)[m],
        s[j + comma_words(ws).len()] == '|',
    ensures
        spec_choice_rest(s, j) == (j + comma_words(ws).len(), ws.map_values(|w: Seq<char>| ComponentView::Text(w))),
    decreases ws.len(),
{
    let cw = comma_words(ws);
    if ws.len() == 0 {
        assert(ws.map_values(|w: Seq<char>| ComponentView::Text(w)) =~= Seq::<ComponentView>::empty());
    } else {
        let w0 = ws[0];
        let wr = ws.drop_first();
        let cr = comma_words(wr);
        assert(cw == seq![','] + w0 + cr);
        assert(is_choice_word(w0));
        assert(s[j] == cw[0]);
        let k = j + 1 + w0.len();
        assert forall|m: int| j + 1 <= m < k implies in_class(CharClass::Alnum, #[trigger] s[m]) by {
            assert(s[j + (m - j)] == cw[m - j]);
            assert(cw[m - j] == w0[m - j - 1]);
        }
        if cr.len() > 0 {
            assert(s[j + (1 + w0.len())] == cw[1 + w0.len() as int]);
            assert(cw[1 + w0.len() as int] == cr[0]);
            assert(cr[0] == ',');
        }
        lemma_scan_is(s, j + 1, k, CharClass::Alnum);
        assert forall|i: int| 0 <= i < wr.len() implies is_choice_word(#[trigger] wr[i]) by {
            assert(wr[i] == ws[i + 1]);
        }
        assert forall|m: int| 0 <= m < cr.len() implies s[k + m] == #[trigger] cr[m] by {
            assert(s[j + (1 + w0.len() + m)] == cw[1 + w0.len() + m]);
        }
        lemma_choice_rest_words(s, k, wr);
        assert(s.subrange(j + 1, k) =~= w0) by {
            assert forall|m: int| 0 <= m < w0.len() implies s.subrange(j + 1, k)[m] == w0[m] by {
                assert(s[j + (1 + m)] == cw[1 + m]);
            }
        }
        assert(ws.map_values(|w: Seq<char>| ComponentView::Text(w))
            =~= seq![ComponentView::Text(w0)] + wr.map_values(|w: Seq<char>| ComponentView::Text(w)));
    }
}

/// Law: a choice lists every one of its words: for digits `d` and words
/// `w1, ..., wn` (n >= 1) of letters and digits, `{d|w1,...,wn|}` reads as
/// the tabstop numbered `d` whose content is one text per word, in order,
/// and the whole input is read.
pub proof fn law_choice_lists_every_word(ds: Seq<char>, ws: Seq<Seq<char>>)
    requires
        ds.len() > 0,
        forall|i: int| 0 <= i < ds.len() ==> is_digit(#[trigger] ds[i]),
        digits_value(ds, 0, ds.len() as int) <= u32::MAX,
        ws.len() >= 1,
        forall|i: int| 0 <= i < ws.len() ==> is_choice_word(#[trigger] ws[i]),
    ensures
        ({
            let s = seq!['{'] + ds + seq!['|'] + ws[0] + comma_words(ws.drop_first()) + seq!['|', '}'];
            spec_nested_component(s, 0) == Some((
                s.len() as int,
                ComponentTypeView::Tabstop(
                    digits_value(ds, 0, ds.len() as int) as u32,
                    ws.map_values(|w: Seq<char>| ComponentView::Text(w)),
                ),
            ))
        }),
{
    let w0 = ws[0];
    let wr = ws.drop_first();
    let cr = comma_words(wr);
    let d = ds.len() as int;
    let s = seq!['{'] + ds + seq!['|'] + w0 + cr + seq!['|', '}'];
    let p0 = 2 + d;
    let e = p0 + w0.len() + cr.len();
    assert(s.len() == e + 2);
    assert(s[0] == '{');
    assert forall|m: int| 0 <= m < d implies s[1 + m] == #[trigger] ds[m] by {}
    assert(s[1 + d] == '|');
    assert forall|m: int| 0 <= m < w0.len() implies s[p0 + m] == #[trigger] w0[m] by {}
    assert forall|m: int| 0 <= m < cr.len() implies s[p0 + w0.len() + m] == #[trigger] cr[m] by {}
    assert(s[e] == '|');
    assert(s[e + 1] == '}');
    // the number
    assert forall|m: int| 1 <= m < 1 + d implies in_class(CharClass::Digit, #[trigger] s[m]) by {
        assert(s[1 + (m - 1)] == ds[m - 1]);
    }
    lemma_scan_is(s, 1, 1 + d, CharClass::Digit);
    lemma_digits_value_shift(s, ds, 1, d);
    // the first word
    assert(is_choice_word(w0));
    assert forall|m: int| p0 <= m < p0 + w0.len() implies in_class(CharClass::Alnum, #[trigger] s[m]) by {
        assert(s[p0 + (m - p0)] == w0[m - p0]);
    }
    if cr.len() > 0 {
        assert(s[p0 + w0.len() + 0] == cr[0]);
        assert(cr[0] == ',');
    }
    lemma_scan_is(s, p0, p0 + w0.len(), CharClass::Alnum);
    // the other words
    assert forall|i: int| 0 <= i < wr.len() implies is_choice_word(#[trigger] wr[i]) by {
        assert(wr[i] == ws[i + 1]);
    }
    lemma_choice_rest_words(s, p0 + w0.len(), wr);
    assert(s.subrange(p0, p0 + w0.len()) =~= w0) by {
        assert forall|m: int| 0 <= m < w0.len() implies s.subrange(p0, p0 + w0.len())[m] == w0[m] by {
            assert(s[p0 + m] == w0[m]);
        }
    }
    assert(ws.map_values(|w: Seq<char>| ComponentView::Text(w))
        =~= seq![ComponentView::Text(w0)] + wr.map_values(|w: Seq<char>| ComponentView::Text(w)));
    assert(spec_choice_list(s, p0) == Some((e + 1, ws.map_values(|w: Seq<char>| ComponentView::Text(w)))));
    assert(spec_placeholder_arguments(s, 1 + d) == Some((e + 1, ws.map_values(|w: Seq<char>| ComponentView::Text(w)))));
    assert(spec_placeholder(s, 1) == Some((e + 1, ComponentTypeView::Tabstop(
        digits_value(ds, 0, d) as u32,
        ws.map_values(|w: Seq<char>| ComponentView::Text(w)),
    ))));
}

/// Law: a placeholder with text reads as the tabstop whose content is that
/// text: for digits `d` and text `t` holding neither `$` nor `}`, `{d:t}`
/// reads as the tabstop numbered `d` holding the one text `t`, and the whole
/// input is read.
pub proof fn law_placeholder_keeps_its_text(ds: Seq<char>, t: Seq<char>)
    requires
        ds.len() > 0,
        forall|i: int| 0 <= i < ds.len() ==> is_digit(#[trigger] ds[i]),
        digits_value(ds, 0, ds.len() as int) <= u32::MAX,
        forall|i: int| 0 <= i < t.len() ==> #[trigger] t[i] != '$' && t[i] != '}',
    ensures
        ({
            let s = seq!['{'] + ds + seq![':'] + t + seq!['}'];
            spec_nested_component(s, 0) == Some((
                s.len() as int,
                ComponentTypeView::Tabstop(digits_value(ds, 0, ds.len() as int) as u32, seq![ComponentView::Text(t)]),
            ))
        }),
{
    let d = ds.len() as int;
    let s = seq!['{'] + ds + seq![':'] + t + seq!['}'];
    let p0 = 2 + d;
    let e = p0 + t.len();
    assert(s.len() == e + 1);
    assert(s[0] == '{');
    assert forall|m: int| 0 <= m < d implies s[1 + m] == #[trigger] ds[m] by {}
    assert(s[1 + d] == ':');
    assert forall|m: int| 0 <= m < t.len() implies s[p0 + m] == #[trigger] t[m] by {}
    assert(s[e] == '}');
    assert forall|m: int| 1 <= m < 1 + d implies in_class(CharClass::Digit, #[trigger] s[m]) by {
        assert(s[1 + (m - 1)] == ds[m - 1]);
    }
    lemma_scan_is(s, 1, 1 + d, CharClass::Digit);
    lemma_digits_value_shift(s, ds, 1, d);
    assert forall|m: int| p0 <= m < e implies in_class(CharClass::PlaceholderRaw, #[trigger] s[m]) by {
        assert(s[p0 + (m - p0)] == t[m - p0]);
    }
    lemma_scan_is(s, p0, e, CharClass::PlaceholderRaw);
    assert(s.subrange(p0, e) =~= t) by {
        assert forall|m: int| 0 <= m < t.len() implies s.subrange(p0, e)[m] == t[m] by {
            assert(s[p0 + m] == t[m]);
        }
    }
    assert(spec_placeholder_items(s, p0, true) == Some((e, seq![ComponentView::Text(t)])));
    assert(spec_placeholder_arguments(s, 1 + d) == Some((e, seq![ComponentView::Text(t)])));
}

/// A variable name: a letter or `_`, then letters, digits and `_`.
pub open spec fn is_var_name(n: Seq<char>) -> bool {
    &&& n.len() > 0
    &&& is_var_start(n[0])
    &&& forall|i: int| 0 <= i < n.len() ==> #[trigger] is_alnum(n[i]) || n[i] == '_'
}

/// Law: a bracketed variable with a transform keeps its whole name and its
/// whole transform: for a name `n` and a transform `x` without `}`,
/// `{n/x}` reads as the variable `n` with transform `x`, and the whole input
/// is read.
pub proof fn law_variable_keeps_name_and_transform(n: Seq<char>, x: Seq<char>)
    requires
        is_var_name(n),
        forall|i: int| 0 <= i < x.len() ==> #[trigger] x[i] != '}',
    ensures
        ({
            let s = seq!['{'] + n + seq!['/'] + x + seq!['}'];
            spec_nested_component(s, 0) == Some((
                s.len() as int,
                ComponentTypeView::ReadyComponent(ComponentView::Var(n, Some(x))),
            ))
        }),
{
    let s = seq!['{'] + n + seq!['/'] + x + seq!['}'];
    let j: int = 1 + n.len() as int;
    let e: int = j + 1 + x.len();
    assert(s.len() == e + 1);
    assert(s[0] == '{');
    assert forall|m: int| 0 <= m < n.len() implies s[1 + m] == #[trigger] n[m] by {}
    assert(s[j] == '/');
    assert forall|m: int| 0 <= m < x.len() implies s[j + 1 + m] == #[trigger] x[m] by {}
    assert(s[e] == '}');
    // no placeholder: the name does not start with a digit
    assert(s[1] == n[0]);
    lemma_scan_is(s, 1, 1, CharClass::Digit);
    // no snippet reference
    assert(s[1] != '!');
    assert forall|m: int| 2 <= m < j implies in_class(CharClass::VarName, #[trigger] s[m]) by {
        assert(s[1 + (m - 1)] == n[m - 1]);
    }
    lemma_scan_is(s, 2, j, CharClass::VarName);
    assert forall|m: int| j + 1 <= m < e implies in_class(CharClass::UntilBrace, #[trigger] s[m]) by {
        assert(s[j + 1 + (m - j - 1)] == x[m - j - 1]);
    }
    lemma_scan_is(s, j + 1, e, CharClass::UntilBrace);
    assert(s.subrange(1, j) =~= n) by {
        assert forall|m: int| 0 <= m < n.len() implies s.subrange(1, j)[m] == n[m] by {
            assert(s[1 + m] == n[m]);
        }
    }
    assert(s.subrange(j + 1, e) =~= x) by {
        assert forall|m: int| 0 <= m < x.len() implies s.subrange(j + 1, e)[m] == x[m] by {
            assert(s[j + 1 + m] == x[m]);
        }
    }
    assert(spec_placeholder(s, 1) is None);
    assert(spec_snippet_object(s, 1) is None);
    assert(spec_nested_variable(s, 1) == Some((e, ComponentTypeView::ReadyComponent(ComponentView::Var(n, Some(x))))));
}
} // verus!
