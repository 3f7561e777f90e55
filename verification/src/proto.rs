use vstd::prelude::*;

verus! {

/// What a completion request answers for one snippet: its name and description.
#[derive(Clone, Debug, PartialEq, Eq)]
pub struct SnippetInfo {
    pub name: String,
    pub description: String,
}

pub struct SnippetInfoView {
    pub name: Seq<char>,
    pub description: Seq<char>,
}

impl View for SnippetInfo {
    type V = SnippetInfoView;

    open spec fn view(&self) -> SnippetInfoView {
        SnippetInfoView { name: self.name@, description: self.description@ }
    }
}

impl SnippetInfo {
    pub fn duplicate(&self) -> (r: SnippetInfo)
        ensures
            r@ == self@,
    {
        SnippetInfo { name: self.name.clone(), description: self.description.clone() }
    }
}

/// A snippet variable, with the transform that follows its name, if any.
#[derive(Clone, Debug, PartialEq, Eq)]
pub struct Functor {
    pub name: String,
    pub transform: Option<String>,
}

/// A tabstop: its number and the components of its default content.
#[derive(Debug, PartialEq, Eq)]
pub struct Tabstop {
    pub number: i32,
    pub content: Vec<SnippetComponent>,
}

/// One piece of a snippet as it is sent to an editor.
#[derive(Debug, PartialEq, Eq)]
pub struct SnippetComponent {
    pub component: Option<Component>,
}

#[derive(Debug, PartialEq, Eq)]
pub enum Component {
    Text(String),
    Tabstop(Tabstop),
    Var(Functor),
}

/// The value a component stands for.
pub enum ComponentView {
    Text(Seq<char>),
    Tabstop(i32, Seq<Option<ComponentView>>),
    Var(Seq<char>, Option<Seq<char>>),
}

pub open spec fn opt_string_view(o: Option<String>) -> Option<Seq<char>> {
    match o {
        Some(s) => Some(s@),
        None => None,
    }
}

pub open spec fn component_view(c: Component) -> ComponentView
    decreases c,
{
    match c {
        Component::Text(s) => ComponentView::Text(s@),
        Component::Tabstop(t) => ComponentView::Tabstop(t.number, snippet_components_view(t.content@)),
        Component::Var(f) => ComponentView::Var(f.name@, opt_string_view(f.transform)),
    }
}

pub open spec fn snippet_components_view(v: Seq<SnippetComponent>) -> Seq<Option<ComponentView>>
    decreases v,
{
    if v.len() == 0 {
        Seq::empty()
    } else {
        snippet_components_view(v.drop_last()).push(
            match v.last().component {
                Some(c) => Some(component_view(c)),
                None => None,
            },
        )
    }
}

impl View for Component {
    type V = ComponentView;

    open spec fn view(&self) -> ComponentView {
        component_view(*self)
    }
}

/// The view of a list of components.
pub open spec fn components_view(v: Seq<Component>) -> Seq<ComponentView> {
    v.map_values(|c: Component| c@)
}

/// The view of components each wrapped for sending.
pub open spec fn wrapped_view(v: Seq<ComponentView>) -> Seq<Option<ComponentView>> {
    v.map_values(|c: ComponentView| Some(c))
}

/// Wraps each component for sending.
pub fn wrap_components(v: Vec<Component>) -> (r: Vec<SnippetComponent>)
    ensures
        snippet_components_view(r@) == wrapped_view(components_view(v@)),
{
    let ghost v0 = v@;
    let mut r: Vec<SnippetComponent> = Vec::new();
    let mut v = v;
    while v.len() > 0
        invariant
            v0 == v0.take(r@.len() as int) + v@,
            r@.len() <= v0.len(),
            snippet_components_view(r@) == wrapped_view(components_view(v0.take(r@.len() as int))),
        decreases v.len(),
    {
        let ghost k = r@.len() as int;
        let ghost r_old = r@;
        let c = v.remove(0);
        r.push(SnippetComponent { component: Some(c) });
        proof {
            assert(v0[k] == c);
            assert(r@.drop_last() =~= r_old);
            assert(snippet_components_view(r@) == snippet_components_view(r_old).push(Some(component_view(c))));
            assert(v0.take(k + 1).drop_last() =~= v0.take(k));
            assert(wrapped_view(components_view(v0.take(k + 1))) =~= wrapped_view(
                components_view(v0.take(k)),
            ).push(Some(v0[k]@)));
            assert(v0 =~= v0.take(k + 1) + v@);
        }
    }
    assert(v0.take(v0.len() as int) =~= v0);
    r
}

} // verus!
