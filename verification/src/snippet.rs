use vstd::prelude::*;

verus! {

/// The view of a list of strings: the character sequence of each entry.
pub open spec fn strings_view(v: Seq<String>) -> Seq<Seq<char>> {
    v.map_values(|s: String| s@)
}

/// Copies a list of strings entry by entry.
pub fn duplicate_strings(v: &Vec<String>) -> (r: Vec<String>)
    ensures
        strings_view(r@) == strings_view(v@),
{
    let mut r: Vec<String> = Vec::new();
    for i in 0..v.len()
        invariant
            r@.len() == i,
            i <= v@.len(),
            forall|j: int| 0 <= j < i ==> #[trigger] r@[j]@ == v@[j]@,
    {
        r.push(v[i].clone());
    }
    assert(strings_view(r@) =~= strings_view(v@));
    r
}

/// The actions a snippet may ask for when it is triggered.
#[derive(Clone, Debug)]
pub enum Actions {
    Load(Vec<String>),
    Enable(Vec<String>),
    Disable(Vec<String>),
}

pub enum ActionsView {
    Load(Seq<Seq<char>>),
    Enable(Seq<Seq<char>>),
    Disable(Seq<Seq<char>>),
}

impl View for Actions {
    type V = ActionsView;

    open spec fn view(&self) -> ActionsView {
        match self {
            Actions::Load(v) => ActionsView::Load(strings_view(v@)),
            Actions::Enable(v) => ActionsView::Enable(strings_view(v@)),
            Actions::Disable(v) => ActionsView::Disable(strings_view(v@)),
        }
    }
}

impl Actions {
    pub fn duplicate(&self) -> (r: Actions)
        ensures
            r@ == self@,
    {
        match self {
            Actions::Load(v) => Actions::Load(duplicate_strings(v)),
            Actions::Enable(v) => Actions::Enable(duplicate_strings(v)),
            Actions::Disable(v) => Actions::Disable(duplicate_strings(v)),
        }
    }
}

/// The view of a list of actions.
pub open spec fn actions_view(v: Seq<Actions>) -> Seq<ActionsView> {
    v.map_values(|a: Actions| a@)
}

/// The kind of a snippet.
#[derive(Clone, Copy, Debug, PartialEq, Eq, Structural)]
pub enum SnippetTypes {
    Shorthand,
    Statement,
    Expression,
    Template,
}

/// A snippet as it is stored: its trigger (`prefix`), its body lines, its
/// description and the flags that describe how it is used.
#[derive(Clone, Debug)]
pub struct Snippet {
    pub prefix: String,
    pub snippet_type: SnippetTypes,
    pub body: Vec<String>,
    pub description: String,
    pub is_conditional: bool,
    pub actions: Vec<Actions>,
    pub requires_assembly: bool,
}

pub struct SnippetView {
    pub prefix: Seq<char>,
    pub snippet_type: SnippetTypes,
    pub body: Seq<Seq<char>>,
    pub description: Seq<char>,
    pub is_conditional: bool,
    pub actions: Seq<ActionsView>,
    pub requires_assembly: bool,
}

impl View for Snippet {
    type V = SnippetView;

    open spec fn view(&self) -> SnippetView {
        SnippetView {
            prefix: self.prefix@,
            snippet_type: self.snippet_type,
            body: strings_view(self.body@),
            description: self.description@,
            is_conditional: self.is_conditional,
            actions: actions_view(self.actions@),
            requires_assembly: self.requires_assembly,
        }
    }
}

impl Snippet {
    /// Copies a snippet field by field.
    pub fn duplicate(&self) -> (r: Snippet)
        ensures
            r@ == self@,
    {
        let mut actions: Vec<Actions> = Vec::new();
        for i in 0..self.actions.len()
            invariant
                actions@.len() == i,
                i <= self.actions@.len(),
                forall|j: int| 0 <= j < i ==> #[trigger] actions@[j]@ == self.actions@[j]@,
        {
            actions.push(self.actions[i].duplicate());
        }
        assert(actions_view(actions@) =~= actions_view(self.actions@));
        Snippet {
            prefix: self.prefix.clone(),
            snippet_type: self.snippet_type,
            body: duplicate_strings(&self.body),
            description: self.description.clone(),
            is_conditional: self.is_conditional,
            actions,
            requires_assembly: self.requires_assembly,
        }
    }
}

/// The type a snippet has when its definition names none.
pub fn default_snippet_type() -> (t: SnippetTypes)
    ensures
        t == SnippetTypes::Shorthand,
{
    SnippetTypes::Shorthand
}

/// A snippet is unconditional unless its definition says otherwise.
pub fn unconditional() -> (b: bool)
    ensures
        !b,
{
    false
}

/// A snippet has no actions unless its definition lists some.
pub fn no_action() -> (v: Vec<Actions>)
    ensures
        v@.len() == 0,
{
    Vec::new()
}

/// A snippet needs assembly unless its definition says otherwise.
pub fn assembly_required() -> (b: bool)
    ensures
        b,
{
    true
}

/// The contents of one snippet file: each snippet under its name, in file order.
#[derive(Clone, Debug)]
pub struct Loader {
    pub snippets: Vec<(String, Snippet)>,
}

/// Tracks the snippets that belong to one group (a snippet set) and how many
/// targets require the group; the count decides when the group can be dropped.
#[derive(Clone, Debug)]
pub struct SnippetSet {
    pub contents: Vec<String>,
    pub(crate) target_counter: i32,
}

/// What a snippet set holds: the names of its snippets and the number of
/// targets that require it.
pub struct SnippetSetView {
    pub contents: Seq<Seq<char>>,
    pub target_counter: int,
}

impl View for SnippetSet {
    type V = SnippetSetView;

    closed spec fn view(&self) -> SnippetSetView {
        SnippetSetView { contents: strings_view(self.contents@), target_counter: self.target_counter as int }
    }
}

/// A set after one more target requires it.
pub open spec fn incremented(v: SnippetSetView) -> SnippetSetView {
    SnippetSetView { target_counter: v.target_counter + 1, ..v }
}

/// What dropping a target tells a set: whether the set can be dropped (no
/// other target requires it), and the set after it; the count falls by one
/// unless the set is dropped.
pub open spec fn decremented(v: SnippetSetView) -> (bool, SnippetSetView) {
    if v.target_counter <= 1 {
        (true, v)
    } else {
        (false, SnippetSetView { target_counter: v.target_counter - 1, ..v })
    }
}

/// The set after `n` more targets require it.
pub open spec fn increments(v: SnippetSetView, n: nat) -> SnippetSetView
    decreases n,
{
    if n == 0 {
        v
    } else {
        incremented(increments(v, (n - 1) as nat))
    }
}

/// The set after `n` targets were dropped from it.
pub open spec fn decrements(v: SnippetSetView, n: nat) -> SnippetSetView
    decreases n,
{
    if n == 0 {
        v
    } else {
        decremented(decrements(v, (n - 1) as nat)).1
    }
}

proof fn lemma_increments(v: SnippetSetView, n: nat)
    ensures
        increments(v, n).target_counter == v.target_counter + n,
        increments(v, n).contents == v.contents,
    decreases n,
{
    if n > 0 {
        lemma_increments(v, (n - 1) as nat);
    }
}

proof fn lemma_decrements(v: SnippetSetView, k: nat)
    requires
        v.target_counter - k >= 1,
    ensures
        decrements(v, k).target_counter == v.target_counter - k,
    decreases k,
{
    if k > 0 {
        lemma_decrements(v, (k - 1) as nat);
    }
}

/// Law: a new set, required by one target, then by `n` more, tells the first
/// `n` dropped targets to keep it and the next one to drop it: the set is
/// dropped exactly when its last target is dropped.
pub proof fn law_counter_rounds(v: SnippetSetView, n: nat)
    requires
        v.target_counter == 1,
    ensures
        forall|k: nat| k < n ==> !#[trigger] decremented(decrements(increments(v, n), k)).0,
        decremented(decrements(increments(v, n), n)).0,
{
    lemma_increments(v, n);
    assert forall|k: nat| k < n implies !#[trigger] decremented(decrements(increments(v, n), k)).0 by {
        lemma_decrements(increments(v, n), k);
    }
    lemma_decrements(increments(v, n), n);
}

/// The names a snippet set lists are those of its public `contents` field.
pub(crate) broadcast proof fn lemma_snippet_set_contents(s: SnippetSet)
    ensures
        #[trigger] s@.contents == strings_view(s.contents@),
{
}

impl SnippetSet {
    /// A new set is required by the one target that asked for it.
    pub fn new(contents: Vec<String>) -> (r: Self)
        ensures
            r@.contents == strings_view(contents@),
            r@.target_counter == 1,
    {
        Self { contents, target_counter: 1 }
    }

    /// Copies the set: its names and its count.
    pub fn duplicate(&self) -> (r: Self)
        ensures
            r@ == self@,
    {
        Self { contents: duplicate_strings(&self.contents), target_counter: self.target_counter }
    }

    /// Records one more target that requires the set.
    pub fn increment_target_count(&mut self)
        requires
            old(self)@.target_counter < i32::MAX,
        ensures
            final(self)@ == incremented(old(self)@),
    {
        self.target_counter += 1;
    }

    /// Run when a target is dropped; the result says whether the snippets of
    /// this set are no longer needed and should be dropped.
    pub fn decrement_target_count(&mut self) -> (drop_set: bool)
        ensures
            (drop_set, final(self)@) == decremented(old(self)@),
    {
        if self.target_counter > 1 {
            self.target_counter -= 1;
            false
        } else {
            true
        }
    }

    /// Whether the count of targets is still below the largest count a set
    /// can record.
    pub fn can_add_target(&self) -> (b: bool)
        ensures
            b == (self@.target_counter < i32::MAX),
    {
        self.target_counter < i32::MAX
    }
}

} // verus!
