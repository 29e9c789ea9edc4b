//! The four primitive prompt specifications an environment can render: a free
//! text input, a yes/no confirmation, a single choice and a multiple choice.
//! Each is plain data; asking happens through the [`crate::Environment`]
//! trait at tree-walk time.

use vstd::prelude::*;

verus! {

/// A free text prompt: a label, an optional default, whether an answer is
/// required, and whether multi-line input is offered.
pub struct Input {
    /// The text shown to the user.
    pub label: String,
    /// The value offered when the user enters nothing.
    pub default: Option<String>,
    /// Whether an empty answer is rejected by the backend.
    pub required: bool,
    /// Whether the backend offers multi-line input.
    pub multiline: bool,
}

/// Starts a text prompt with the given label, no default, not required and
/// single-line.
pub fn input(label: String) -> (q: Input)
    ensures
        q.label == label,
        q.default is None,
        q.required == false,
        q.multiline == false,
{
    Input { label, default: None, required: false, multiline: false }
}

/// A yes/no prompt: a label and the value initially highlighted.
pub struct Confirm {
    /// The text shown to the user.
    pub label: String,
    /// The answer initially highlighted.
    pub default: bool,
}

impl Confirm {
    /// Starts a confirmation with the given label, initially highlighting
    /// `false`.
    pub fn new(label: String) -> (q: Confirm)
        ensures
            q.label == label,
            q.default == false,
    {
        Confirm { label, default: false }
    }

    /// Sets the answer initially highlighted.
    pub fn default(self, value: bool) -> (q: Confirm)
        ensures
            q.label == self.label,
            q.default == value,
    {
        Confirm { label: self.label, default: value }
    }

    /// Sets the answer initially highlighted.
    pub fn initial_value(self, value: bool) -> (q: Confirm)
        ensures
            q.label == self.label,
            q.default == value,
    {
        Confirm { label: self.label, default: value }
    }
}

/// Starts a confirmation with the given label, initially highlighting
/// `false`.
pub fn confirm(label: String) -> (q: Confirm)
    ensures
        q.label == label,
        q.default == false,
{
    Confirm { label, default: false }
}

/// A single-choice prompt: a label and an ordered list of entries, each a
/// `(value, label, hint)` triple. The answer is the index of the chosen
/// entry.
pub struct Select {
    /// The text shown to the user.
    pub label: String,
    /// The entries offered, in order: value, label, hint.
    pub items: Vec<(String, String, String)>,
}

impl Select {
    /// Appends the given entries, keeping their order.
    pub fn items(self, items: Vec<(String, String, String)>) -> (q: Select)
        ensures
            q.label == self.label,
            q.items@ == self.items@ + items@,
    {
        let all = append_entries(self.items, items);
        Select { label: self.label, items: all }
    }

    /// Appends one entry: a value, its label and a hint.
    pub fn item(self, item: String, label: String, hint: String) -> (q: Select)
        ensures
            q.label == self.label,
            q.items@ == self.items@.push((item, label, hint)),
    {
        let mut items = self.items;
        items.push((item, label, hint));
        Select { label: self.label, items }
    }
}

/// Starts a single-choice prompt with the given label and no entries.
pub fn select(label: String) -> (q: Select)
    ensures
        q.label == label,
        q.items@ == Seq::<(String, String, String)>::empty(),
{
    Select { label, items: Vec::new() }
}

/// A multiple-choice prompt: the same shape as [`Select`], answered by a list
/// of entry indices.
pub struct MultiSelect {
    /// The text shown to the user.
    pub label: String,
    /// The entries offered, in order: value, label, hint.
    pub items: Vec<(String, String, String)>,
}

impl MultiSelect {
    /// Appends the given entries, keeping their order.
    pub fn items(self, items: Vec<(String, String, String)>) -> (q: MultiSelect)
        ensures
            q.label == self.label,
            q.items@ == self.items@ + items@,
    {
        let all = append_entries(self.items, items);
        MultiSelect { label: self.label, items: all }
    }

    /// Appends one entry: a value, its label and a hint.
    pub fn item(self, item: String, label: String, hint: String) -> (q: MultiSelect)
        ensures
            q.label == self.label,
            q.items@ == self.items@.push((item, label, hint)),
    {
        let mut items = self.items;
        items.push((item, label, hint));
        MultiSelect { label: self.label, items }
    }
}

/// Starts a multiple-choice prompt with the given label and no entries.
pub fn multiselect(label: String) -> (q: MultiSelect)
    ensures
        q.label == label,
        q.items@ == Seq::<(String, String, String)>::empty(),
{
    MultiSelect { label, items: Vec::new() }
}

/// Moves every entry of `added` onto the end of `base`, keeping both orders.
fn append_entries(
    base: Vec<(String, String, String)>,
    added: Vec<(String, String, String)>,
) -> (all: Vec<(String, String, String)>)
    ensures
        all@ == base@ + added@,
{
    let ghost base0 = base@;
    let ghost added0 = added@;
    let mut all = base;
    let mut rest = added;
    while rest.len() > 0
        invariant
            all@ + rest@ == base0 + added0,
        decreases rest.len(),
    {
        let entry = rest.remove(0);
        all.push(entry);
        proof {
            assert(all@ + rest@ =~= base0 + added0);
        }
    }
    proof {
        assert(all@ =~= base0 + added0);
    }
    all
}

} // verus!
