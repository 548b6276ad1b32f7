use vstd::prelude::*;

verus! {

/// A single task record: what the user typed, whether the task is done, and
/// whether the UI is currently editing it.
///
/// An entry has no stable identifier: its identity is its position in the
/// backing sequence owned by [`crate::state::State`].
#[derive(Debug)]
pub struct Entry {
    pub description: String,
    pub completed: bool,
    pub editing: bool,
}

/// The mathematical value of an [`Entry`]: the description as a sequence of
/// characters together with the two flags.
#[verifier::ext_equal]
pub ghost struct EntryView {
    pub description: Seq<char>,
    pub completed: bool,
    pub editing: bool,
}

impl View for Entry {
    type V = EntryView;

    open spec fn view(&self) -> EntryView {
        EntryView {
            description: self.description@,
            completed: self.completed,
            editing: self.editing,
        }
    }
}

impl DeepView for Entry {
    type V = EntryView;

    open spec fn deep_view(&self) -> EntryView {
        self@
    }
}

impl Clone for Entry {
    fn clone(&self) -> (r: Entry)
        ensures
            r@ == self@,
    {
        Entry {
            description: self.description.clone(),
            completed: self.completed,
            editing: self.editing,
        }
    }
}

impl Entry {
    /// A freshly added task: not completed, not being edited.
    pub fn new(description: String) -> (r: Entry)
        ensures
            r@ == (EntryView { description: description@, completed: false, editing: false }),
    {
        Entry { description, completed: false, editing: false }
    }
}

} // verus!
