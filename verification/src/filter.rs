use vstd::prelude::*;

use crate::entry::Entry;
use crate::entry::EntryView;

verus! {

/// The view predicate: which entries the UI currently shows.
#[derive(Clone, Copy, PartialEq, Eq, Structural, Debug)]
pub enum Filter {
    All,
    Active,
    Completed,
}

impl Filter {
    /// Whether an entry passes this filter.
    pub open spec fn matches(self, e: EntryView) -> bool {
        match self {
            Filter::All => true,
            Filter::Active => !e.completed,
            Filter::Completed => e.completed,
        }
    }

    /// Executable form of [`Filter::matches`].
    pub fn fit(&self, entry: &Entry) -> (r: bool)
        ensures
            r == self.matches(entry@),
    {
        match self {
            Filter::All => true,
            Filter::Active => !entry.completed,
            Filter::Completed => entry.completed,
        }
    }

    /// Display name of the filter, as shown on its selector link.
    pub fn label(&self) -> (r: String)
        ensures
            r@ == match self {
                Filter::All => "All"@,
                Filter::Active => "Active"@,
                Filter::Completed => "Completed"@,
            },
    {
        match self {
            Filter::All => String::from_str("All"),
            Filter::Active => String::from_str("Active"),
            Filter::Completed => String::from_str("Completed"),
        }
    }

    /// Fragment the filter's selector link points at.
    pub fn link_target(&self) -> (r: String)
        ensures
            r@ == match self {
                Filter::All => "#/"@,
                Filter::Active => "#/active"@,
                Filter::Completed => "#/completed"@,
            },
    {
        match self {
            Filter::All => String::from_str("#/"),
            Filter::Active => String::from_str("#/active"),
            Filter::Completed => String::from_str("#/completed"),
        }
    }

    /// Every filter variant, in display order.
    pub fn all_filters() -> (r: Vec<Filter>)
        ensures
            r@ == seq![Filter::All, Filter::Active, Filter::Completed],
    {
        let mut v: Vec<Filter> = Vec::new();
        v.push(Filter::All);
        v.push(Filter::Active);
        v.push(Filter::Completed);
        proof {
            assert(v@ =~= seq![Filter::All, Filter::Active, Filter::Completed]);
        }
        v
    }
}

} // verus!
