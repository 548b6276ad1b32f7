use vstd::prelude::*;

use crate::codec::dec_entries;
use crate::codec::decode;
use crate::codec::enc_entries;
use crate::codec::encode;
use crate::entry::Entry;
use crate::entry::EntryView;
use crate::filter::Filter;
use crate::model::abs_of;
use crate::model::filtered;
use crate::model::lemma_abs_of_inverse;
use crate::model::lemma_abs_of_props;
use crate::model::lemma_filtered_push;
use crate::model::lemma_filtered_view;
use crate::model::spec_is_all_completed;
use crate::model::spec_toggle_all;

verus! {

/// Failure of filtered-index resolution: the given position does not exist
/// in the current filtered view. Recoverable; the state is left unchanged.
#[derive(Clone, Copy, PartialEq, Eq, Structural, Debug)]
pub enum StoreError {
    IndexOutOfRange,
}

/// One user command, as the controller dispatches it into the state.
#[derive(Debug)]
pub enum Msg {
    Add,
    Edit(usize),
    Update(String),
    UpdateEdit(String),
    Remove(usize),
    SetFilter(Filter),
    ToggleAll,
    ToggleEdit(usize),
    Toggle(usize),
    ClearCompleted,
    Nope,
}

/// The whole application state: the backing entry sequence, the active view
/// filter, and the two transient input buffers (the new-task box and the
/// in-place edit box).
pub struct State {
    entries: Vec<Entry>,
    filter: Filter,
    value: String,
    edit_value: String,
}

/// The mathematical value of a [`State`].
#[verifier::ext_equal]
pub ghost struct StateView {
    pub entries: Seq<EntryView>,
    pub filter: Filter,
    pub value: Seq<char>,
    pub edit_value: Seq<char>,
}

impl View for State {
    type V = StateView;

    closed spec fn view(&self) -> StateView {
        StateView {
            entries: self.entries.deep_view(),
            filter: self.filter,
            value: self.value@,
            edit_value: self.edit_value@,
        }
    }
}

impl State {
    /// A fresh state over the given (possibly restored) entries: filter
    /// `All`, both input buffers empty.
    pub fn new(entries: Vec<Entry>) -> (r: State)
        ensures
            r@.entries == entries.deep_view(),
            r@.filter == Filter::All,
            r@.value == Seq::<char>::empty(),
            r@.edit_value == Seq::<char>::empty(),
    {
        State { entries, filter: Filter::All, value: String::new(), edit_value: String::new() }
    }

    /// A state restored from a persisted blob, as at application start: a
    /// missing or malformed blob means an empty task list, never a failure.
    pub fn restore(blob: Option<&Vec<u8>>) -> (r: State)
        ensures
            r@.entries == match blob {
                Some(b) => match dec_entries(b@) {
                    Some(es) => es,
                    None => Seq::<EntryView>::empty(),
                },
                None => Seq::<EntryView>::empty(),
            },
            r@.filter == Filter::All,
            r@.value == Seq::<char>::empty(),
            r@.edit_value == Seq::<char>::empty(),
    {
        let entries = match blob {
            Some(b) => match decode(b) {
                Some(es) => es,
                None => Vec::new(),
            },
            None => Vec::new(),
        };
        proof {
            if entries.deep_view().len() == 0 {
                assert(entries.deep_view() =~= Seq::<EntryView>::empty());
            }
        }
        State::new(entries)
    }

    /// The persisted form of the current entry collection, written after
    /// every mutation; the filter and input buffers are session-only.
    pub fn snapshot(&self) -> (r: Vec<u8>)
        ensures
            r@ == enc_entries(self@.entries),
    {
        encode(&self.entries)
    }

    /// The currently active filter.
    pub fn active_filter(&self) -> (r: Filter)
        ensures
            r == self@.filter,
    {
        self.filter
    }

    /// The new-task input buffer.
    pub fn value(&self) -> (r: &String)
        ensures
            r@ == self@.value,
    {
        &self.value
    }

    /// The in-place edit buffer.
    pub fn edit_value(&self) -> (r: &String)
        ensures
            r@ == self@.edit_value,
    {
        &self.edit_value
    }

    /// The entry at absolute index `k` of the backing sequence, if any.
    pub fn entry(&self, k: usize) -> (r: Option<&Entry>)
        ensures
            match r {
                Some(e) => k < self@.entries.len() && e@ == self@.entries[k as int],
                None => k >= self@.entries.len(),
            },
    {
        if k < self.entries.len() {
            Some(&self.entries[k])
        } else {
            None
        }
    }

    /// Count of all entries, ignoring the filter.
    pub fn total(&self) -> (r: usize)
        ensures
            r == self@.entries.len(),
    {
        self.entries.len()
    }

    /// Count of completed entries, ignoring the active filter.
    pub fn total_completed(&self) -> (r: usize)
        ensures
            r == filtered(self@.entries, Filter::Completed).len(),
    {
        let ghost s = self@.entries;
        let mut count: usize = 0;
        let mut j: usize = 0;
        while j < self.entries.len()
            invariant
                j <= self.entries.len(),
                count <= j,
                s == self@.entries,
                count == filtered(s.take(j as int), Filter::Completed).len(),
            decreases self.entries.len() - j,
        {
            proof {
                assert(s.take(j as int + 1) =~= s.take(j as int).push(s[j as int]));
                lemma_filtered_push(s.take(j as int), Filter::Completed, s[j as int]);
                assert(s[j as int] == self.entries@[j as int]@);
            }
            if Filter::Completed.fit(&self.entries[j]) {
                count += 1;
            }
            j += 1;
        }
        proof {
            assert(s.take(self.entries.len() as int) =~= s);
        }
        count
    }

    /// True iff the filtered view is non-empty and every entry in it is
    /// completed. An empty view yields false, not vacuous truth.
    pub fn is_all_completed(&self) -> (r: bool)
        ensures
            r == spec_is_all_completed(self@.entries, self@.filter),
    {
        let ghost s = self@.entries;
        let ghost f = self@.filter;
        let mut any: bool = false;
        let mut all: bool = true;
        let mut j: usize = 0;
        while j < self.entries.len()
            invariant
                j <= self.entries.len(),
                s == self@.entries,
                f == self@.filter,
                any == (filtered(s.take(j as int), f).len() > 0),
                all == (forall|i: int| 0 <= i < j && f.matches(#[trigger] s[i]) ==> s[i].completed),
            decreases self.entries.len() - j,
        {
            proof {
                assert(s.take(j as int + 1) =~= s.take(j as int).push(s[j as int]));
                lemma_filtered_push(s.take(j as int), f, s[j as int]);
                assert(s[j as int] == self.entries@[j as int]@);
            }
            if self.filter.fit(&self.entries[j]) {
                any = true;
                if !self.entries[j].completed {
                    all = false;
                }
            }
            j += 1;
        }
        proof {
            assert(s.take(self.entries.len() as int) =~= s);
            lemma_filtered_view(s, f);
            let flt = filtered(s, f);
            if all {
                assert forall|i: int| 0 <= i < flt.len() implies (#[trigger] flt[i]).completed by {
                    lemma_abs_of_props(s, f, i);
                }
            } else {
                assert(exists|k: int|
                    0 <= k < s.len() && f.matches(#[trigger] s[k]) && !s[k].completed);
                let k = choose|k: int|
                    0 <= k < s.len() && f.matches(#[trigger] s[k]) && !s[k].completed;
                assert(exists|i: int| 0 <= i < flt.len() && #[trigger] abs_of(s, f, i) == k);
                let i = choose|i: int| 0 <= i < flt.len() && #[trigger] abs_of(s, f, i) == k;
                assert(flt[i] == s[k]);
                assert(!spec_is_all_completed(s, f));
            }
        }
        any && all
    }

    /// Resolves a filtered index to the absolute index of the same entry in
    /// the backing sequence, scanning afresh under the current filter.
    fn resolve(&self, idx: usize) -> (r: Option<usize>)
        ensures
            match r {
                Some(k) => idx < filtered(self@.entries, self@.filter).len() && k
                    < self@.entries.len() && k as int == abs_of(
                    self@.entries,
                    self@.filter,
                    idx as int,
                ),
                None => idx >= filtered(self@.entries, self@.filter).len(),
            },
    {
        let ghost s = self@.entries;
        let ghost f = self@.filter;
        let mut count: usize = 0;
        let mut j: usize = 0;
        while j < self.entries.len()
            invariant
                j <= self.entries.len(),
                count <= idx,
                s == self@.entries,
                f == self@.filter,
                count == filtered(s.take(j as int), f).len(),
            decreases self.entries.len() - j,
        {
            proof {
                assert(s.take(j as int + 1) =~= s.take(j as int).push(s[j as int]));
                lemma_filtered_push(s.take(j as int), f, s[j as int]);
                assert(s[j as int] == self.entries@[j as int]@);
            }
            if self.filter.fit(&self.entries[j]) {
                if count == idx {
                    proof {
                        lemma_abs_of_inverse(s, f, j as int);
                    }
                    return Some(j);
                }
                count += 1;
            }
            j += 1;
        }
        proof {
            assert(s.take(self.entries.len() as int) =~= s);
        }
        None
    }

    /// The entries currently passing the active filter, in order: the view a
    /// renderer iterates.
    pub fn filtered_entries(&self) -> (r: Vec<Entry>)
        ensures
            r.deep_view() == filtered(self@.entries, self@.filter),
    {
        let ghost s = self@.entries;
        let ghost f = self@.filter;
        let mut out: Vec<Entry> = Vec::new();
        let mut j: usize = 0;
        while j < self.entries.len()
            invariant
                j <= self.entries.len(),
                s == self@.entries,
                f == self@.filter,
                out.deep_view() == filtered(s.take(j as int), f),
            decreases self.entries.len() - j,
        {
            let ghost out0 = out.deep_view();
            proof {
                assert(s.take(j as int + 1) =~= s.take(j as int).push(s[j as int]));
                lemma_filtered_push(s.take(j as int), f, s[j as int]);
                assert(s[j as int] == self.entries@[j as int]@);
            }
            if self.filter.fit(&self.entries[j]) {
                out.push(self.entries[j].clone());
                proof {
                    assert(out.deep_view() =~= out0.push(s[j as int]));
                }
            }
            j += 1;
        }
        proof {
            assert(s.take(self.entries.len() as int) =~= s);
        }
        out
    }

    /// Appends a new entry with the given description to the end of the
    /// backing sequence, whatever the active filter.
    pub fn add(&mut self, description: String)
        ensures
            final(self)@.entries == old(self)@.entries.push(
                (EntryView { description: description@, completed: false, editing: false }),
            ),
            final(self)@.filter == old(self)@.filter,
            final(self)@.value == old(self)@.value,
            final(self)@.edit_value == old(self)@.edit_value,
    {
        let ghost pre = self@;
        let e = Entry::new(description);
        let ghost ev = e@;
        self.entries.push(e);
        proof {
            assert(self@.entries =~= pre.entries.push(ev));
        }
    }

    /// Replaces the active filter; entries are untouched.
    pub fn set_filter(&mut self, filter: Filter)
        ensures
            final(self)@.filter == filter,
            final(self)@.entries == old(self)@.entries,
            final(self)@.value == old(self)@.value,
            final(self)@.edit_value == old(self)@.edit_value,
    {
        self.filter = filter;
    }

    /// Swaps the entry at absolute index `k` for `e`.
    fn replace_at(&mut self, k: usize, e: Entry)
        requires
            k < old(self)@.entries.len(),
        ensures
            final(self)@.entries == old(self)@.entries.update(k as int, e@),
            final(self)@.filter == old(self)@.filter,
            final(self)@.value == old(self)@.value,
            final(self)@.edit_value == old(self)@.edit_value,
    {
        let ghost pre = self@;
        let ghost ev = e@;
        let _ = self.entries.remove(k);
        self.entries.insert(k, e);
        proof {
            assert(self@.entries =~= pre.entries.update(k as int, ev));
        }
    }

    /// Flips `completed` on the entry at position `idx` of the current
    /// filtered view; every other entry is untouched.
    pub fn toggle(&mut self, idx: usize) -> (r: Result<(), StoreError>)
        ensures
            final(self)@.filter == old(self)@.filter,
            final(self)@.value == old(self)@.value,
            final(self)@.edit_value == old(self)@.edit_value,
            idx < filtered(old(self)@.entries, old(self)@.filter).len() ==> {
                let k = abs_of(old(self)@.entries, old(self)@.filter, idx as int);
                &&& r == Ok::<(), StoreError>(())
                &&& final(self)@.entries == old(self)@.entries.update(
                    k,
                    (EntryView {
                        description: old(self)@.entries[k].description,
                        completed: !old(self)@.entries[k].completed,
                        editing: old(self)@.entries[k].editing,
                    }),
                )
                &&& old(self)@.entries[k] == filtered(old(self)@.entries, old(self)@.filter)[
                    idx as int]
            },
            idx >= filtered(old(self)@.entries, old(self)@.filter).len() ==> r == Err::<
                (),
                StoreError,
            >(StoreError::IndexOutOfRange) && final(self)@ == old(self)@,
    {
        let ghost pre = self@;
        match self.resolve(idx) {
            None => Err(StoreError::IndexOutOfRange),
            Some(k) => {
                proof {
                    lemma_abs_of_props(pre.entries, pre.filter, idx as int);
                }
                let old_e = self.entries.remove(k);
                let new_e = Entry {
                    description: old_e.description,
                    completed: !old_e.completed,
                    editing: old_e.editing,
                };
                self.entries.insert(k, new_e);
                proof {
                    assert(self@.entries =~= pre.entries.update(
                        k as int,
                        (EntryView {
                            description: pre.entries[k as int].description,
                            completed: !pre.entries[k as int].completed,
                            editing: pre.entries[k as int].editing,
                        }),
                    ));
                }
                Ok(())
            },
        }
    }

    /// Flips `editing` on the entry at position `idx` of the current
    /// filtered view; every other entry is untouched.
    pub fn toggle_edit(&mut self, idx: usize) -> (r: Result<(), StoreError>)
        ensures
            final(self)@.filter == old(self)@.filter,
            final(self)@.value == old(self)@.value,
            final(self)@.edit_value == old(self)@.edit_value,
            idx < filtered(old(self)@.entries, old(self)@.filter).len() ==> {
                let k = abs_of(old(self)@.entries, old(self)@.filter, idx as int);
                &&& r == Ok::<(), StoreError>(())
                &&& final(self)@.entries == old(self)@.entries.update(
                    k,
                    (EntryView {
                        description: old(self)@.entries[k].description,
                        completed: old(self)@.entries[k].completed,
                        editing: !old(self)@.entries[k].editing,
                    }),
                )
                &&& old(self)@.entries[k] == filtered(old(self)@.entries, old(self)@.filter)[
                    idx as int]
            },
            idx >= filtered(old(self)@.entries, old(self)@.filter).len() ==> r == Err::<
                (),
                StoreError,
            >(StoreError::IndexOutOfRange) && final(self)@ == old(self)@,
    {
        let ghost pre = self@;
        match self.resolve(idx) {
            None => Err(StoreError::IndexOutOfRange),
            Some(k) => {
                proof {
                    lemma_abs_of_props(pre.entries, pre.filter, idx as int);
                }
                let old_e = self.entries.remove(k);
                let new_e = Entry {
                    description: old_e.description,
                    completed: old_e.completed,
                    editing: !old_e.editing,
                };
                self.entries.insert(k, new_e);
                proof {
                    assert(self@.entries =~= pre.entries.update(
                        k as int,
                        (EntryView {
                            description: pre.entries[k as int].description,
                            completed: pre.entries[k as int].completed,
                            editing: !pre.entries[k as int].editing,
                        }),
                    ));
                }
                Ok(())
            },
        }
    }

    /// Replaces the description of the entry at position `idx` of the
    /// current filtered view and flips its `editing` flag. (The flag is
    /// flipped, not forced to false: callers are expected to invoke this
    /// only while the entry is being edited.)
    pub fn complete_edit(&mut self, idx: usize, val: String) -> (r: Result<(), StoreError>)
        ensures
            final(self)@.filter == old(self)@.filter,
            final(self)@.value == old(self)@.value,
            final(self)@.edit_value == old(self)@.edit_value,
            idx < filtered(old(self)@.entries, old(self)@.filter).len() ==> {
                let k = abs_of(old(self)@.entries, old(self)@.filter, idx as int);
                &&& r == Ok::<(), StoreError>(())
                &&& final(self)@.entries == old(self)@.entries.update(
                    k,
                    (EntryView {
                        description: val@,
                        completed: old(self)@.entries[k].completed,
                        editing: !old(self)@.entries[k].editing,
                    }),
                )
                &&& old(self)@.entries[k] == filtered(old(self)@.entries, old(self)@.filter)[
                    idx as int]
            },
            idx >= filtered(old(self)@.entries, old(self)@.filter).len() ==> r == Err::<
                (),
                StoreError,
            >(StoreError::IndexOutOfRange) && final(self)@ == old(self)@,
    {
        let ghost pre = self@;
        let ghost valv = val@;
        match self.resolve(idx) {
            None => Err(StoreError::IndexOutOfRange),
            Some(k) => {
                proof {
                    lemma_abs_of_props(pre.entries, pre.filter, idx as int);
                }
                let old_e = self.entries.remove(k);
                let new_e = Entry {
                    description: val,
                    completed: old_e.completed,
                    editing: !old_e.editing,
                };
                self.entries.insert(k, new_e);
                proof {
                    assert(self@.entries =~= pre.entries.update(
                        k as int,
                        (EntryView {
                            description: valv,
                            completed: pre.entries[k as int].completed,
                            editing: !pre.entries[k as int].editing,
                        }),
                    ));
                }
                Ok(())
            },
        }
    }

    /// Removes the entry at position `idx` of the current filtered view from
    /// the backing sequence; later entries shift down one absolute position.
    pub fn remove(&mut self, idx: usize) -> (r: Result<(), StoreError>)
        ensures
            final(self)@.filter == old(self)@.filter,
            final(self)@.value == old(self)@.value,
            final(self)@.edit_value == old(self)@.edit_value,
            idx < filtered(old(self)@.entries, old(self)@.filter).len() ==> {
                let k = abs_of(old(self)@.entries, old(self)@.filter, idx as int);
                &&& r == Ok::<(), StoreError>(())
                &&& final(self)@.entries == old(self)@.entries.remove(k)
                &&& old(self)@.entries[k] == filtered(old(self)@.entries, old(self)@.filter)[
                    idx as int]
            },
            idx >= filtered(old(self)@.entries, old(self)@.filter).len() ==> r == Err::<
                (),
                StoreError,
            >(StoreError::IndexOutOfRange) && final(self)@ == old(self)@,
    {
        let ghost pre = self@;
        match self.resolve(idx) {
            None => Err(StoreError::IndexOutOfRange),
            Some(k) => {
                proof {
                    lemma_abs_of_props(pre.entries, pre.filter, idx as int);
                }
                let _ = self.entries.remove(k);
                proof {
                    assert(self@.entries =~= pre.entries.remove(k as int));
                }
                Ok(())
            },
        }
    }

    /// Sets `completed = value` on every entry passing the current filter;
    /// entries outside the view are untouched.
    pub fn toggle_all(&mut self, value: bool)
        ensures
            final(self)@.entries == spec_toggle_all(
                old(self)@.entries,
                old(self)@.filter,
                value,
            ),
            final(self)@.filter == old(self)@.filter,
            final(self)@.value == old(self)@.value,
            final(self)@.edit_value == old(self)@.edit_value,
    {
        let ghost pre = self@;
        let ghost target = spec_toggle_all(pre.entries, pre.filter, value);
        let mut j: usize = 0;
        while j < self.entries.len()
            invariant
                j <= self.entries.len(),
                self@.entries.len() == pre.entries.len(),
                self@.filter == pre.filter,
                self@.value == pre.value,
                self@.edit_value == pre.edit_value,
                target == spec_toggle_all(pre.entries, pre.filter, value),
                forall|i: int| 0 <= i < j ==> self@.entries[i] == target[i],
                forall|i: int| j <= i < pre.entries.len() ==> self@.entries[i] == pre.entries[i],
            decreases self.entries.len() - j,
        {
            let ghost cur0 = self@.entries;
            proof {
                assert(self@.entries[j as int] == self.entries@[j as int]@);
            }
            if self.filter.fit(&self.entries[j]) {
                let old_e = self.entries.remove(j);
                let new_e = Entry {
                    description: old_e.description,
                    completed: value,
                    editing: old_e.editing,
                };
                self.entries.insert(j, new_e);
                proof {
                    assert(self@.entries =~= cur0.update(
                        j as int,
                        (EntryView {
                            description: pre.entries[j as int].description,
                            completed: value,
                            editing: pre.entries[j as int].editing,
                        }),
                    ));
                }
            }
            j += 1;
        }
        proof {
            assert(self@.entries =~= target);
        }
    }

    /// Removes every completed entry, whatever the active filter; the
    /// remaining (active) entries keep their relative order.
    pub fn clear_completed(&mut self)
        ensures
            final(self)@.entries == filtered(old(self)@.entries, Filter::Active),
            final(self)@.filter == old(self)@.filter,
            final(self)@.value == old(self)@.value,
            final(self)@.edit_value == old(self)@.edit_value,
    {
        let ghost pre = self@;
        let mut kept: Vec<Entry> = Vec::new();
        let mut j: usize = 0;
        while j < self.entries.len()
            invariant
                j <= self.entries.len(),
                self@ == pre,
                kept.deep_view() == filtered(pre.entries.take(j as int), Filter::Active),
            decreases self.entries.len() - j,
        {
            let ghost kept0 = kept.deep_view();
            proof {
                assert(pre.entries.take(j as int + 1) =~= pre.entries.take(j as int).push(
                    pre.entries[j as int],
                ));
                lemma_filtered_push(pre.entries.take(j as int), Filter::Active, pre.entries[j as int]);
                assert(pre.entries[j as int] == self.entries@[j as int]@);
            }
            if !self.entries[j].completed {
                kept.push(self.entries[j].clone());
                proof {
                    assert(kept.deep_view() =~= kept0.push(pre.entries[j as int]));
                }
            }
            j += 1;
        }
        proof {
            assert(pre.entries.take(self.entries.len() as int) =~= pre.entries);
        }
        self.entries = kept;
    }

    /// Handles one command and reports whether the view should re-render
    /// (always, as every command is handled to completion).
    ///
    /// A command addressing a filtered position that no longer exists is
    /// silently ignored, leaving the state as it was.
    pub fn update(&mut self, msg: Msg) -> (r: bool)
        ensures
            r == true,
            ({
                let pre = old(self)@;
                let post = final(self)@;
                let flt = filtered(pre.entries, pre.filter);
                match msg {
                    Msg::Add => {
                        &&& post.entries == pre.entries.push(
                            (EntryView { description: pre.value, completed: false, editing: false }),
                        )
                        &&& post.filter == pre.filter
                        &&& post.value == Seq::<char>::empty()
                        &&& post.edit_value == pre.edit_value
                    },
                    Msg::Edit(idx) => {
                        &&& post.filter == pre.filter
                        &&& post.value == pre.value
                        &&& post.edit_value == Seq::<char>::empty()
                        &&& if idx < flt.len() {
                            let k = abs_of(pre.entries, pre.filter, idx as int);
                            post.entries == pre.entries.update(
                                k,
                                (EntryView {
                                    description: pre.edit_value,
                                    completed: pre.entries[k].completed,
                                    editing: !pre.entries[k].editing,
                                }),
                            )
                        } else {
                            post.entries == pre.entries
                        }
                    },
                    Msg::Update(val) => {
                        &&& post.entries == pre.entries
                        &&& post.filter == pre.filter
                        &&& post.value == val@
                        &&& post.edit_value == pre.edit_value
                    },
                    Msg::UpdateEdit(val) => {
                        &&& post.entries == pre.entries
                        &&& post.filter == pre.filter
                        &&& post.value == pre.value
                        &&& post.edit_value == val@
                    },
                    Msg::Remove(idx) => {
                        &&& post.filter == pre.filter
                        &&& post.value == pre.value
                        &&& post.edit_value == pre.edit_value
                        &&& if idx < flt.len() {
                            post.entries == pre.entries.remove(
                                abs_of(pre.entries, pre.filter, idx as int),
                            )
                        } else {
                            post.entries == pre.entries
                        }
                    },
                    Msg::SetFilter(f) => {
                        &&& post.entries == pre.entries
                        &&& post.filter == f
                        &&& post.value == pre.value
                        &&& post.edit_value == pre.edit_value
                    },
                    Msg::ToggleAll => {
                        &&& post.entries == spec_toggle_all(
                            pre.entries,
                            pre.filter,
                            !spec_is_all_completed(pre.entries, pre.filter),
                        )
                        &&& post.filter == pre.filter
                        &&& post.value == pre.value
                        &&& post.edit_value == pre.edit_value
                    },
                    Msg::ToggleEdit(idx) => {
                        &&& post.filter == pre.filter
                        &&& post.value == pre.value
                        &&& if idx < flt.len() {
                            let k = abs_of(pre.entries, pre.filter, idx as int);
                            &&& post.edit_value == pre.entries[k].description
                            &&& post.entries == pre.entries.update(
                                k,
                                (EntryView {
                                    description: pre.entries[k].description,
                                    completed: pre.entries[k].completed,
                                    editing: !pre.entries[k].editing,
                                }),
                            )
                        } else {
                            &&& post.edit_value == pre.edit_value
                            &&& post.entries == pre.entries
                        }
                    },
                    Msg::Toggle(idx) => {
                        &&& post.filter == pre.filter
                        &&& post.value == pre.value
                        &&& post.edit_value == pre.edit_value
                        &&& if idx < flt.len() {
                            let k = abs_of(pre.entries, pre.filter, idx as int);
                            post.entries == pre.entries.update(
                                k,
                                (EntryView {
                                    description: pre.entries[k].description,
                                    completed: !pre.entries[k].completed,
                                    editing: pre.entries[k].editing,
                                }),
                            )
                        } else {
                            post.entries == pre.entries
                        }
                    },
                    Msg::ClearCompleted => {
                        &&& post.entries == filtered(pre.entries, Filter::Active)
                        &&& post.filter == pre.filter
                        &&& post.value == pre.value
                        &&& post.edit_value == pre.edit_value
                    },
                    Msg::Nope => post == pre,
                }
            }),
    {
        let ghost pre = self@;
        match msg {
            Msg::Add => {
                let d = self.value.clone();
                self.add(d);
                self.value = String::new();
            },
            Msg::Edit(idx) => {
                let val = self.edit_value.clone();
                let _ = self.complete_edit(idx, val);
                self.edit_value = String::new();
            },
            Msg::Update(val) => {
                self.value = val;
            },
            Msg::UpdateEdit(val) => {
                self.edit_value = val;
            },
            Msg::Remove(idx) => {
                let _ = self.remove(idx);
            },
            Msg::SetFilter(f) => {
                self.set_filter(f);
            },
            Msg::ToggleAll => {
                let status = !self.is_all_completed();
                self.toggle_all(status);
            },
            Msg::ToggleEdit(idx) => {
                match self.resolve(idx) {
                    Some(k) => {
                        proof {
                            lemma_abs_of_props(pre.entries, pre.filter, idx as int);
                            assert(pre.entries[k as int] == self.entries@[k as int]@);
                        }
                        self.edit_value = self.entries[k].description.clone();
                        let _ = self.toggle_edit(idx);
                    },
                    None => {},
                }
            },
            Msg::Toggle(idx) => {
                let _ = self.toggle(idx);
            },
            Msg::ClearCompleted => {
                self.clear_completed();
            },
            Msg::Nope => {},
        }
        true
    }
}

} // verus!
