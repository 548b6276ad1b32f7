use vstd::prelude::*;

use crate::entry::EntryView;
use crate::filter::Filter;

verus! {

/// The stable sub-sequence of `s` whose entries pass `f`, in their original
/// order: what the UI shows while `f` is the active filter.
pub open spec fn filtered(s: Seq<EntryView>, f: Filter) -> Seq<EntryView>
    decreases s.len(),
{
    if s.len() == 0 {
        Seq::empty()
    } else if f.matches(s[0]) {
        seq![s[0]] + filtered(s.drop_first(), f)
    } else {
        filtered(s.drop_first(), f)
    }
}

/// The absolute index, in the backing sequence `s`, of the entry that stands
/// at position `i` of the filtered view of `s` under `f`.
///
/// Meaningful only for `0 <= i < filtered(s, f).len()`.
pub open spec fn abs_of(s: Seq<EntryView>, f: Filter, i: int) -> int
    decreases s.len(),
{
    if s.len() == 0 {
        0
    } else if f.matches(s[0]) {
        if i == 0 {
            0
        } else {
            1 + abs_of(s.drop_first(), f, i - 1)
        }
    } else {
        1 + abs_of(s.drop_first(), f, i)
    }
}

/// Whether the filtered view is non-empty and every entry in it is completed.
/// An empty view counts as "not all completed", not vacuously true.
pub open spec fn spec_is_all_completed(s: Seq<EntryView>, f: Filter) -> bool {
    &&& filtered(s, f).len() > 0
    &&& forall|i: int| 0 <= i < filtered(s, f).len() ==> (#[trigger] filtered(s, f)[i]).completed
}

/// The backing sequence after setting `completed = value` on exactly the
/// entries that pass `f`.
pub open spec fn spec_toggle_all(s: Seq<EntryView>, f: Filter, value: bool) -> Seq<EntryView> {
    Seq::new(
        s.len(),
        |j: int|
            if f.matches(s[j]) {
                EntryView { description: s[j].description, completed: value, editing: s[j].editing }
            } else {
                s[j]
            },
    )
}

/// Filtering a sequence extended by one entry appends that entry to the
/// filtered view exactly when it passes the filter.
pub proof fn lemma_filtered_push(s: Seq<EntryView>, f: Filter, x: EntryView)
    ensures
        filtered(s.push(x), f) == if f.matches(x) {
            filtered(s, f).push(x)
        } else {
            filtered(s, f)
        },
    decreases s.len(),
{
    let t = s.push(x);
    if s.len() == 0 {
        assert(t.len() == 1);
        assert(t[0] == x);
        assert(t.drop_first() =~= Seq::<EntryView>::empty());
        assert(filtered(t.drop_first(), f) =~= Seq::<EntryView>::empty());
        if f.matches(x) {
            assert(filtered(t, f) == seq![t[0]] + filtered(t.drop_first(), f));
            assert(filtered(t, f) =~= filtered(s, f).push(x));
        } else {
            assert(filtered(t, f) == filtered(t.drop_first(), f));
            assert(filtered(t, f) =~= filtered(s, f));
        }
    } else {
        assert(t[0] == s[0]);
        assert(t.drop_first() =~= s.drop_first().push(x));
        lemma_filtered_push(s.drop_first(), f, x);
        if f.matches(s[0]) {
            if f.matches(x) {
                assert(seq![s[0]] + filtered(s.drop_first(), f).push(x) =~= (seq![s[0]]
                    + filtered(s.drop_first(), f)).push(x));
            }
        }
    }
}

/// The filtered view is never longer than the backing sequence.
pub proof fn lemma_filtered_len(s: Seq<EntryView>, f: Filter)
    ensures
        filtered(s, f).len() <= s.len(),
    decreases s.len(),
{
    if s.len() > 0 {
        lemma_filtered_len(s.drop_first(), f);
    }
}

/// Under the `All` filter the view is the backing sequence itself.
pub proof fn lemma_filtered_all(s: Seq<EntryView>)
    ensures
        filtered(s, Filter::All) == s,
    decreases s.len(),
{
    if s.len() == 0 {
        assert(filtered(s, Filter::All) =~= s);
    } else {
        lemma_filtered_all(s.drop_first());
        assert(seq![s[0]] + s.drop_first() =~= s);
    }
}

/// What `abs_of` resolves to: a valid absolute index whose entry passes the
/// filter, is the one shown at view position `i`, and is preceded by exactly
/// `i` passing entries.
pub proof fn lemma_abs_of_props(s: Seq<EntryView>, f: Filter, i: int)
    requires
        0 <= i < filtered(s, f).len(),
    ensures
        0 <= abs_of(s, f, i) < s.len(),
        f.matches(s[abs_of(s, f, i)]),
        filtered(s, f)[i] == s[abs_of(s, f, i)],
        filtered(s.take(abs_of(s, f, i)), f).len() == i,
    decreases s.len(),
{
    lemma_filtered_len(s, f);
    let rest = s.drop_first();
    if f.matches(s[0]) {
        if i == 0 {
            assert(filtered(s, f)[0] == s[0]);
            assert(s.take(0) =~= Seq::<EntryView>::empty());
        } else {
            lemma_abs_of_props(rest, f, i - 1);
            let k2 = abs_of(rest, f, i - 1);
            assert(s[1 + k2] == rest[k2]);
            assert(filtered(s, f)[i] == filtered(rest, f)[i - 1]);
            let w = s.take(1 + k2);
            assert(w[0] == s[0]);
            assert(w.drop_first() =~= rest.take(k2));
            assert(filtered(w, f) == seq![s[0]] + filtered(rest.take(k2), f));
        }
    } else {
        lemma_abs_of_props(rest, f, i);
        let k2 = abs_of(rest, f, i);
        assert(s[1 + k2] == rest[k2]);
        let w = s.take(1 + k2);
        assert(w[0] == s[0]);
        assert(w.drop_first() =~= rest.take(k2));
        assert(filtered(w, f) == filtered(rest.take(k2), f));
    }
}

/// The converse direction: an absolute index `k` whose entry passes the
/// filter is reached by `abs_of` at the view position given by the number of
/// passing entries before `k`.
pub proof fn lemma_abs_of_inverse(s: Seq<EntryView>, f: Filter, k: int)
    requires
        0 <= k < s.len(),
        f.matches(s[k]),
    ensures
        filtered(s.take(k), f).len() < filtered(s, f).len(),
        abs_of(s, f, filtered(s.take(k), f).len() as int) == k,
    decreases s.len(),
{
    let rest = s.drop_first();
    if k == 0 {
        assert(s.take(0) =~= Seq::<EntryView>::empty());
    } else {
        assert(rest[k - 1] == s[k]);
        lemma_abs_of_inverse(rest, f, k - 1);
        let i2 = filtered(rest.take(k - 1), f).len();
        let w = s.take(k);
        assert(w[0] == s[0]);
        assert(w.drop_first() =~= rest.take(k - 1));
        if f.matches(s[0]) {
            assert(filtered(w, f) == seq![s[0]] + filtered(rest.take(k - 1), f));
            assert(filtered(w, f).len() == 1 + i2);
        } else {
            assert(filtered(w, f) == filtered(rest.take(k - 1), f));
        }
    }
}

/// Counting passing entries in a prefix grows with the prefix.
pub proof fn lemma_count_monotone(s: Seq<EntryView>, f: Filter, k1: int, k2: int)
    requires
        0 <= k1 <= k2 <= s.len(),
    ensures
        filtered(s.take(k1), f).len() <= filtered(s.take(k2), f).len(),
    decreases k2 - k1,
{
    if k1 < k2 {
        lemma_count_monotone(s, f, k1, k2 - 1);
        assert(s.take(k2) =~= s.take(k2 - 1).push(s[k2 - 1]));
        lemma_filtered_push(s.take(k2 - 1), f, s[k2 - 1]);
    }
}

/// The filtered view of `s` under `f` is an order-preserving sub-sequence of
/// `s` containing exactly the entries that pass `f`: view position `i` shows
/// the entry at absolute index `abs_of(s, f, i)`; those indices are strictly
/// increasing in `i`; and every absolute index whose entry passes `f` is
/// `abs_of(s, f, i)` for some view position `i`.
pub proof fn lemma_filtered_view(s: Seq<EntryView>, f: Filter)
    ensures
        filtered(s, f).len() <= s.len(),
        forall|i: int|
            0 <= i < filtered(s, f).len() ==> {
                &&& 0 <= #[trigger] abs_of(s, f, i) < s.len()
                &&& f.matches(s[abs_of(s, f, i)])
                &&& filtered(s, f)[i] == s[abs_of(s, f, i)]
            },
        forall|i: int, j: int|
            0 <= i < j < filtered(s, f).len() ==> #[trigger] abs_of(s, f, i) < #[trigger] abs_of(
                s,
                f,
                j,
            ),
        forall|k: int|
            0 <= k < s.len() && f.matches(#[trigger] s[k]) ==> exists|i: int|
                0 <= i < filtered(s, f).len() && #[trigger] abs_of(s, f, i) == k,
{
    lemma_filtered_len(s, f);
    assert forall|i: int|
        0 <= i < filtered(s, f).len() implies {
        &&& 0 <= #[trigger] abs_of(s, f, i) < s.len()
        &&& f.matches(s[abs_of(s, f, i)])
        &&& filtered(s, f)[i] == s[abs_of(s, f, i)]
    } by {
        lemma_abs_of_props(s, f, i);
    }
    assert forall|i: int, j: int|
        0 <= i < j < filtered(s, f).len() implies #[trigger] abs_of(s, f, i) < #[trigger] abs_of(
        s,
        f,
        j,
    ) by {
        lemma_abs_of_props(s, f, i);
        lemma_abs_of_props(s, f, j);
        if abs_of(s, f, i) >= abs_of(s, f, j) {
            lemma_count_monotone(s, f, abs_of(s, f, j), abs_of(s, f, i));
        }
    }
    assert forall|k: int|
        0 <= k < s.len() && f.matches(#[trigger] s[k]) implies exists|i: int|
        0 <= i < filtered(s, f).len() && #[trigger] abs_of(s, f, i) == k by {
        lemma_abs_of_inverse(s, f, k);
        let i = filtered(s.take(k), f).len() as int;
        assert(0 <= i < filtered(s, f).len() && abs_of(s, f, i) == k);
    }
}

/// If nothing passes the filter, nothing changes it: a sequence whose
/// filtered view is empty is untouched by `spec_toggle_all`.
pub proof fn lemma_empty_view_no_matches(s: Seq<EntryView>, f: Filter)
    requires
        filtered(s, f).len() == 0,
    ensures
        forall|k: int| 0 <= k < s.len() ==> !f.matches(#[trigger] s[k]),
{
    assert forall|k: int| 0 <= k < s.len() implies !f.matches(#[trigger] s[k]) by {
        if f.matches(s[k]) {
            lemma_abs_of_inverse(s, f, k);
        }
    }
}

/// Completing every visible entry makes the all-completed check true for the
/// `All` and `Completed` filters; with an empty view it is false both before
/// and after. (Under `Active`, completing a non-empty view empties it, so the
/// check stays false; that case is deliberately not claimed here.)
pub proof fn lemma_toggle_all_completes(s: Seq<EntryView>, f: Filter)
    ensures
        filtered(s, f).len() == 0 ==> !spec_is_all_completed(s, f) && !spec_is_all_completed(
            spec_toggle_all(s, f, true),
            f,
        ),
        f != Filter::Active && filtered(s, f).len() > 0 ==> spec_is_all_completed(
            spec_toggle_all(s, f, true),
            f,
        ),
{
    let t = spec_toggle_all(s, f, true);
    if filtered(s, f).len() == 0 {
        lemma_empty_view_no_matches(s, f);
        assert(t =~= s);
    } else if f != Filter::Active {
        match f {
            Filter::All => {
                lemma_filtered_all(t);
                assert(forall|j: int| 0 <= j < t.len() ==> (#[trigger] t[j]).completed);
            },
            Filter::Completed => {
                assert(t =~= s) by {
                    assert forall|j: int| 0 <= j < s.len() implies t[j] == s[j] by {
                        if f.matches(s[j]) {
                            assert(s[j].completed);
                        }
                    }
                }
                lemma_filtered_view(s, f);
                assert forall|i: int|
                    0 <= i < filtered(t, f).len() implies (#[trigger] filtered(t, f)[i]).completed
                by {
                    lemma_abs_of_props(s, f, i);
                }
            },
            Filter::Active => {},
        }
    }
}

} // verus!
