use todomvc::Entry;
use todomvc::Filter;
use todomvc::State;
use todomvc::StoreError;

fn e(d: &str, completed: bool) -> Entry {
    Entry { description: d.to_string(), completed, editing: false }
}

fn descriptions(entries: &[Entry]) -> Vec<String> {
    entries.iter().map(|x| x.description.clone()).collect()
}

#[test]
fn scenario_active_remove_second() {
    let mut st = State::new(vec![e("a", false), e("b", true), e("c", false)]);
    st.set_filter(Filter::Active);
    let view = st.filtered_entries();
    assert_eq!(descriptions(&view), vec!["a".to_string(), "c".to_string()]);
    assert!(st.remove(1).is_ok());
    assert_eq!(st.total(), 2);
    let first = st.entry(0).unwrap();
    assert_eq!(first.description.as_str(), "a");
    assert!(!first.completed);
    let second = st.entry(1).unwrap();
    assert_eq!(second.description.as_str(), "b");
    assert!(second.completed);
}

#[test]
fn scenario_completed_toggle_only_match() {
    let mut st = State::new(vec![e("a", false), e("b", true)]);
    st.set_filter(Filter::Completed);
    assert!(st.toggle(0).is_ok());
    let a = st.entry(0).unwrap();
    assert_eq!(a.description.as_str(), "a");
    assert!(!a.completed);
    let b = st.entry(1).unwrap();
    assert_eq!(b.description.as_str(), "b");
    assert!(!b.completed);
}

#[test]
fn scenario_empty_any_filter() {
    for f in [Filter::All, Filter::Active, Filter::Completed] {
        let mut st = State::new(Vec::new());
        st.set_filter(f);
        assert!(!st.is_all_completed());
        assert_eq!(st.total(), 0);
    }
}

#[test]
fn filtered_view_is_ordered_subsequence() {
    let entries = vec![e("a", false), e("b", true), e("c", false), e("d", true)];
    let mut st = State::new(entries);
    assert_eq!(
        descriptions(&st.filtered_entries()),
        vec!["a".to_string(), "b".to_string(), "c".to_string(), "d".to_string()]
    );
    st.set_filter(Filter::Active);
    assert_eq!(descriptions(&st.filtered_entries()), vec!["a".to_string(), "c".to_string()]);
    st.set_filter(Filter::Completed);
    assert_eq!(descriptions(&st.filtered_entries()), vec!["b".to_string(), "d".to_string()]);
}

#[test]
fn toggle_flips_only_target() {
    let mut st = State::new(vec![e("a", false), e("b", false), e("c", true)]);
    assert!(st.toggle(1).is_ok());
    assert!(!st.entry(0).unwrap().completed);
    assert!(st.entry(1).unwrap().completed);
    assert!(st.entry(2).unwrap().completed);
}

#[test]
fn remove_shifts_later_entries_down() {
    let mut st = State::new(vec![e("a", false), e("b", false), e("c", false)]);
    assert_eq!(st.total(), 3);
    assert!(st.remove(1).is_ok());
    assert_eq!(st.total(), 2);
    assert_eq!(st.entry(0).unwrap().description.as_str(), "a");
    assert_eq!(st.entry(1).unwrap().description.as_str(), "c");
}

#[test]
fn toggle_all_then_all_completed() {
    let mut st = State::new(vec![e("a", false), e("b", true)]);
    assert!(!st.is_all_completed());
    st.toggle_all(true);
    assert!(st.is_all_completed());

    let mut st2 = State::new(vec![e("x", false)]);
    st2.set_filter(Filter::Completed);
    assert!(!st2.is_all_completed());
    st2.toggle_all(true);
    assert!(!st2.is_all_completed());

    let mut st3 = State::new(vec![e("x", true)]);
    st3.set_filter(Filter::Completed);
    st3.toggle_all(true);
    assert!(st3.is_all_completed());
}

#[test]
fn toggle_all_under_active_filter_empties_view() {
    let mut st = State::new(vec![e("a", false), e("b", false)]);
    st.set_filter(Filter::Active);
    st.toggle_all(true);
    assert!(st.filtered_entries().is_empty());
    assert!(!st.is_all_completed());
    assert_eq!(st.total_completed(), 2);
}

#[test]
fn clear_completed_keeps_active_in_order() {
    let mut st = State::new(vec![e("a", true), e("b", false), e("c", true), e("d", false)]);
    st.set_filter(Filter::Completed);
    st.clear_completed();
    assert_eq!(st.total(), 2);
    assert_eq!(st.entry(0).unwrap().description.as_str(), "b");
    assert_eq!(st.entry(1).unwrap().description.as_str(), "d");
    assert_eq!(st.total_completed(), 0);
}

#[test]
fn out_of_range_is_recoverable() {
    let mut st = State::new(vec![e("a", false), e("b", true)]);
    st.set_filter(Filter::Completed);
    assert_eq!(st.toggle(1), Err(StoreError::IndexOutOfRange));
    assert_eq!(st.toggle_edit(1), Err(StoreError::IndexOutOfRange));
    assert_eq!(st.remove(5), Err(StoreError::IndexOutOfRange));
    assert_eq!(st.complete_edit(1, "x".to_string()), Err(StoreError::IndexOutOfRange));
    assert_eq!(st.total(), 2);
    assert_eq!(st.entry(0).unwrap().description.as_str(), "a");
    assert_eq!(st.entry(1).unwrap().description.as_str(), "b");
    assert!(st.entry(1).unwrap().completed);
}

#[test]
fn toggle_edit_flips_editing() {
    let mut st = State::new(vec![e("a", false)]);
    assert!(st.toggle_edit(0).is_ok());
    assert!(st.entry(0).unwrap().editing);
    assert!(st.toggle_edit(0).is_ok());
    assert!(!st.entry(0).unwrap().editing);
}

#[test]
fn complete_edit_sets_description_and_flips_editing() {
    let mut st = State::new(vec![e("a", false)]);
    assert!(st.toggle_edit(0).is_ok());
    assert!(st.complete_edit(0, "renamed".to_string()).is_ok());
    let entry = st.entry(0).unwrap();
    assert_eq!(entry.description.as_str(), "renamed");
    assert!(!entry.editing);
}

#[test]
fn complete_edit_flips_rather_than_clears() {
    let mut st = State::new(vec![e("a", false)]);
    assert!(st.complete_edit(0, "renamed".to_string()).is_ok());
    assert!(st.entry(0).unwrap().editing);
}

#[test]
fn add_appends_regardless_of_filter() {
    let mut st = State::new(vec![e("a", true)]);
    st.set_filter(Filter::Completed);
    st.add("new task".to_string());
    assert_eq!(st.total(), 2);
    let added = st.entry(1).unwrap();
    assert_eq!(added.description.as_str(), "new task");
    assert!(!added.completed);
    assert!(!added.editing);
    assert!(st.filtered_entries().len() == 1);
}

#[test]
fn counts_ignore_filter() {
    let mut st = State::new(vec![e("a", true), e("b", false), e("c", true)]);
    st.set_filter(Filter::Active);
    assert_eq!(st.total(), 3);
    assert_eq!(st.total_completed(), 2);
}
