use todomvc::Entry;
use todomvc::Filter;
use todomvc::Msg;
use todomvc::State;

fn e(d: &str, completed: bool) -> Entry {
    Entry { description: d.to_string(), completed, editing: false }
}

#[test]
fn update_then_add_appends_and_clears_buffer() {
    let mut st = State::new(Vec::new());
    assert!(st.update(Msg::Update("walk the dog".to_string())));
    assert_eq!(st.value().as_str(), "walk the dog");
    assert!(st.update(Msg::Add));
    assert_eq!(st.value().as_str(), "");
    assert_eq!(st.total(), 1);
    assert_eq!(st.entry(0).unwrap().description.as_str(), "walk the dog");
}

#[test]
fn update_edit_then_edit_renames() {
    let mut st = State::new(vec![e("old name", false)]);
    assert!(st.update(Msg::ToggleEdit(0)));
    assert_eq!(st.edit_value().as_str(), "old name");
    assert!(st.entry(0).unwrap().editing);
    assert!(st.update(Msg::UpdateEdit("new name".to_string())));
    assert!(st.update(Msg::Edit(0)));
    assert_eq!(st.entry(0).unwrap().description.as_str(), "new name");
    assert!(!st.entry(0).unwrap().editing);
    assert_eq!(st.edit_value().as_str(), "");
}

#[test]
fn toggle_edit_seeds_buffer_from_filtered_view() {
    let mut st = State::new(vec![e("active one", false), e("done one", true)]);
    st.update(Msg::SetFilter(Filter::Completed));
    assert!(st.update(Msg::ToggleEdit(0)));
    assert_eq!(st.edit_value().as_str(), "done one");
    assert!(st.entry(1).unwrap().editing);
    assert!(!st.entry(0).unwrap().editing);
}

#[test]
fn set_filter_changes_view_only() {
    let mut st = State::new(vec![e("a", false), e("b", true)]);
    assert!(st.update(Msg::SetFilter(Filter::Active)));
    assert_eq!(st.active_filter(), Filter::Active);
    assert_eq!(st.total(), 2);
    assert_eq!(st.filtered_entries().len(), 1);
}

#[test]
fn toggle_all_command_flips_view_status() {
    let mut st = State::new(vec![e("a", false), e("b", false)]);
    assert!(st.update(Msg::ToggleAll));
    assert!(st.is_all_completed());
    assert!(st.update(Msg::ToggleAll));
    assert!(!st.is_all_completed());
    assert_eq!(st.total_completed(), 0);
}

#[test]
fn toggle_and_remove_commands() {
    let mut st = State::new(vec![e("a", false), e("b", false)]);
    assert!(st.update(Msg::Toggle(1)));
    assert!(st.entry(1).unwrap().completed);
    assert!(st.update(Msg::Remove(0)));
    assert_eq!(st.total(), 1);
    assert_eq!(st.entry(0).unwrap().description.as_str(), "b");
}

#[test]
fn clear_completed_command() {
    let mut st = State::new(vec![e("a", true), e("b", false)]);
    assert!(st.update(Msg::ClearCompleted));
    assert_eq!(st.total(), 1);
    assert_eq!(st.entry(0).unwrap().description.as_str(), "b");
}

#[test]
fn nope_and_stale_indices_leave_state_alone() {
    let mut st = State::new(vec![e("a", false)]);
    assert!(st.update(Msg::Nope));
    assert!(st.update(Msg::Toggle(99)));
    assert!(st.update(Msg::Remove(99)));
    assert!(st.update(Msg::ToggleEdit(99)));
    assert!(st.update(Msg::Edit(99)));
    assert_eq!(st.total(), 1);
    assert_eq!(st.entry(0).unwrap().description.as_str(), "a");
    assert!(!st.entry(0).unwrap().completed);
}

#[test]
fn filter_labels_links_and_fit() {
    assert_eq!(Filter::All.label().as_str(), "All");
    assert_eq!(Filter::Active.label().as_str(), "Active");
    assert_eq!(Filter::Completed.label().as_str(), "Completed");
    assert_eq!(Filter::All.link_target().as_str(), "#/");
    assert_eq!(Filter::Active.link_target().as_str(), "#/active");
    assert_eq!(Filter::Completed.link_target().as_str(), "#/completed");
    let done = e("x", true);
    let open = e("y", false);
    assert!(Filter::All.fit(&done) && Filter::All.fit(&open));
    assert!(!Filter::Active.fit(&done) && Filter::Active.fit(&open));
    assert!(Filter::Completed.fit(&done) && !Filter::Completed.fit(&open));
    assert_eq!(Filter::all_filters(), vec![Filter::All, Filter::Active, Filter::Completed]);
}
