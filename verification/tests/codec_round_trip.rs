use todomvc::codec::decode;
use todomvc::codec::encode;
use todomvc::Entry;
use todomvc::State;

fn e(d: &str, completed: bool, editing: bool) -> Entry {
    Entry { description: d.to_string(), completed, editing }
}

#[test]
fn round_trip_empty() {
    let blob = encode(&Vec::new());
    assert!(blob.is_empty());
    let back = decode(&blob).unwrap();
    assert!(back.is_empty());
}

#[test]
fn round_trip_entries() {
    let entries = vec![
        e("buy milk", false, false),
        e("", true, false),
        e("héllo ☃ snowman", true, true),
        e("tabs\tand\nnewlines", false, true),
    ];
    let blob = encode(&entries);
    let back = decode(&blob).unwrap();
    assert_eq!(back.len(), entries.len());
    for (a, b) in entries.iter().zip(back.iter()) {
        assert_eq!(a.description, b.description);
        assert_eq!(a.completed, b.completed);
        assert_eq!(a.editing, b.editing);
    }
}

#[test]
fn encode_exact_bytes() {
    let blob = encode(&vec![e("A", true, false)]);
    assert_eq!(blob, vec![1u8, 1, 0, 0, 0, 0, 0, 0, 0, 65, 0, 0, 0]);
}

#[test]
fn decode_rejects_truncated() {
    let blob = encode(&vec![e("ab", false, false)]);
    let cut = blob[..blob.len() - 1].to_vec();
    assert!(decode(&cut).is_none());
    assert!(decode(&vec![0u8]).is_none());
}

#[test]
fn decode_rejects_bad_flags() {
    let blob = vec![4u8, 0, 0, 0, 0, 0, 0, 0, 0];
    assert!(decode(&blob).is_none());
    let blob2 = vec![255u8, 0, 0, 0, 0, 0, 0, 0, 0];
    assert!(decode(&blob2).is_none());
}

#[test]
fn decode_rejects_surrogate_code_point() {
    // one entry, one character whose four bytes name the surrogate 0xD800
    let blob = vec![0u8, 1, 0, 0, 0, 0, 0, 0, 0, 0x00, 0xD8, 0, 0];
    assert!(decode(&blob).is_none());
}

#[test]
fn decode_rejects_overlong_length() {
    // one entry claiming more characters than the blob holds
    let blob = vec![0u8, 9, 0, 0, 0, 0, 0, 0, 0, 65, 0, 0, 0];
    assert!(decode(&blob).is_none());
}

#[test]
fn decode_then_encode_is_identity() {
    // one entry "Hi", completed and editing, written out by hand
    let blob = vec![3u8, 2, 0, 0, 0, 0, 0, 0, 0, 0x48, 0, 0, 0, 0x69, 0, 0, 0];
    let entries = decode(&blob).unwrap();
    assert_eq!(entries.len(), 1);
    assert_eq!(entries[0].description.as_str(), "Hi");
    assert!(entries[0].completed && entries[0].editing);
    assert_eq!(encode(&entries), blob);
}

#[test]
fn snapshot_restore_round_trip() {
    let mut st = State::new(vec![e("one", false, false), e("two", true, false)]);
    st.add("three".to_string());
    let blob = st.snapshot();
    let st2 = State::restore(Some(&blob));
    assert_eq!(st2.total(), 3);
    assert_eq!(st2.entry(0).unwrap().description.as_str(), "one");
    assert_eq!(st2.entry(1).unwrap().description.as_str(), "two");
    assert!(st2.entry(1).unwrap().completed);
    assert_eq!(st2.entry(2).unwrap().description.as_str(), "three");
}

#[test]
fn restore_absent_or_garbage_starts_empty() {
    let st = State::restore(None);
    assert_eq!(st.total(), 0);
    let garbage = vec![9u8, 9, 9];
    let st2 = State::restore(Some(&garbage));
    assert_eq!(st2.total(), 0);
}
