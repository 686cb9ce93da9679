use todolists::codec::{decode_store, encode_store};
use todolists::date::Date;
use todolists::store::ListFile;

fn sample_store() -> ListFile {
    let mut s = ListFile::new();
    s.create_list("work").unwrap();
    s.create_list("home").unwrap();
    {
        let l = s.get_mut_focused().unwrap();
        l.add_tasks(
            vec![String::from("café ✓ αβ"), String::from("plain")],
            Some(Date::new(12, 25, Some(2020))),
        );
        l.add_tasks(vec![String::from("undated")], None);
        l.update_completions_at(vec![1], true, 2026);
    }
    s.shift_focus("home").unwrap();
    s
}

#[test]
fn round_trip_is_field_for_field_identical() {
    let s = sample_store();
    let bytes = encode_store(&s);
    let t = decode_store(&bytes).expect("a serialized store reads back");
    assert_eq!(t.focused, s.focused);
    assert_eq!(t.lists.len(), s.lists.len());
    for (a, b) in s.lists.iter().zip(t.lists.iter()) {
        assert_eq!(a.name, b.name);
        assert_eq!(a.tasks.len(), b.tasks.len());
        for (x, y) in a.tasks.iter().zip(b.tasks.iter()) {
            assert_eq!(x.title, y.title);
            assert_eq!(x.date, y.date);
            assert_eq!(x.complete, y.complete);
        }
    }
}

#[test]
fn round_trip_of_empty_store() {
    let s = ListFile::new();
    let bytes = encode_store(&s);
    let t = decode_store(&bytes).expect("an empty store reads back");
    assert_eq!(t.focused, None);
    assert!(t.lists.is_empty());
}

#[test]
fn decoding_garbage_fails() {
    assert!(decode_store(&vec![]).is_none());
    assert!(decode_store(&vec![7]).is_none());
    assert!(decode_store(&vec![1, 2, 3, 4]).is_none());
}

#[test]
fn decoding_truncated_bytes_fails() {
    let s = sample_store();
    let mut bytes = encode_store(&s);
    bytes.pop();
    assert!(decode_store(&bytes).is_none());
}

#[test]
fn decoding_rejects_trailing_bytes() {
    let s = sample_store();
    let mut bytes = encode_store(&s);
    bytes.push(0);
    assert!(decode_store(&bytes).is_none());
}

#[test]
fn decoding_rejects_an_ill_formed_store() {
    // A store whose focus names a missing list must not read back.
    let mut s = ListFile::new();
    s.create_list("work").unwrap();
    s.focused = Some(String::from("ghost"));
    let bytes = encode_store(&s);
    assert!(decode_store(&bytes).is_none());
}
