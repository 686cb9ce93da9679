use todolists::date::Date;
use todolists::store::{check_list_name, str_eq, str_lt, ListError, ListFile};

#[test]
fn new_store_is_empty_and_unfocused() {
    let s = ListFile::new();
    assert_eq!(s.num_lists(), 0);
    assert_eq!(s.focused, None);
}

#[test]
fn create_list_adds_and_focuses_first() {
    let mut s = ListFile::new();
    s.create_list("work").unwrap();
    assert_eq!(s.num_lists(), 1);
    assert_eq!(s.focused.as_deref(), Some("work"));
    s.create_list("home").unwrap();
    // Focus stays with the first list.
    assert_eq!(s.focused.as_deref(), Some("work"));
    assert_eq!(s.num_lists(), 2);
}

#[test]
fn create_list_includes_name_exactly_once() {
    let mut s = ListFile::new();
    s.create_list("work").unwrap();
    let names = s.get_list_names();
    assert_eq!(names.iter().filter(|n| n.as_str() == "work").count(), 1);
}

#[test]
fn duplicate_create_fails_and_changes_nothing() {
    let mut s = ListFile::new();
    s.create_list("work").unwrap();
    match s.create_list("work") {
        Err(ListError::DuplicateListName { name }) => assert_eq!(name, "work"),
        other => panic!("expected a duplicate-name failure, got {:?}", other),
    }
    assert_eq!(s.num_lists(), 1);
    assert_eq!(s.focused.as_deref(), Some("work"));
}

#[test]
fn delete_only_list_clears_focus() {
    let mut s = ListFile::new();
    s.create_list("work").unwrap();
    s.delete_list("work", "work").unwrap();
    assert_eq!(s.num_lists(), 0);
    assert_eq!(s.focused, None);
    match s.get_focused() {
        Err(ListError::NoFocusedList) => {},
        other => panic!("expected no focused list, got {:?}", other),
    }
}

#[test]
fn delete_focused_refocuses_alphabetically_first() {
    let mut s = ListFile::new();
    s.create_list("beta").unwrap();
    s.create_list("alpha").unwrap();
    s.create_list("gamma").unwrap();
    assert_eq!(s.focused.as_deref(), Some("beta"));
    s.delete_list("beta", "beta").unwrap();
    assert_eq!(s.focused.as_deref(), Some("alpha"));
    assert_eq!(s.num_lists(), 2);
}

#[test]
fn delete_unfocused_keeps_focus() {
    let mut s = ListFile::new();
    s.create_list("beta").unwrap();
    s.create_list("alpha").unwrap();
    s.delete_list("alpha", "alpha").unwrap();
    assert_eq!(s.focused.as_deref(), Some("beta"));
}

#[test]
fn delete_missing_list_fails() {
    let mut s = ListFile::new();
    match s.delete_list("ghost", "ghost") {
        Err(ListError::NonexistentListName { name }) => assert_eq!(name, "ghost"),
        other => panic!("expected a nonexistent-name failure, got {:?}", other),
    }
}

#[test]
fn delete_with_wrong_confirmation_fails() {
    let mut s = ListFile::new();
    s.create_list("work").unwrap();
    match s.delete_list("work", "wrok") {
        Err(ListError::FailedDeleteConfirmation { entered, requested }) => {
            assert_eq!(entered, "wrok");
            assert_eq!(requested, "work");
        },
        other => panic!("expected a confirmation failure, got {:?}", other),
    }
    assert_eq!(s.num_lists(), 1);
}

#[test]
fn shift_focus_moves_and_rejects_missing() {
    let mut s = ListFile::new();
    s.create_list("a").unwrap();
    s.create_list("b").unwrap();
    s.shift_focus("b").unwrap();
    assert_eq!(s.focused.as_deref(), Some("b"));
    match s.shift_focus("zzz") {
        Err(ListError::NonexistentListName { name }) => assert_eq!(name, "zzz"),
        other => panic!("expected a nonexistent-name failure, got {:?}", other),
    }
    assert_eq!(s.focused.as_deref(), Some("b"));
}

#[test]
fn get_focused_returns_the_focused_list() {
    let mut s = ListFile::new();
    s.create_list("a").unwrap();
    s.create_list("b").unwrap();
    s.shift_focus("b").unwrap();
    let l = s.get_focused().unwrap();
    assert_eq!(l.name, "b");
}

#[test]
fn get_mut_focused_edits_the_focused_list() {
    let mut s = ListFile::new();
    s.create_list("a").unwrap();
    {
        let l = s.get_mut_focused().unwrap();
        l.add_tasks(vec![String::from("t")], Some(Date::new(1, 2, None)));
    }
    let l = s.get_focused().unwrap();
    assert_eq!(l.tasks.len(), 1);
    assert_eq!(l.tasks[0].title, "t");
}

#[test]
fn list_names_reports_all_lists() {
    let mut s = ListFile::new();
    s.create_list("b").unwrap();
    s.create_list("a").unwrap();
    let mut names = s.get_list_names();
    names.sort();
    assert_eq!(names, vec!["a", "b"]);
}

#[test]
fn valid_names_pass_validation() {
    for good in ["a", "A", "7", "work", "my-list", "a_b", "a1-b2_c3", "x9"] {
        assert!(check_list_name(good), "{} should be valid", good);
    }
}

#[test]
fn invalid_names_fail_validation() {
    for bad in ["", "-a", "a-", "_a", "a_", "has space", "tschüß", "a.b", "-"] {
        assert!(!check_list_name(bad), "{} should be invalid", bad);
    }
}

#[test]
fn text_order_and_equality_match_their_meaning() {
    assert!(str_eq("abc", "abc"));
    assert!(!str_eq("abc", "abd"));
    assert!(str_lt("abc", "abd"));
    assert!(str_lt("ab", "abc"));
    assert!(!str_lt("abc", "abc"));
    assert!(!str_lt("b", "aaa"));
}
