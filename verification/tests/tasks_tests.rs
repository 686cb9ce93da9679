use todolists::date::Date;
use todolists::tasks::{sort_tasks_by_due, sort_uniq_reverse, Task, TodoList};

const YEAR: u16 = 2026;

fn list_with(titles_dates: Vec<(&str, Option<Date>)>) -> TodoList {
    let mut l = TodoList::new(String::from("work"));
    for (t, d) in titles_dates {
        l.add_tasks(vec![t.to_string()], d);
    }
    l
}

fn rendered(l: &TodoList) -> Vec<String> {
    l.render_tasks_at(YEAR)
}

#[test]
fn new_list_is_empty() {
    let l = TodoList::new(String::from("work"));
    assert_eq!(l.name, "work");
    assert!(l.tasks.is_empty());
}

#[test]
fn add_tasks_appends_incomplete_in_order() {
    let mut l = TodoList::new(String::from("work"));
    l.add_tasks(vec![String::from("a"), String::from("b")], None);
    assert_eq!(l.tasks.len(), 2);
    assert_eq!(l.tasks[0].title, "a");
    assert_eq!(l.tasks[1].title, "b");
    assert!(!l.tasks[0].complete);
    assert!(!l.tasks[1].complete);
    assert_eq!(l.tasks[0].date, None);
}

#[test]
fn render_dateless_keeps_insertion_order() {
    let mut l = TodoList::new(String::from("work"));
    l.add_tasks(vec![String::from("a"), String::from("b")], None);
    let lines = rendered(&l);
    assert_eq!(lines, vec!["1| ✕ a", "2| ✕ b"]);
}

#[test]
fn render_sorts_past_year_first() {
    // Dates 03/10, 01/05, 12/25/2020 render as 12/25/2020, 01/05, 03/10
    // when the current year is later than 2020.
    let l = list_with(vec![
        ("a", Some(Date::new(3, 10, None))),
        ("b", Some(Date::new(1, 5, None))),
        ("c", Some(Date::new(12, 25, Some(2020)))),
    ]);
    let lines = rendered(&l);
    assert_eq!(lines, vec!["1| ✕ [12/25/2020] c", "2| ✕ [01/05] b", "3| ✕ [03/10] a"]);
}

#[test]
fn render_puts_dateless_before_dated() {
    let l = list_with(vec![
        ("dated", Some(Date::new(1, 1, None))),
        ("free", None),
    ]);
    let lines = rendered(&l);
    assert_eq!(lines, vec!["1| ✕ free", "2| ✕ [01/01] dated"]);
}

#[test]
fn render_pads_numbers_to_count_width() {
    let mut l = TodoList::new(String::from("work"));
    let titles: Vec<String> = (0..10).map(|i| format!("t{}", i)).collect();
    l.add_tasks(titles, None);
    let lines = rendered(&l);
    assert_eq!(lines.len(), 10);
    assert_eq!(lines[0], "1 | ✕ t0");
    assert_eq!(lines[9], "10| ✕ t9");
}

#[test]
fn sort_is_stable_for_equal_dates() {
    let d = Some(Date::new(5, 5, None));
    let l = list_with(vec![("first", d), ("second", d)]);
    let sorted = sort_tasks_by_due(l.tasks, YEAR);
    assert_eq!(sorted[0].title, "first");
    assert_eq!(sorted[1].title, "second");
}

#[test]
fn sort_uniq_reverse_normalises_indices() {
    let r = sort_uniq_reverse(vec![3, 1, 2, 2, 0]);
    assert_eq!(r, vec![2, 1, 0]);
}

#[test]
fn drop_second_of_three_in_sorted_order() {
    // The sorted view is c (12/25/2020), b (01/05), a (03/10); dropping
    // index 2 removes b, the second item of the sorted view.
    let mut l = list_with(vec![
        ("a", Some(Date::new(3, 10, None))),
        ("b", Some(Date::new(1, 5, None))),
        ("c", Some(Date::new(12, 25, Some(2020)))),
    ]);
    l.drop_tasks_at(vec![2], YEAR);
    let lines = rendered(&l);
    assert_eq!(lines, vec!["1| ✕ [12/25/2020] c", "2| ✕ [03/10] a"]);
}

#[test]
fn drop_ignores_out_of_range_indices() {
    let mut l = list_with(vec![("a", None), ("b", None)]);
    l.drop_tasks_at(vec![99, 0], YEAR);
    assert_eq!(rendered(&l), vec!["1| ✕ a", "2| ✕ b"]);
}

#[test]
fn drop_several_highest_first() {
    let mut l = list_with(vec![("a", None), ("b", None), ("c", None), ("d", None)]);
    l.drop_tasks_at(vec![1, 3], YEAR);
    assert_eq!(rendered(&l), vec!["1| ✕ b", "2| ✕ d"]);
}

#[test]
fn completion_marks_selected_sorted_indices() {
    let mut l = list_with(vec![("a", None), ("b", None), ("c", None)]);
    l.update_completions_at(vec![1, 3], true, YEAR);
    assert_eq!(rendered(&l), vec!["1| ✓ a", "2| ✕ b", "3| ✓ c"]);
    l.update_completions_at(vec![1], false, YEAR);
    assert_eq!(rendered(&l), vec!["1| ✕ a", "2| ✕ b", "3| ✓ c"]);
}

#[test]
fn completion_out_of_range_is_a_no_op() {
    let mut l = list_with(vec![("a", None), ("b", None)]);
    let before = rendered(&l);
    l.update_completions_at(vec![99], true, YEAR);
    assert_eq!(rendered(&l), before);
    assert!(!l.tasks[0].complete && !l.tasks[1].complete);
}

#[test]
fn wall_clock_operations_behave_on_dateless_tasks() {
    // Dateless tasks sort the same under every current year, so the
    // wall-clock variants act deterministically on them.
    let mut l = list_with(vec![("a", None), ("b", None), ("c", None)]);
    l.update_completions(vec![2], true);
    assert_eq!(l.tasks[1].title, "b");
    assert!(l.tasks[1].complete);
    l.drop_tasks(vec![1]);
    assert_eq!(l.tasks.len(), 2);
    assert_eq!(l.tasks[0].title, "b");
    let lines = l.render_tasks();
    assert_eq!(lines, vec!["1| ✓ b", "2| ✕ c"]);
}

#[test]
fn tasks_clone_keeps_fields() {
    let t = Task { title: String::from("x"), date: Some(Date::new(1, 2, Some(2025))), complete: true };
    let c = t.clone();
    assert_eq!(c.title, t.title);
    assert_eq!(c.date, t.date);
    assert_eq!(c.complete, t.complete);
}
