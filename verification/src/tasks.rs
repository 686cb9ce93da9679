//! Task lists: ordered tasks with a title, a completion flag and an
//! optional due date.
//!
//! Tasks are stored in insertion order, but they are displayed — and
//! addressed by user-supplied indices — in their due-date-sorted order
//! (a stable sort; dateless tasks come first, and dates without a year
//! resolve to the current year). Dropping and completing tasks therefore
//! first normalises the given 1-based sorted-view indices and then works
//! on the sorted sequence, highest index first.

use vstd::prelude::*;

use crate::date::Date;
use crate::date::current_year;
use crate::date::date_le;
use crate::date::date_le_at;
use crate::date::dec_digits;
use crate::date::format_date;
use crate::date::push_decimal;
use crate::date::resolve_year;
use crate::date::spec_format_date;

verus! {

/// One entry of a task list.
#[derive(Debug)]
pub struct Task {
    pub title: String,
    pub date: Option<Date>,
    pub complete: bool,
}

impl Clone for Task {
    /// A clone keeps the title, date and completion flag.
    fn clone(&self) -> (r: Self)
        ensures
            r == *self,
    {
        Task { title: self.title.clone(), date: self.date, complete: self.complete }
    }
}

/// A named, ordered collection of tasks.
#[derive(Debug)]
pub struct TodoList {
    pub name: String,
    pub tasks: Vec<Task>,
}

// ---------------------------------------------------------------------------
// The due-date order on tasks.
// ---------------------------------------------------------------------------

/// Due-date order under current year `y`: a dateless task precedes every
/// dated one, and dated tasks follow the chronological order of their
/// dates. Titles and flags play no part.
pub open spec fn task_le_at(a: Task, b: Task, y: u16) -> bool {
    match (a.date, b.date) {
        (None, _) => true,
        (Some(da), None) => false,
        (Some(da), Some(db)) => date_le_at(da, db, y),
    }
}

/// Compares two tasks in due-date order under current year `y`.
pub fn task_le(a: &Task, b: &Task, y: u16) -> (r: bool)
    ensures
        r == task_le_at(*a, *b, y),
{
    match (a.date, b.date) {
        (None, _) => true,
        (Some(_), None) => false,
        (Some(da), Some(db)) => date_le(da, db, y),
    }
}

/// The due-date order relates every pair of tasks.
pub proof fn lemma_task_le_total(a: Task, b: Task, y: u16)
    ensures
        task_le_at(a, b, y) || task_le_at(b, a, y),
{
}

/// The due-date order is transitive.
pub proof fn lemma_task_le_trans(a: Task, b: Task, c: Task, y: u16)
    requires
        task_le_at(a, b, y),
        task_le_at(b, c, y),
    ensures
        task_le_at(a, c, y),
{
}

/// A sequence of tasks arranged in due-date order.
pub open spec fn tasks_sorted_at(s: Seq<Task>, y: u16) -> bool {
    forall|i: int, j: int| 0 <= i <= j < s.len() ==> task_le_at(s[i], s[j], y)
}

// ---------------------------------------------------------------------------
// The stable sort that defines the displayed view.
// ---------------------------------------------------------------------------

/// Inserts `t` after every already-placed task that compares less than
/// or equal to it, which keeps the sort stable.
pub open spec fn insert_by_due(t: Task, s: Seq<Task>, y: u16) -> Seq<Task>
    decreases s.len(),
{
    if s.len() == 0 {
        seq![t]
    } else if task_le_at(s[0], t, y) {
        seq![s[0]] + insert_by_due(t, s.skip(1), y)
    } else {
        seq![t] + s
    }
}

/// The due-date-sorted view of a task sequence: a stable insertion sort
/// under current year `y`.
pub open spec fn sort_by_due(s: Seq<Task>, y: u16) -> Seq<Task>
    decreases s.len(),
{
    if s.len() == 0 {
        Seq::<Task>::empty()
    } else {
        insert_by_due(s.last(), sort_by_due(s.drop_last(), y), y)
    }
}

proof fn lemma_insert_by_due_len(t: Task, s: Seq<Task>, y: u16)
    ensures
        insert_by_due(t, s, y).len() == s.len() + 1,
    decreases s.len(),
{
    if s.len() > 0 && task_le_at(s[0], t, y) {
        lemma_insert_by_due_len(t, s.skip(1), y);
    }
}

/// Sorting does not change how many tasks there are.
pub proof fn lemma_sort_by_due_len(s: Seq<Task>, y: u16)
    ensures
        sort_by_due(s, y).len() == s.len(),
    decreases s.len(),
{
    if s.len() > 0 {
        lemma_sort_by_due_len(s.drop_last(), y);
        lemma_insert_by_due_len(s.last(), sort_by_due(s.drop_last(), y), y);
    }
}

proof fn lemma_insert_by_due_sorted(t: Task, s: Seq<Task>, y: u16)
    requires
        tasks_sorted_at(s, y),
    ensures
        tasks_sorted_at(insert_by_due(t, s, y), y),
    decreases s.len(),
{
    lemma_insert_by_due_len(t, s, y);
    if s.len() == 0 {
    } else if task_le_at(s[0], t, y) {
        let tail = s.skip(1);
        assert(tasks_sorted_at(tail, y)) by {
            assert(forall|i: int, j: int|
                0 <= i <= j < tail.len() ==> tail[i] == s[i + 1] && tail[j] == s[j + 1]);
        }
        lemma_insert_by_due_sorted(t, tail, y);
        let r = seq![s[0]] + insert_by_due(t, tail, y);
        let it = insert_by_due(t, tail, y);
        assert forall|i: int, j: int| 0 <= i <= j < r.len() implies task_le_at(r[i], r[j], y) by {
            if i == 0 && j > 0 {
                // s[0] precedes everything inserted into the tail.
                lemma_insert_by_due_contains(t, tail, y, j - 1);
                if it[j - 1] == t {
                    assert(task_le_at(s[0], t, y));
                } else {
                    let m = choose|m: int| 0 <= m < tail.len() && tail[m] == it[j - 1];
                    assert(tail[m] == s[m + 1]);
                    assert(task_le_at(s[0], s[m + 1], y));
                }
            } else if i > 0 {
                assert(r[i] == it[i - 1] && r[j] == it[j - 1]);
            }
        }
    } else {
        // t goes first; everything in s is >= t by totality.
        let r = seq![t] + s;
        assert forall|i: int, j: int| 0 <= i <= j < r.len() implies task_le_at(r[i], r[j], y) by {
            if i == 0 && j > 0 {
                lemma_task_le_total(s[0], t, y);
                if j - 1 > 0 {
                    lemma_task_le_trans(t, s[0], s[j - 1], y);
                }
            }
        }
    }
}

/// Each position of the inserted sequence holds either `t` itself or one
/// of the tasks of `s`.
proof fn lemma_insert_by_due_contains(t: Task, s: Seq<Task>, y: u16, k: int)
    requires
        0 <= k < insert_by_due(t, s, y).len(),
    ensures
        insert_by_due(t, s, y)[k] == t || s.contains(insert_by_due(t, s, y)[k]),
    decreases s.len(),
{
    lemma_insert_by_due_len(t, s, y);
    if s.len() == 0 {
    } else if task_le_at(s[0], t, y) {
        if k == 0 {
            assert(s.contains(s[0]));
        } else {
            let tail = s.skip(1);
            lemma_insert_by_due_contains(t, tail, y, k - 1);
            let e = insert_by_due(t, tail, y)[k - 1];
            assert(insert_by_due(t, s, y)[k] == e);
            if e != t {
                let m = choose|m: int| 0 <= m < tail.len() && tail[m] == e;
                assert(s[m + 1] == e);
                assert(s.contains(e));
            }
        }
    } else {
        if k > 0 {
            assert(insert_by_due(t, s, y)[k] == s[k - 1]);
            assert(s.contains(s[k - 1]));
        }
    }
}

/// Sorting yields a sequence in due-date order.
pub proof fn lemma_sort_by_due_sorted(s: Seq<Task>, y: u16)
    ensures
        tasks_sorted_at(sort_by_due(s, y), y),
    decreases s.len(),
{
    if s.len() > 0 {
        lemma_sort_by_due_sorted(s.drop_last(), y);
        lemma_insert_by_due_sorted(s.last(), sort_by_due(s.drop_last(), y), y);
    }
}

proof fn lemma_insert_by_due_multiset(t: Task, s: Seq<Task>, y: u16)
    ensures
        insert_by_due(t, s, y).to_multiset() == s.to_multiset().insert(t),
    decreases s.len(),
{
    broadcast use vstd::seq_lib::group_seq_properties;

    if s.len() == 0 {
        assert(insert_by_due(t, s, y) =~= Seq::<Task>::empty().push(t));
        assert(Seq::<Task>::empty().push(t).to_multiset() =~= s.to_multiset().insert(t));
    } else if task_le_at(s[0], t, y) {
        let tail = s.skip(1);
        lemma_insert_by_due_multiset(t, tail, y);
        let it = insert_by_due(t, tail, y);
        assert(seq![s[0]] + it =~= it.insert(0, s[0]));
        assert((seq![s[0]] + it).to_multiset() =~= it.to_multiset().insert(s[0]));
        assert(s =~= tail.insert(0, s[0]));
        assert(s.to_multiset() =~= tail.to_multiset().insert(s[0]));
        assert(it.to_multiset().insert(s[0]) =~= tail.to_multiset().insert(t).insert(s[0]));
        assert(tail.to_multiset().insert(t).insert(s[0]) =~= tail.to_multiset().insert(
            s[0],
        ).insert(t));
    } else {
        assert(seq![t] + s =~= s.insert(0, t));
        assert((seq![t] + s).to_multiset() =~= s.to_multiset().insert(t));
    }
}

/// Sorting permutes the tasks: the same tasks, with multiplicity.
pub proof fn lemma_sort_by_due_multiset(s: Seq<Task>, y: u16)
    ensures
        sort_by_due(s, y).to_multiset() == s.to_multiset(),
    decreases s.len(),
{
    broadcast use vstd::seq_lib::group_seq_properties;

    if s.len() > 0 {
        let head = s.drop_last();
        lemma_sort_by_due_multiset(head, y);
        lemma_insert_by_due_multiset(s.last(), sort_by_due(head, y), y);
        assert(s =~= head.push(s.last()));
        assert(s.to_multiset() =~= head.to_multiset().insert(s.last()));
    }
}

/// A sequence of dateless tasks is already its own sorted view: sorting
/// keeps insertion order.
pub proof fn lemma_sort_by_due_dateless(s: Seq<Task>, y: u16)
    requires
        forall|i: int| 0 <= i < s.len() ==> s[i].date is None,
    ensures
        sort_by_due(s, y) == s,
    decreases s.len(),
{
    if s.len() > 0 {
        let head = s.drop_last();
        lemma_sort_by_due_dateless(head, y);
        lemma_insert_dateless_appends(s.last(), head, y);
        assert(head.push(s.last()) =~= s);
    }
}

proof fn lemma_insert_dateless_appends(t: Task, s: Seq<Task>, y: u16)
    requires
        forall|i: int| 0 <= i < s.len() ==> s[i].date is None,
    ensures
        insert_by_due(t, s, y) == s.push(t),
    decreases s.len(),
{
    if s.len() == 0 {
        assert(insert_by_due(t, s, y) =~= s.push(t));
    } else {
        let tail = s.skip(1);
        lemma_insert_dateless_appends(t, tail, y);
        assert(seq![s[0]] + tail.push(t) =~= s.push(t));
    }
}

/// In the sorted view, whatever follows a task dated without a year
/// resolves to the current year or later: entries dated in a past year
/// sort before the present-year ones.
pub proof fn lemma_past_year_sorts_first(s: Seq<Task>, y: u16, i: int, j: int)
    requires
        0 <= i <= j < sort_by_due(s, y).len(),
        sort_by_due(s, y)[i].date matches Some(di) && di.year is None,
        sort_by_due(s, y)[j].date is Some,
    ensures
        resolve_year(sort_by_due(s, y)[j].date.unwrap(), y) >= y,
{
    lemma_sort_by_due_sorted(s, y);
    assert(task_le_at(sort_by_due(s, y)[i], sort_by_due(s, y)[j], y));
}

// ---------------------------------------------------------------------------
// Executable sorting.
// ---------------------------------------------------------------------------

/// Places `t` in an already-sorted vector, after every task that
/// compares less than or equal to it.
fn insert_task_by_due(out: &mut Vec<Task>, t: Task, y: u16)
    ensures
        final(out)@ == insert_by_due(t, old(out)@, y),
{
    let mut j: usize = 0;
    let n = out.len();
    while j < n && task_le(&out[j], &t, y)
        invariant
            j <= n,
            n == out.len(),
            out@ == old(out)@,
            forall|k: int| 0 <= k < j ==> task_le_at(out@[k], t, y),
        decreases n - j,
    {
        j = j + 1;
    }
    out.insert(j, t);
    proof {
        lemma_insert_by_due_at(t, old(out)@, y, j as int);
        assert(out@ =~= old(out)@.take(j as int) + seq![t] + old(out)@.skip(j as int));
    }
}

/// When the first `j` tasks compare at or before `t` and the `j`-th does
/// not, insertion places `t` exactly at position `j`.
proof fn lemma_insert_by_due_at(t: Task, s: Seq<Task>, y: u16, j: int)
    requires
        0 <= j <= s.len(),
        forall|k: int| 0 <= k < j ==> task_le_at(s[k], t, y),
        j < s.len() ==> !task_le_at(s[j], t, y),
    ensures
        insert_by_due(t, s, y) == s.take(j) + seq![t] + s.skip(j),
    decreases j,
{
    if j == 0 {
        if s.len() == 0 {
            assert(insert_by_due(t, s, y) =~= s.take(0) + seq![t] + s.skip(0));
        } else {
            assert(insert_by_due(t, s, y) =~= s.take(0) + seq![t] + s.skip(0));
        }
    } else {
        let tail = s.skip(1);
        assert(forall|k: int| 0 <= k < j - 1 ==> tail[k] == s[k + 1] && task_le_at(s[k + 1], t, y));
        assert(j - 1 < tail.len() ==> tail[j - 1] == s[j]);
        lemma_insert_by_due_at(t, tail, y, j - 1);
        assert(seq![s[0]] + (tail.take(j - 1) + seq![t] + tail.skip(j - 1)) =~= s.take(j)
            + seq![t] + s.skip(j));
    }
}

/// Sorts tasks into their due-date order under current year `y`,
/// stably: tasks that compare equal keep their relative order.
pub fn sort_tasks_by_due(tasks: Vec<Task>, y: u16) -> (r: Vec<Task>)
    ensures
        r@ == sort_by_due(tasks@, y),
{
    let ghost orig = tasks@;
    let mut rest = tasks;
    let mut out: Vec<Task> = Vec::new();
    while rest.len() > 0
        invariant
            orig.len() >= rest.len(),
            rest@ == orig.skip(orig.len() - rest.len()),
            out@ == sort_by_due(orig.take(orig.len() - rest.len()), y),
        decreases rest.len(),
    {
        let ghost k = orig.len() - rest.len();
        let t = rest.remove(0);
        proof {
            assert(t == orig[k]);
            assert(rest@ =~= orig.skip(k + 1));
            assert(orig.take(k + 1).drop_last() =~= orig.take(k));
            assert(orig.take(k + 1).last() == orig[k]);
        }
        insert_task_by_due(&mut out, t, y);
    }
    proof {
        assert(orig.take(orig.len() as int) =~= orig);
    }
    out
}

// ---------------------------------------------------------------------------
// Normalising user-supplied 1-based sorted-view indices.
// ---------------------------------------------------------------------------

/// Places `v` in a strictly descending sequence, keeping it strictly
/// descending; a value already present is not repeated.
pub open spec fn insert_desc(v: usize, s: Seq<usize>) -> Seq<usize>
    decreases s.len(),
{
    if s.len() == 0 {
        seq![v]
    } else if v > s[0] {
        seq![v] + s
    } else if v == s[0] {
        s
    } else {
        seq![s[0]] + insert_desc(v, s.skip(1))
    }
}

/// The distinct 0-based offsets of the 1-based indices of `l`, in
/// strictly descending order; a 0 (no 1-based position) is ignored.
pub open spec fn norm_indices(l: Seq<usize>) -> Seq<usize>
    decreases l.len(),
{
    if l.len() == 0 {
        Seq::<usize>::empty()
    } else {
        let rest = norm_indices(l.drop_last());
        if l.last() >= 1 {
            insert_desc((l.last() - 1) as usize, rest)
        } else {
            rest
        }
    }
}

/// Membership in an `insert_desc` result: the new value, or an old one.
proof fn lemma_insert_desc_membership(v: usize, s: Seq<usize>, x: usize)
    ensures
        insert_desc(v, s).contains(x) <==> (x == v || s.contains(x)),
    decreases s.len(),
{
    let r = insert_desc(v, s);
    if s.len() == 0 {
        if x == v {
            assert(r[0] == x);
        }
    } else if v > s[0] {
        assert(r == seq![v] + s);
        if x == v {
            assert(r[0] == x);
        }
        if s.contains(x) {
            let i = choose|i: int| 0 <= i < s.len() && s[i] == x;
            assert(r[i + 1] == x);
        }
        if r.contains(x) {
            let i = choose|i: int| 0 <= i < r.len() && r[i] == x;
            if i > 0 {
                assert(s[i - 1] == x);
            }
        }
    } else if v == s[0] {
        if x == v {
            assert(s[0] == x);
        }
    } else {
        let tail = s.skip(1);
        lemma_insert_desc_membership(v, tail, x);
        let it = insert_desc(v, tail);
        assert(r == seq![s[0]] + it);
        if x == v || s.contains(x) {
            if x == s[0] {
                assert(r[0] == x);
            } else if x == v {
                let i = choose|i: int| 0 <= i < it.len() && it[i] == x;
                assert(r[i + 1] == x);
            } else {
                let i = choose|i: int| 0 <= i < s.len() && s[i] == x;
                assert(i > 0 && tail[i - 1] == x);
                assert(it.contains(x));
                let k = choose|k: int| 0 <= k < it.len() && it[k] == x;
                assert(r[k + 1] == x);
            }
        }
        if r.contains(x) {
            let i = choose|i: int| 0 <= i < r.len() && r[i] == x;
            if i == 0 {
                assert(s[0] == x);
            } else {
                assert(it[i - 1] == x);
                assert(it.contains(x));
                if x != v {
                    let k = choose|k: int| 0 <= k < tail.len() && tail[k] == x;
                    assert(s[k + 1] == x);
                }
            }
        }
    }
}

/// Membership in the normalised indices: exactly the offsets one below a
/// positive entry of `l`.
pub proof fn lemma_norm_indices_membership(l: Seq<usize>, x: usize)
    ensures
        norm_indices(l).contains(x) <==> (exists|j: int|
            0 <= j < l.len() && l[j] as int == x as int + 1),
    decreases l.len(),
{
    if l.len() > 0 {
        let head = l.drop_last();
        lemma_norm_indices_membership(head, x);
        let rest = norm_indices(head);
        if l.last() >= 1 {
            lemma_insert_desc_membership((l.last() - 1) as usize, rest, x);
        }
        assert(forall|j: int| 0 <= j < head.len() ==> head[j] == l[j]);
        if exists|j: int| 0 <= j < l.len() && l[j] as int == x as int + 1 {
            let j = choose|j: int| 0 <= j < l.len() && l[j] as int == x as int + 1;
            if j < l.len() - 1 {
                assert(head[j] as int == x as int + 1);
            }
        }
        if exists|j: int| 0 <= j < head.len() && head[j] as int == x as int + 1 {
            let j = choose|j: int| 0 <= j < head.len() && head[j] as int == x as int + 1;
            assert(l[j] as int == x as int + 1);
        }
    }
}

/// When the first `j` entries are greater than `v` and the `j`-th is not,
/// `insert_desc` either finds `v` at position `j` or places it there.
proof fn lemma_insert_desc_at(v: usize, s: Seq<usize>, j: int)
    requires
        0 <= j <= s.len(),
        forall|k: int| 0 <= k < j ==> s[k] > v,
        j < s.len() ==> s[j] <= v,
    ensures
        insert_desc(v, s) == if j < s.len() && s[j] == v {
            s
        } else {
            s.take(j) + seq![v] + s.skip(j)
        },
    decreases j,
{
    if j == 0 {
        if s.len() == 0 || s[0] < v {
            assert(insert_desc(v, s) =~= s.take(0) + seq![v] + s.skip(0));
        }
    } else {
        let tail = s.skip(1);
        assert(forall|k: int| 0 <= k < j - 1 ==> tail[k] == s[k + 1] && s[k + 1] > v);
        assert(j - 1 < tail.len() ==> tail[j - 1] == s[j]);
        lemma_insert_desc_at(v, tail, j - 1);
        if j < s.len() && s[j] == v {
            assert(insert_desc(v, s) =~= s);
        } else {
            assert(seq![s[0]] + (tail.take(j - 1) + seq![v] + tail.skip(j - 1)) =~= s.take(j)
                + seq![v] + s.skip(j));
        }
    }
}

/// Turns user-supplied 1-based sorted-view indices into the distinct
/// 0-based offsets they address, in strictly descending order, so that
/// removing by offset never disturbs an offset still to be processed.
/// Zero, which addresses no 1-based position, is dropped.
pub fn sort_uniq_reverse(l: Vec<usize>) -> (r: Vec<usize>)
    ensures
        r@ == norm_indices(l@),
{
    let ghost orig = l@;
    let mut rest = l;
    let mut out: Vec<usize> = Vec::new();
    while rest.len() > 0
        invariant
            orig.len() >= rest.len(),
            rest@ == orig.skip(orig.len() - rest.len()),
            out@ == norm_indices(orig.take(orig.len() - rest.len())),
        decreases rest.len(),
    {
        let ghost k = orig.len() - rest.len();
        let x = rest.remove(0);
        proof {
            assert(x == orig[k]);
            assert(rest@ =~= orig.skip(k + 1));
            assert(orig.take(k + 1).drop_last() =~= orig.take(k));
            assert(orig.take(k + 1).last() == orig[k]);
        }
        if x >= 1 {
            let v = x - 1;
            let mut j: usize = 0;
            let n = out.len();
            while j < n && out[j] > v
                invariant
                    j <= n,
                    n == out.len(),
                    out@ == norm_indices(orig.take(k)),
                    forall|m: int| 0 <= m < j ==> out@[m] > v,
                decreases n - j,
            {
                j = j + 1;
            }
            if j < n && out[j] == v {
                proof {
                    lemma_insert_desc_at(v, out@, j as int);
                }
            } else {
                proof {
                    lemma_insert_desc_at(v, out@, j as int);
                }
                out.insert(j, v);
                proof {
                    assert(out@ =~= norm_indices(orig.take(k)).take(j as int) + seq![v]
                        + norm_indices(orig.take(k)).skip(j as int));
                }
            }
        }
    }
    proof {
        assert(orig.take(orig.len() as int) =~= orig);
    }
    out
}

// ---------------------------------------------------------------------------
// Dropping and completing tasks by sorted-view offset.
// ---------------------------------------------------------------------------

/// Removes from `s` the in-range offsets of `idx`, in the order given;
/// offsets beyond the end are silently ignored.
pub open spec fn apply_drops(s: Seq<Task>, idx: Seq<usize>) -> Seq<Task>
    decreases idx.len(),
{
    if idx.len() == 0 {
        s
    } else {
        let s1 = if (idx[0] as int) < s.len() {
            s.remove(idx[0] as int)
        } else {
            s
        };
        apply_drops(s1, idx.skip(1))
    }
}

/// The task `t` with its completion flag set to `c`.
pub open spec fn set_complete(t: Task, c: bool) -> Task {
    Task { title: t.title, date: t.date, complete: c }
}

/// Sets the completion flag to `c` at the in-range offsets of `idx`;
/// offsets beyond the end are silently ignored.
pub open spec fn apply_marks(s: Seq<Task>, idx: Seq<usize>, c: bool) -> Seq<Task>
    decreases idx.len(),
{
    if idx.len() == 0 {
        s
    } else {
        let s1 = if (idx[0] as int) < s.len() {
            s.update(idx[0] as int, set_complete(s[idx[0] as int], c))
        } else {
            s
        };
        apply_marks(s1, idx.skip(1), c)
    }
}

/// The tasks of `s` whose positions no offset of `idx` addresses, in
/// their original order.
pub open spec fn keep_unaddressed(s: Seq<Task>, idx: Seq<usize>) -> Seq<Task>
    decreases s.len(),
{
    if s.len() == 0 {
        Seq::<Task>::empty()
    } else if addressed(idx, s.len() - 1) {
        keep_unaddressed(s.drop_last(), idx)
    } else {
        keep_unaddressed(s.drop_last(), idx).push(s.last())
    }
}

/// Offsets in strictly descending order.
pub open spec fn strictly_descending(idx: Seq<usize>) -> bool {
    forall|i: int, j: int| 0 <= i < j < idx.len() ==> idx[i] > idx[j]
}

/// What is kept depends only on which positions are addressed.
proof fn lemma_keep_congruent(s: Seq<Task>, idx1: Seq<usize>, idx2: Seq<usize>)
    requires
        forall|p: int| 0 <= p < s.len() ==> addressed(idx1, p) == addressed(idx2, p),
    ensures
        keep_unaddressed(s, idx1) == keep_unaddressed(s, idx2),
    decreases s.len(),
{
    if s.len() > 0 {
        lemma_keep_congruent(s.drop_last(), idx1, idx2);
    }
}

/// When nothing is addressed, everything is kept.
proof fn lemma_keep_none(s: Seq<Task>, idx: Seq<usize>)
    requires
        forall|p: int| 0 <= p < s.len() ==> !addressed(idx, p),
    ensures
        keep_unaddressed(s, idx) == s,
    decreases s.len(),
{
    if s.len() > 0 {
        lemma_keep_none(s.drop_last(), idx);
        assert(keep_unaddressed(s, idx) =~= s);
    }
}

/// Removing the highest addressed position first: the remaining offsets
/// address the same tasks in the shortened sequence.
proof fn lemma_keep_step(s: Seq<Task>, idx: Seq<usize>)
    requires
        idx.len() > 0,
        strictly_descending(idx),
        (idx[0] as int) < s.len(),
    ensures
        keep_unaddressed(s, idx) == keep_unaddressed(s.remove(idx[0] as int), idx.skip(1)),
    decreases s.len(),
{
    let i0 = idx[0] as int;
    let rest = idx.skip(1);
    assert(forall|k: int| 0 <= k < rest.len() ==> rest[k] == idx[k + 1]);
    if s.len() - 1 > i0 {
        let p = s.len() - 1;
        assert(!addressed(idx, p)) by {
            if addressed(idx, p) {
                let k = choose|k: int| 0 <= k < idx.len() && idx[k] as int == p;
                if k > 0 {
                    assert(idx[0] > idx[k]);
                }
            }
        }
        let s1 = s.remove(i0);
        assert(s1.last() == s.last());
        assert(!addressed(rest, s1.len() - 1)) by {
            if addressed(rest, s1.len() - 1) {
                let k = choose|k: int| 0 <= k < rest.len() && rest[k] as int == s1.len() - 1;
                assert(idx[0] > idx[k + 1]);
            }
        }
        assert(s1.drop_last() =~= s.drop_last().remove(i0));
        lemma_keep_step(s.drop_last(), idx);
    } else {
        assert(s.len() - 1 == i0);
        assert(addressed(idx, i0)) by {
            assert(idx[0] as int == i0);
        }
        assert(s.remove(i0) =~= s.drop_last());
        assert(forall|p: int|
            0 <= p < s.drop_last().len() ==> addressed(idx, p) == addressed(rest, p)) by {
            assert forall|p: int|
                0 <= p < s.drop_last().len() implies addressed(idx, p) == addressed(
                rest,
                p,
            ) by {
                if addressed(idx, p) {
                    let k = choose|k: int| 0 <= k < idx.len() && idx[k] as int == p;
                    assert(k > 0) by {
                        assert(p < i0);
                    }
                    assert(rest[k - 1] as int == p);
                }
                if addressed(rest, p) {
                    let k = choose|k: int| 0 <= k < rest.len() && rest[k] as int == p;
                    assert(idx[k + 1] as int == p);
                }
            }
        }
        lemma_keep_congruent(s.drop_last(), idx, rest);
    }
}

/// Dropping by strictly descending offsets removes exactly the
/// addressed positions and keeps the rest in order.
pub proof fn lemma_apply_drops_keeps_unaddressed(s: Seq<Task>, idx: Seq<usize>)
    requires
        strictly_descending(idx),
    ensures
        apply_drops(s, idx) == keep_unaddressed(s, idx),
    decreases idx.len(),
{
    if idx.len() == 0 {
        assert(forall|p: int| 0 <= p < s.len() ==> !addressed(idx, p));
        lemma_keep_none(s, idx);
    } else {
        let i0 = idx[0] as int;
        let rest = idx.skip(1);
        assert(forall|k: int| 0 <= k < rest.len() ==> rest[k] == idx[k + 1]);
        assert(strictly_descending(rest));
        if i0 < s.len() {
            lemma_apply_drops_keeps_unaddressed(s.remove(i0), rest);
            lemma_keep_step(s, idx);
        } else {
            lemma_apply_drops_keeps_unaddressed(s, rest);
            assert(forall|p: int|
                0 <= p < s.len() ==> addressed(idx, p) == addressed(rest, p)) by {
                assert forall|p: int|
                    0 <= p < s.len() implies addressed(idx, p) == addressed(rest, p) by {
                    if addressed(idx, p) {
                        let k = choose|k: int| 0 <= k < idx.len() && idx[k] as int == p;
                        assert(k > 0) by {
                            assert(p < s.len() <= i0);
                        }
                        assert(rest[k - 1] as int == p);
                    }
                    if addressed(rest, p) {
                        let k = choose|k: int| 0 <= k < rest.len() && rest[k] as int == p;
                        assert(idx[k + 1] as int == p);
                    }
                }
            }
            lemma_keep_congruent(s, idx, rest);
        }
    }
}

/// `insert_desc` keeps the offsets strictly descending.
proof fn lemma_insert_desc_descending(v: usize, s: Seq<usize>)
    requires
        strictly_descending(s),
    ensures
        strictly_descending(insert_desc(v, s)),
    decreases s.len(),
{
    let r = insert_desc(v, s);
    if s.len() == 0 {
    } else if v > s[0] {
        assert forall|i: int, j: int| 0 <= i < j < r.len() implies r[i] > r[j] by {
            if i > 0 {
                assert(r[i] == s[i - 1] && r[j] == s[j - 1]);
            } else {
                assert(r[j] == s[j - 1]);
                if j - 1 > 0 {
                    assert(s[0] > s[j - 1]);
                }
            }
        }
    } else if v == s[0] {
    } else {
        let tail = s.skip(1);
        assert(strictly_descending(tail)) by {
            assert(forall|i: int, j: int|
                0 <= i < j < tail.len() ==> tail[i] == s[i + 1] && tail[j] == s[j + 1]);
        }
        lemma_insert_desc_descending(v, tail);
        let it = insert_desc(v, tail);
        assert forall|i: int, j: int| 0 <= i < j < r.len() implies r[i] > r[j] by {
            if i > 0 {
                assert(r[i] == it[i - 1] && r[j] == it[j - 1]);
            } else {
                assert(r[j] == it[j - 1]);
                lemma_insert_desc_membership(v, tail, it[j - 1]);
                assert(it.contains(it[j - 1]));
                if it[j - 1] != v {
                    let m = choose|m: int| 0 <= m < tail.len() && tail[m] == it[j - 1];
                    assert(s[m + 1] == it[j - 1]);
                    assert(s[0] > s[m + 1]);
                }
            }
        }
    }
}

/// The normalised offsets are strictly descending.
pub proof fn lemma_norm_indices_descending(l: Seq<usize>)
    ensures
        strictly_descending(norm_indices(l)),
    decreases l.len(),
{
    if l.len() > 0 {
        lemma_norm_indices_descending(l.drop_last());
        if l.last() >= 1 {
            lemma_insert_desc_descending((l.last() - 1) as usize, norm_indices(l.drop_last()));
        }
    }
}

/// What dropping by 1-based sorted-view indices means: exactly the tasks
/// whose 1-based position in the sorted view appears among the requested
/// indices are removed; the others keep their order.
pub proof fn lemma_drop_tasks_meaning(s: Seq<Task>, l: Seq<usize>)
    ensures
        apply_drops(s, norm_indices(l)) == keep_unaddressed(s, norm_indices(l)),
        forall|p: int|
            #[trigger] addressed(norm_indices(l), p) <==> (0 <= p && exists|j: int|
                0 <= j < l.len() && l[j] as int == p + 1),
{
    lemma_norm_indices_descending(l);
    lemma_apply_drops_keeps_unaddressed(s, norm_indices(l));
    let norm = norm_indices(l);
    assert forall|p: int| #[trigger] addressed(norm, p) implies (0 <= p && exists|j: int|
        0 <= j < l.len() && l[j] as int == p + 1) by {
        let k = choose|k: int| 0 <= k < norm.len() && norm[k] as int == p;
        assert(norm.contains(norm[k]));
        lemma_norm_indices_membership(l, norm[k]);
    }
    assert forall|p: int| (0 <= p && exists|j: int|
        0 <= j < l.len() && l[j] as int == p + 1) implies #[trigger] addressed(norm, p) by {
        let j = choose|j: int| 0 <= j < l.len() && l[j] as int == p + 1;
        let x = (l[j] - 1) as usize;
        lemma_norm_indices_membership(l, x);
        assert(norm.contains(x));
        let k = choose|k: int| 0 <= k < norm.len() && norm[k] == x;
        assert(norm[k] as int == p);
    }
}

/// Offsets that are all out of range drop nothing.
pub proof fn lemma_drops_out_of_range(s: Seq<Task>, idx: Seq<usize>)
    requires
        forall|i: int| 0 <= i < idx.len() ==> idx[i] as int >= s.len(),
    ensures
        apply_drops(s, idx) == s,
    decreases idx.len(),
{
    if idx.len() > 0 {
        assert(idx[0] as int >= s.len());
        assert(forall|i: int| 0 <= i < idx.skip(1).len() ==> idx.skip(1)[i] == idx[i + 1]);
        lemma_drops_out_of_range(s, idx.skip(1));
    }
}

/// Offsets that are all out of range mark nothing.
pub proof fn lemma_marks_out_of_range(s: Seq<Task>, idx: Seq<usize>, c: bool)
    requires
        forall|i: int| 0 <= i < idx.len() ==> idx[i] as int >= s.len(),
    ensures
        apply_marks(s, idx, c) == s,
    decreases idx.len(),
{
    if idx.len() > 0 {
        assert(idx[0] as int >= s.len());
        assert(forall|i: int| 0 <= i < idx.skip(1).len() ==> idx.skip(1)[i] == idx[i + 1]);
        lemma_marks_out_of_range(s, idx.skip(1), c);
    }
}

/// Whether some offset in `idx` addresses position `p`.
pub open spec fn addressed(idx: Seq<usize>, p: int) -> bool {
    exists|k: int| 0 <= k < idx.len() && idx[k] as int == p
}

/// Marking completions changes exactly the addressed positions: each
/// position of the result holds the original task, with its flag set to
/// `c` precisely when some offset addresses it.
pub proof fn lemma_apply_marks_pointwise(s: Seq<Task>, idx: Seq<usize>, c: bool)
    ensures
        apply_marks(s, idx, c).len() == s.len(),
        forall|p: int|
            0 <= p < s.len() ==> apply_marks(s, idx, c)[p] == (if addressed(idx, p) {
                set_complete(s[p], c)
            } else {
                s[p]
            }),
    decreases idx.len(),
{
    if idx.len() == 0 {
    } else {
        let i0 = idx[0] as int;
        let s1 = if i0 < s.len() {
            s.update(i0, set_complete(s[i0], c))
        } else {
            s
        };
        let rest = idx.skip(1);
        lemma_apply_marks_pointwise(s1, rest, c);
        assert forall|p: int| 0 <= p < s.len() implies apply_marks(s, idx, c)[p] == (if addressed(
            idx,
            p,
        ) {
            set_complete(s[p], c)
        } else {
            s[p]
        }) by {
            if addressed(rest, p) {
                let k = choose|k: int| 0 <= k < rest.len() && rest[k] as int == p;
                assert(idx[k + 1] as int == p);
                assert(addressed(idx, p));
                assert(set_complete(set_complete(s[p], c), c) == set_complete(s[p], c));
            } else {
                if p == i0 {
                    assert(addressed(idx, p)) by {
                        assert(idx[0] as int == p);
                    }
                    assert(s1[p] == set_complete(s[p], c));
                } else {
                    assert(s1[p] == s[p]);
                    if addressed(idx, p) {
                        let k = choose|k: int| 0 <= k < idx.len() && idx[k] as int == p;
                        assert(k > 0);
                        assert(rest[k - 1] as int == p);
                        assert(false);
                    }
                }
            }
        }
    }
}

/// Completing with 1-based indices that all lie beyond the list (or are
/// zero) leaves the sorted view exactly as it was.
pub proof fn lemma_completion_out_of_range(s: Seq<Task>, l: Seq<usize>, c: bool, y: u16)
    requires
        forall|j: int| 0 <= j < l.len() ==> (l[j] == 0 || l[j] as int > s.len()),
    ensures
        apply_marks(sort_by_due(s, y), norm_indices(l), c) == sort_by_due(s, y),
{
    lemma_sort_by_due_len(s, y);
    let idx = norm_indices(l);
    assert forall|i: int| 0 <= i < idx.len() implies idx[i] as int >= sort_by_due(s, y).len() by {
        assert(idx.contains(idx[i]));
        lemma_norm_indices_membership(l, idx[i]);
        let j = choose|j: int| 0 <= j < l.len() && l[j] as int == idx[i] as int + 1;
        assert(l[j] as int > s.len());
    }
    lemma_marks_out_of_range(sort_by_due(s, y), idx, c);
}

/// Dropping with 1-based indices that all lie beyond the list (or are
/// zero) leaves the sorted view exactly as it was.
pub proof fn lemma_drop_out_of_range(s: Seq<Task>, l: Seq<usize>, y: u16)
    requires
        forall|j: int| 0 <= j < l.len() ==> (l[j] == 0 || l[j] as int > s.len()),
    ensures
        apply_drops(sort_by_due(s, y), norm_indices(l)) == sort_by_due(s, y),
{
    lemma_sort_by_due_len(s, y);
    let idx = norm_indices(l);
    assert forall|i: int| 0 <= i < idx.len() implies idx[i] as int >= sort_by_due(s, y).len() by {
        assert(idx.contains(idx[i]));
        lemma_norm_indices_membership(l, idx[i]);
        let j = choose|j: int| 0 <= j < l.len() && l[j] as int == idx[i] as int + 1;
        assert(l[j] as int > s.len());
    }
    lemma_drops_out_of_range(sort_by_due(s, y), idx);
}

// ---------------------------------------------------------------------------
// Building lists.
// ---------------------------------------------------------------------------

/// The task a title and a shared optional due date give rise to:
/// incomplete, dated as given.
pub open spec fn fresh_task(title: String, date: Option<Date>) -> Task {
    Task { title, date, complete: false }
}

impl TodoList {
    /// Creates an empty list under the given name.
    pub fn new(name: String) -> (r: Self)
        ensures
            r.name == name,
            r.tasks@ == Seq::<Task>::empty(),
    {
        TodoList { name, tasks: Vec::new() }
    }

    /// Appends one new incomplete task per title, all sharing the same
    /// optional due date, in the order the titles are given.
    pub fn add_tasks(&mut self, tasks: Vec<String>, date: Option<Date>)
        ensures
            final(self).name == old(self).name,
            final(self).tasks@ == old(self).tasks@ + tasks@.map_values(
                |title: String| fresh_task(title, date),
            ),
    {
        let ghost orig = tasks@;
        let mut rest = tasks;
        while rest.len() > 0
            invariant
                orig.len() >= rest.len(),
                rest@ == orig.skip(orig.len() - rest.len()),
                self.name == old(self).name,
                self.tasks@ == old(self).tasks@ + orig.take(orig.len() - rest.len()).map_values(
                    |title: String| fresh_task(title, date),
                ),
            decreases rest.len(),
        {
            let ghost k = orig.len() - rest.len();
            let t = rest.remove(0);
            proof {
                assert(t == orig[k]);
                assert(rest@ =~= orig.skip(k + 1));
            }
            self.tasks.push(Task { title: t, date, complete: false });
            proof {
                assert(orig.take(k + 1).map_values(|title: String| fresh_task(title, date))
                    =~= orig.take(k).map_values(|title: String| fresh_task(title, date)).push(
                    fresh_task(orig[k], date),
                ));
                assert(self.tasks@ =~= old(self).tasks@ + orig.take(k + 1).map_values(
                    |title: String| fresh_task(title, date),
                ));
            }
        }
        proof {
            assert(orig.take(orig.len() as int) =~= orig);
            assert(self.tasks@ =~= old(self).tasks@ + orig.map_values(
                |title: String| fresh_task(title, date),
            ));
        }
    }

    /// Drops the tasks addressed by the given 1-based indices into the
    /// due-date-sorted view under current year `curr_year`; out-of-range
    /// indices are silently ignored. The task sequence is replaced by the
    /// sorted-then-pruned sequence.
    pub fn drop_tasks_at(&mut self, index: Vec<usize>, curr_year: u16)
        ensures
            final(self).name == old(self).name,
            final(self).tasks@ == apply_drops(
                sort_by_due(old(self).tasks@, curr_year),
                norm_indices(index@),
            ),
    {
        let idx = sort_uniq_reverse(index);
        let mut ts: Vec<Task> = Vec::new();
        ts.append(&mut self.tasks);
        let mut ts = sort_tasks_by_due(ts, curr_year);
        let ghost sorted = ts@;
        let ghost idxs = idx@;
        proof {
            assert(idxs.skip(0) =~= idxs);
        }
        let mut j: usize = 0;
        while j < idx.len()
            invariant
                j <= idx.len(),
                idx@ == idxs,
                apply_drops(sorted, idxs) == apply_drops(ts@, idxs.skip(j as int)),
            decreases idx.len() - j,
        {
            let i = idx[j];
            proof {
                assert(idxs.skip(j as int)[0] == idxs[j as int]);
                assert(idxs.skip(j as int).skip(1) =~= idxs.skip(j as int + 1));
            }
            if i < ts.len() {
                ts.remove(i);
            }
            j = j + 1;
        }
        proof {
            assert(idxs.skip(idxs.len() as int) =~= Seq::<usize>::empty());
        }
        self.tasks = ts;
    }

    /// As `drop_tasks_at`, under the wall-clock current year.
    pub fn drop_tasks(&mut self, index: Vec<usize>)
        ensures
            final(self).name == old(self).name,
            exists|y: u16|
                final(self).tasks@ == apply_drops(
                    sort_by_due(old(self).tasks@, y),
                    norm_indices(index@),
                ),
    {
        let y = current_year();
        self.drop_tasks_at(index, y);
    }

    /// Sets the completion flag of the tasks addressed by the given
    /// 1-based indices into the due-date-sorted view under current year
    /// `curr_year`; out-of-range indices are silently ignored. The task
    /// sequence is replaced by its sorted view.
    pub fn update_completions_at(&mut self, index: Vec<usize>, complete: bool, curr_year: u16)
        ensures
            final(self).name == old(self).name,
            final(self).tasks@ == apply_marks(
                sort_by_due(old(self).tasks@, curr_year),
                norm_indices(index@),
                complete,
            ),
    {
        let idx = sort_uniq_reverse(index);
        let mut ts: Vec<Task> = Vec::new();
        ts.append(&mut self.tasks);
        let mut ts = sort_tasks_by_due(ts, curr_year);
        let ghost sorted = ts@;
        let ghost idxs = idx@;
        proof {
            assert(idxs.skip(0) =~= idxs);
        }
        let mut j: usize = 0;
        while j < idx.len()
            invariant
                j <= idx.len(),
                idx@ == idxs,
                apply_marks(sorted, idxs, complete) == apply_marks(
                    ts@,
                    idxs.skip(j as int),
                    complete,
                ),
            decreases idx.len() - j,
        {
            let i = idx[j];
            proof {
                assert(idxs.skip(j as int)[0] == idxs[j as int]);
                assert(idxs.skip(j as int).skip(1) =~= idxs.skip(j as int + 1));
            }
            if i < ts.len() {
                let ghost pre = ts@;
                let mut t = ts.remove(i);
                t.complete = complete;
                ts.insert(i, t);
                proof {
                    assert(ts@ =~= pre.update(i as int, set_complete(pre[i as int], complete)));
                }
            }
            j = j + 1;
        }
        proof {
            assert(idxs.skip(idxs.len() as int) =~= Seq::<usize>::empty());
        }
        self.tasks = ts;
    }

    /// As `update_completions_at`, under the wall-clock current year.
    pub fn update_completions(&mut self, index: Vec<usize>, complete: bool)
        ensures
            final(self).name == old(self).name,
            exists|y: u16|
                final(self).tasks@ == apply_marks(
                    sort_by_due(old(self).tasks@, y),
                    norm_indices(index@),
                    complete,
                ),
    {
        let y = current_year();
        self.update_completions_at(index, complete, y);
    }
}

// ---------------------------------------------------------------------------
// Rendering the sorted view.
// ---------------------------------------------------------------------------

/// The completion mark of a task line.
pub open spec fn mark_char(complete: bool) -> char {
    if complete {
        '✓'
    } else {
        '✕'
    }
}

/// The text of one task: its mark, its due date in brackets when it has
/// one, and its title.
pub open spec fn task_text(t: Task) -> Seq<char> {
    seq![mark_char(t.complete), ' '] + (match t.date {
        Some(d) => seq!['['] + spec_format_date(d) + seq![']', ' '],
        None => Seq::<char>::empty(),
    }) + t.title@
}

/// `n` space characters (none when `n` is not positive).
pub open spec fn spaces(n: int) -> Seq<char>
    decreases n,
{
    if n <= 0 {
        Seq::<char>::empty()
    } else {
        spaces(n - 1) + seq![' ']
    }
}

/// `s` padded on the right with spaces to width `w`.
pub open spec fn pad_right(s: Seq<char>, w: int) -> Seq<char> {
    s + spaces(w - s.len())
}

/// The rendered lines of a task sequence: the due-date-sorted tasks,
/// numbered from 1 (numbers padded to the width of the task count),
/// each with its completion mark, bracketed due date and title.
pub open spec fn spec_render_lines(tasks: Seq<Task>, y: u16) -> Seq<Seq<char>> {
    let sorted = sort_by_due(tasks, y);
    let w = dec_digits(tasks.len() as int).len() as int;
    Seq::new(
        sorted.len(),
        |i: int| pad_right(dec_digits(i + 1), w) + seq!['|', ' '] + task_text(sorted[i]),
    )
}

/// Powers of ten.
pub open spec fn pow10(k: nat) -> int
    decreases k,
{
    if k == 0 {
        1
    } else {
        10 * pow10((k - 1) as nat)
    }
}

/// A number below the `k`-th power of ten has at most `k` digits.
proof fn lemma_dec_digits_len_bounded(n: int, k: nat)
    requires
        0 <= n < pow10(k),
        1 <= k,
    ensures
        dec_digits(n).len() <= k,
    decreases k,
{
    if n > 9 {
        assert(pow10(1) == 10) by {
            reveal_with_fuel(pow10, 2);
        }
        assert(k >= 2) by {
            if k == 1 {
                assert(n < 10);
            }
        }
        assert(n / 10 < pow10((k - 1) as nat)) by {
            assert(pow10(k) == 10 * pow10((k - 1) as nat));
        }
        lemma_dec_digits_len_bounded(n / 10, (k - 1) as nat);
    }
}

/// A machine-word-sized number has at most twenty digits.
proof fn lemma_dec_digits_len_le(n: int)
    requires
        0 <= n <= usize::MAX,
    ensures
        dec_digits(n).len() <= 20,
{
    assert(pow10(20) == 100000000000000000000) by {
        reveal_with_fuel(pow10, 21);
    }
    lemma_dec_digits_len_bounded(n, 20);
}

/// The width of `n` written in decimal.
fn num_width(n: usize) -> (r: usize)
    ensures
        r == dec_digits(n as int).len(),
{
    proof {
        lemma_dec_digits_len_le(n as int);
    }
    let mut w: usize = 1;
    let mut m: usize = n;
    while m > 9
        invariant
            1 <= w,
            w + dec_digits(m as int).len() - 1 == dec_digits(n as int).len(),
            dec_digits(m as int).len() >= 1,
            dec_digits(n as int).len() <= 20,
        decreases m,
    {
        proof {
            assert(dec_digits(m as int).len() == dec_digits(m as int / 10).len() + 1);
            assert(dec_digits(m as int / 10).len() >= 1);
        }
        m = m / 10;
        w = w + 1;
    }
    proof {
        assert(dec_digits(m as int).len() == 1);
    }
    w
}

/// Appends `n` spaces.
fn push_spaces(out: &mut String, n: usize)
    ensures
        final(out)@ == old(out)@ + spaces(n as int),
{
    let mut k: usize = 0;
    while k < n
        invariant
            k <= n,
            out@ == old(out)@ + spaces(k as int),
        decreases n - k,
    {
        proof {
            reveal_strlit(" ");
        }
        out.append(" ");
        k = k + 1;
        proof {
            assert(out@ =~= old(out)@ + spaces(k as int));
        }
    }
}

/// Renders one task line: the 1-based number padded to width `w`, a
/// separator, and the task's text.
fn render_line(number: usize, w: usize, t: &Task) -> (r: String)
    requires
        number >= 1,
    ensures
        r@ == pad_right(dec_digits(number as int), w as int) + seq!['|', ' '] + task_text(*t),
{
    let mut line = String::new();
    push_decimal(&mut line, number);
    let nl = num_width(number);
    if nl < w {
        push_spaces(&mut line, w - nl);
    }
    proof {
        if nl >= w {
            assert(spaces(w as int - nl as int) =~= Seq::<char>::empty());
        }
        assert(line@ =~= pad_right(dec_digits(number as int), w as int));
    }
    proof {
        reveal_strlit("| ");
        reveal_strlit("✓ ");
        reveal_strlit("✕ ");
        reveal_strlit("[");
        reveal_strlit("] ");
    }
    line.append("| ");
    if t.complete {
        line.append("✓ ");
    } else {
        line.append("✕ ");
    }
    match t.date {
        Some(d) => {
            line.append("[");
            let ds = format_date(d);
            line.append(ds.as_str());
            line.append("] ");
        },
        None => {},
    }
    line.append(t.title.as_str());
    proof {
        assert(line@ =~= pad_right(dec_digits(number as int), w as int) + seq!['|', ' ']
            + task_text(*t));
    }
    line
}

impl TodoList {
    /// Renders the due-date-sorted view of the list under current year
    /// `curr_year`: lines numbered from 1, marked for completion, with
    /// the due date bracketed when present.
    pub fn render_tasks_at(&self, curr_year: u16) -> (r: Vec<String>)
        ensures
            r@.map_values(|line: String| line@) == spec_render_lines(self.tasks@, curr_year),
    {
        let w = num_width(self.tasks.len());
        let cl = self.tasks.clone();
        proof {
            assert forall|k: int| 0 <= k < cl@.len() implies cl@[k] == self.tasks@[k] by {
                assert(cloned(self.tasks@[k], cl@[k]));
            }
            assert(cl@ =~= self.tasks@);
        }
        let sorted = sort_tasks_by_due(cl, curr_year);
        let ghost lines = spec_render_lines(self.tasks@, curr_year);
        let mut out: Vec<String> = Vec::new();
        let mut i: usize = 0;
        while i < sorted.len()
            invariant
                i <= sorted.len(),
                w == dec_digits(self.tasks@.len() as int).len(),
                sorted@ == sort_by_due(self.tasks@, curr_year),
                lines == spec_render_lines(self.tasks@, curr_year),
                lines.len() == sorted@.len(),
                out@.len() == i,
                forall|k: int| 0 <= k < i ==> out@.map_values(|line: String| line@)[k] == lines[k],
            decreases sorted.len() - i,
        {
            let line = render_line(i + 1, w, &sorted[i]);
            out.push(line);
            i = i + 1;
        }
        proof {
            assert(out@.map_values(|line: String| line@) =~= lines);
        }
        out
    }

    /// As `render_tasks_at`, under the wall-clock current year.
    pub fn render_tasks(&self) -> (r: Vec<String>)
        ensures
            exists|y: u16|
                r@.map_values(|line: String| line@) == spec_render_lines(self.tasks@, y),
    {
        let y = current_year();
        self.render_tasks_at(y)
    }
}

} // verus!
