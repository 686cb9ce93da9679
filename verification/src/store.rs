//! The store: every named task list plus the single "focused" list that
//! task-level commands implicitly target.
//!
//! Invariant: list names are unique, and the focus points at an existing
//! list exactly when there is at least one list (an empty store is
//! unfocused). Deleting the focused list re-focuses the alphabetically
//! first remaining one.

use vstd::prelude::*;

use crate::tasks::TodoList;

verus! {

/// Failure of a store operation.
#[derive(Debug)]
pub enum ListError {
    /// Attempting to create a list under a name already in use.
    DuplicateListName { name: String },
    /// Attempting to delete or focus a list which does not exist.
    NonexistentListName { name: String },
    /// The deletion confirmation did not match the list name.
    FailedDeleteConfirmation { entered: String, requested: String },
    /// Attempting to get the focused list when no list is focused.
    NoFocusedList,
}

// ---------------------------------------------------------------------------
// Text equality and alphabetical order.
// ---------------------------------------------------------------------------

/// Lexicographic order on text, by character code: `a` comes strictly
/// before `b`.
pub open spec fn lex_lt(a: Seq<char>, b: Seq<char>) -> bool
    decreases a.len(),
{
    if b.len() == 0 {
        false
    } else if a.len() == 0 {
        true
    } else if (a[0] as u32) < (b[0] as u32) {
        true
    } else if a[0] as u32 == b[0] as u32 {
        lex_lt(a.skip(1), b.skip(1))
    } else {
        false
    }
}

/// The lexicographic order is transitive.
pub proof fn lemma_lex_lt_trans(a: Seq<char>, b: Seq<char>, c: Seq<char>)
    requires
        lex_lt(a, b),
        lex_lt(b, c),
    ensures
        lex_lt(a, c),
    decreases a.len(),
{
    if a.len() > 0 && b.len() > 0 && c.len() > 0 {
        if a[0] as u32 == b[0] as u32 && b[0] as u32 == c[0] as u32 {
            lemma_lex_lt_trans(a.skip(1), b.skip(1), c.skip(1));
        }
    }
}

/// Characters with the same code are the same character.
proof fn lemma_char_code_eq(c1: char, c2: char)
    requires
        c1 as u32 == c2 as u32,
    ensures
        c1 == c2,
{
    assert(c1 as int == c2 as int);
}

/// No text precedes itself.
pub proof fn lemma_lex_lt_irrefl(a: Seq<char>)
    ensures
        !lex_lt(a, a),
    decreases a.len(),
{
    if a.len() > 0 {
        lemma_lex_lt_irrefl(a.skip(1));
    }
}

/// Two texts that neither precede one another are equal.
pub proof fn lemma_lex_lt_connected(a: Seq<char>, b: Seq<char>)
    requires
        !lex_lt(a, b),
        !lex_lt(b, a),
    ensures
        a == b,
    decreases a.len(),
{
    if a.len() == 0 || b.len() == 0 {
        assert(a =~= b);
    } else {
        assert(a[0] as u32 == b[0] as u32);
        lemma_char_code_eq(a[0], b[0]);
        lemma_lex_lt_connected(a.skip(1), b.skip(1));
        assert(a =~= seq![a[0]] + a.skip(1));
        assert(b =~= seq![b[0]] + b.skip(1));
    }
}

/// Once `a` and `b` agree on their first `j` characters and differ at
/// position `j`, the order is decided by that position.
proof fn lemma_lex_lt_decided(a: Seq<char>, b: Seq<char>, j: int)
    requires
        0 <= j < a.len(),
        j < b.len(),
        forall|k: int| 0 <= k < j ==> a[k] as u32 == b[k] as u32,
        a[j] as u32 != b[j] as u32,
    ensures
        lex_lt(a, b) == ((a[j] as u32) < (b[j] as u32)),
    decreases j,
{
    if j > 0 {
        let at = a.skip(1);
        let bt = b.skip(1);
        assert(forall|k: int| 0 <= k < j - 1 ==> at[k] == a[k + 1] && bt[k] == b[k + 1]);
        assert(at[j - 1] == a[j] && bt[j - 1] == b[j]);
        lemma_lex_lt_decided(at, bt, j - 1);
    }
}

/// When `a` and `b` agree on all of `a`'s characters, the shorter text
/// comes first.
proof fn lemma_lex_lt_prefix(a: Seq<char>, b: Seq<char>, j: int)
    requires
        0 <= j <= a.len(),
        j <= b.len(),
        forall|k: int| 0 <= k < j ==> a[k] as u32 == b[k] as u32,
        j == a.len() || j == b.len(),
    ensures
        lex_lt(a, b) == (a.len() < b.len() && j == a.len()),
    decreases j,
{
    if j > 0 {
        let at = a.skip(1);
        let bt = b.skip(1);
        assert(forall|k: int| 0 <= k < j - 1 ==> at[k] == a[k + 1] && bt[k] == b[k + 1]);
        lemma_lex_lt_prefix(at, bt, j - 1);
    }
}

/// Whether two pieces of text hold the same characters.
pub fn str_eq(a: &str, b: &str) -> (r: bool)
    ensures
        r == (a@ == b@),
{
    let na = a.unicode_len();
    let nb = b.unicode_len();
    if na != nb {
        return false;
    }
    let mut i: usize = 0;
    while i < na
        invariant
            i <= na,
            na == a@.len(),
            na == b@.len(),
            forall|k: int| 0 <= k < i ==> a@[k] == b@[k],
        decreases na - i,
    {
        if a.get_char(i) != b.get_char(i) {
            return false;
        }
        i = i + 1;
    }
    proof {
        assert(a@ =~= b@);
    }
    true
}

/// Whether `a` comes strictly before `b` alphabetically (by character
/// code).
pub fn str_lt(a: &str, b: &str) -> (r: bool)
    ensures
        r == lex_lt(a@, b@),
{
    let na = a.unicode_len();
    let nb = b.unicode_len();
    let n = if na < nb {
        na
    } else {
        nb
    };
    let mut i: usize = 0;
    while i < n
        invariant
            i <= n,
            na == a@.len(),
            nb == b@.len(),
            n == if na < nb {
                na
            } else {
                nb
            },
            forall|k: int| 0 <= k < i ==> a@[k] as u32 == b@[k] as u32,
        decreases n - i,
    {
        let ca = a.get_char(i) as u32;
        let cb = b.get_char(i) as u32;
        if ca != cb {
            proof {
                lemma_lex_lt_decided(a@, b@, i as int);
            }
            return ca < cb;
        }
        i = i + 1;
    }
    proof {
        lemma_lex_lt_prefix(a@, b@, n as int);
    }
    na < nb
}

// ---------------------------------------------------------------------------
// List-name validation.
// ---------------------------------------------------------------------------

/// A letter or digit, the only characters a name may start and end with.
pub open spec fn name_edge_char(c: char) -> bool {
    (97 <= c as u32 && c as u32 <= 122) || (65 <= c as u32 && c as u32 <= 90) || (48 <= c as u32
        && c as u32 <= 57)
}

/// A character allowed in the interior of a name.
pub open spec fn name_inner_char(c: char) -> bool {
    name_edge_char(c) || c == '-' || c == '_'
}

/// A valid list name: non-empty, starting and ending with a letter or
/// digit, with only letters, digits, hyphens and underscores between.
pub open spec fn valid_list_name(s: Seq<char>) -> bool {
    &&& s.len() >= 1
    &&& name_edge_char(s[0])
    &&& name_edge_char(s[s.len() - 1])
    &&& forall|i: int| 0 < i < s.len() - 1 ==> name_inner_char(s[i])
}

/// Checks that a proposed list name is valid: it must start and end with
/// a letter or digit and contain only letters, digits, hyphens and
/// underscores.
pub fn check_list_name(s: &str) -> (r: bool)
    ensures
        r == valid_list_name(s@),
{
    let n = s.unicode_len();
    if n == 0 {
        return false;
    }
    let first = s.get_char(0) as u32;
    if !((97 <= first && first <= 122) || (65 <= first && first <= 90) || (48 <= first && first
        <= 57)) {
        return false;
    }
    let last = s.get_char(n - 1) as u32;
    if !((97 <= last && last <= 122) || (65 <= last && last <= 90) || (48 <= last && last <= 57)) {
        return false;
    }
    let mut i: usize = 1;
    while i < n - 1
        invariant
            1 <= i,
            i <= n,
            n == s@.len(),
            forall|k: int| 0 < k < i ==> name_inner_char(s@[k]),
        decreases n - i,
    {
        let c = s.get_char(i);
        let u = c as u32;
        if !((97 <= u && u <= 122) || (65 <= u && u <= 90) || (48 <= u && u <= 57) || c == '-' || c
            == '_') {
            return false;
        }
        i = i + 1;
    }
    true
}


// ---------------------------------------------------------------------------
// The store of lists.
// ---------------------------------------------------------------------------

/// The aggregate of all named task lists, with the focus pointer.
#[derive(Debug)]
pub struct ListFile {
    pub focused: Option<String>,
    pub lists: Vec<TodoList>,
}

/// The names of the stored lists, in storage order.
pub open spec fn list_names(lists: Seq<TodoList>) -> Seq<Seq<char>> {
    lists.map_values(|l: TodoList| l.name@)
}

/// Whether some stored list bears the given name.
pub open spec fn has_name(lists: Seq<TodoList>, name: Seq<char>) -> bool {
    exists|i: int| 0 <= i < lists.len() && lists[i].name@ == name
}

/// No two stored lists bear the same name.
pub open spec fn names_unique(lists: Seq<TodoList>) -> bool {
    forall|i: int, j: int| 0 <= i < j < lists.len() ==> lists[i].name@ != lists[j].name@
}

/// How many stored lists bear the given name.
pub open spec fn name_count(lists: Seq<TodoList>, name: Seq<char>) -> int
    decreases lists.len(),
{
    if lists.len() == 0 {
        0
    } else {
        name_count(lists.drop_last(), name) + if lists.last().name@ == name {
            1int
        } else {
            0int
        }
    }
}

/// The given name is the alphabetically first among the stored lists.
pub open spec fn is_min_name(lists: Seq<TodoList>, name: Seq<char>) -> bool {
    has_name(lists, name) && forall|j: int|
        0 <= j < lists.len() ==> !lex_lt(lists[j].name@, name)
}

/// A name borne by some list is counted at least once; one borne by none
/// is counted zero times.
pub proof fn lemma_name_count_has(lists: Seq<TodoList>, name: Seq<char>)
    ensures
        has_name(lists, name) <==> name_count(lists, name) >= 1,
        name_count(lists, name) >= 0,
    decreases lists.len(),
{
    if lists.len() > 0 {
        let head = lists.drop_last();
        lemma_name_count_has(head, name);
        if has_name(lists, name) {
            let i = choose|i: int| 0 <= i < lists.len() && lists[i].name@ == name;
            if i < lists.len() - 1 {
                assert(head[i] == lists[i]);
                assert(has_name(head, name));
            }
        }
        if has_name(head, name) {
            let i = choose|i: int| 0 <= i < head.len() && head[i].name@ == name;
            assert(lists[i].name@ == name);
        }
    }
}

/// Under unique names, no name is counted twice.
pub proof fn lemma_name_count_unique(lists: Seq<TodoList>, name: Seq<char>)
    requires
        names_unique(lists),
    ensures
        name_count(lists, name) <= 1,
    decreases lists.len(),
{
    if lists.len() > 0 {
        let head = lists.drop_last();
        assert(names_unique(head)) by {
            assert(forall|i: int, j: int|
                0 <= i < j < head.len() ==> head[i] == lists[i] && head[j] == lists[j]);
        }
        lemma_name_count_unique(head, name);
        if lists.last().name@ == name {
            assert(name_count(lists, name) <= 1) by {
                lemma_name_count_has(head, name);
                if has_name(head, name) {
                    let i = choose|i: int| 0 <= i < head.len() && head[i].name@ == name;
                    assert(lists[i].name@ == lists[lists.len() - 1].name@);
                    assert(false);
                }
            }
        }
    }
}

/// Creating a list under a fresh name leaves that name borne by exactly
/// one list; a second creation under the same name finds it taken (and
/// `create_list` then fails, leaving the store unchanged).
pub proof fn lemma_create_unique(lists: Seq<TodoList>, l: TodoList)
    requires
        names_unique(lists),
        !has_name(lists, l.name@),
    ensures
        names_unique(lists.push(l)),
        name_count(lists.push(l), l.name@) == 1,
        has_name(lists.push(l), l.name@),
    decreases lists.len(),
{
    let pushed = lists.push(l);
    assert(names_unique(pushed)) by {
        assert forall|i: int, j: int| 0 <= i < j < pushed.len() implies pushed[i].name@
            != pushed[j].name@ by {
            if j == pushed.len() - 1 {
                assert(pushed[i] == lists[i]);
                if lists[i].name@ == l.name@ {
                    assert(has_name(lists, l.name@));
                }
            } else {
                assert(pushed[i] == lists[i] && pushed[j] == lists[j]);
            }
        }
    }
    assert(pushed.drop_last() =~= lists);
    lemma_name_count_has(lists, l.name@);
    assert(pushed[pushed.len() - 1] == l);
}

/// There is only one alphabetically first name.
pub proof fn lemma_min_name_unique(lists: Seq<TodoList>, a: Seq<char>, b: Seq<char>)
    requires
        is_min_name(lists, a),
        is_min_name(lists, b),
    ensures
        a == b,
{
    let i = choose|i: int| 0 <= i < lists.len() && lists[i].name@ == a;
    let j = choose|j: int| 0 <= j < lists.len() && lists[j].name@ == b;
    assert(!lex_lt(a, b));
    assert(!lex_lt(b, a));
    lemma_lex_lt_connected(a, b);
}

/// Removing a list keeps the remaining names unique.
proof fn lemma_names_unique_remove(lists: Seq<TodoList>, i: int)
    requires
        names_unique(lists),
        0 <= i < lists.len(),
    ensures
        names_unique(lists.remove(i)),
{
    let r = lists.remove(i);
    assert forall|p: int, q: int| 0 <= p < q < r.len() implies r[p].name@ != r[q].name@ by {
        let p0 = if p < i {
            p
        } else {
            p + 1
        };
        let q0 = if q < i {
            q
        } else {
            q + 1
        };
        assert(r[p] == lists[p0] && r[q] == lists[q0]);
    }
}

/// A name other than the removed one survives the removal.
proof fn lemma_has_name_remove(lists: Seq<TodoList>, i: int, name: Seq<char>)
    requires
        0 <= i < lists.len(),
        has_name(lists, name),
        lists[i].name@ != name,
    ensures
        has_name(lists.remove(i), name),
{
    let r = lists.remove(i);
    let k = choose|k: int| 0 <= k < lists.len() && lists[k].name@ == name;
    if k < i {
        assert(r[k] == lists[k]);
    } else {
        assert(r[k - 1] == lists[k]);
    }
}

impl ListFile {
    /// Well-formed store: names are unique, and the focus names an
    /// existing list exactly when there is one (an empty store is
    /// unfocused).
    pub open spec fn wf(&self) -> bool {
        &&& names_unique(self.lists@)
        &&& match self.focused {
            Some(f) => has_name(self.lists@, f@),
            None => self.lists@.len() == 0,
        }
    }

    /// Creates an empty, unfocused store.
    pub fn new() -> (r: Self)
        ensures
            r.wf(),
            r.lists@ == Seq::<TodoList>::empty(),
            r.focused is None,
    {
        ListFile { focused: None, lists: Vec::new() }
    }

    /// Decides at run time whether the store is well-formed.
    pub fn check_wf(&self) -> (r: bool)
        ensures
            r == self.wf(),
    {
        let n = self.lists.len();
        let mut i: usize = 0;
        while i < n
            invariant
                i <= n,
                n == self.lists@.len(),
                forall|p: int, q: int|
                    0 <= p < q < n && p < i ==> self.lists@[p].name@ != self.lists@[q].name@,
            decreases n - i,
        {
            let mut j: usize = i + 1;
            while j < n
                invariant
                    i < j <= n,
                    i < n,
                    n == self.lists@.len(),
                    forall|q: int| i < q < j ==> self.lists@[i as int].name@ != self.lists@[q].name@,
                decreases n - j,
            {
                if str_eq(self.lists[i].name.as_str(), self.lists[j].name.as_str()) {
                    return false;
                }
                j = j + 1;
            }
            i = i + 1;
        }
        match &self.focused {
            Some(f) => self.find_list(f.as_str()).is_some(),
            None => n == 0,
        }
    }

    /// The position of the list bearing `name`, if any.
    fn find_list(&self, name: &str) -> (r: Option<usize>)
        ensures
            match r {
                Some(i) => i < self.lists@.len() && self.lists@[i as int].name@ == name@,
                None => !has_name(self.lists@, name@),
            },
    {
        let n = self.lists.len();
        let mut i: usize = 0;
        while i < n
            invariant
                i <= n,
                n == self.lists@.len(),
                forall|k: int| 0 <= k < i ==> self.lists@[k].name@ != name@,
            decreases n - i,
        {
            if str_eq(self.lists[i].name.as_str(), name) {
                return Some(i);
            }
            i = i + 1;
        }
        None
    }

    /// How many lists the store holds.
    pub fn num_lists(&self) -> (r: usize)
        ensures
            r == self.lists@.len(),
    {
        self.lists.len()
    }

    /// The names of all lists, in storage order (display ordering is the
    /// caller's concern).
    pub fn get_list_names(&self) -> (r: Vec<String>)
        ensures
            r@.map_values(|s: String| s@) == list_names(self.lists@),
    {
        let n = self.lists.len();
        let mut out: Vec<String> = Vec::new();
        let mut i: usize = 0;
        while i < n
            invariant
                i <= n,
                n == self.lists@.len(),
                out@.len() == i,
                forall|k: int|
                    0 <= k < i ==> out@.map_values(|s: String| s@)[k] == self.lists@[k].name@,
            decreases n - i,
        {
            out.push(self.lists[i].name.clone());
            i = i + 1;
        }
        proof {
            assert(out@.map_values(|s: String| s@) =~= list_names(self.lists@));
        }
        out
    }

    /// The list at a storage position.
    pub fn get_list(&self, i: usize) -> (r: &TodoList)
        requires
            i < self.lists@.len(),
        ensures
            *r == self.lists@[i as int],
    {
        &self.lists[i]
    }

    /// Creates a new empty list under `name` and focuses it when nothing
    /// was focused; fails, changing nothing, when the name is taken.
    pub fn create_list(&mut self, name: &str) -> (r: Result<(), ListError>)
        requires
            old(self).wf(),
        ensures
            final(self).wf(),
            has_name(old(self).lists@, name@) ==> {
                &&& r matches Err(e) && e matches ListError::DuplicateListName { name: n }
                    && n@ == name@
                &&& *final(self) == *old(self)
            },
            !has_name(old(self).lists@, name@) ==> {
                &&& r is Ok
                &&& final(self).lists@.len() == old(self).lists@.len() + 1
                &&& final(self).lists@.drop_last() == old(self).lists@
                &&& final(self).lists@.last().name@ == name@
                &&& final(self).lists@.last().tasks@ == Seq::<crate::tasks::Task>::empty()
                &&& match old(self).focused {
                    Some(f) => final(self).focused == old(self).focused,
                    None => final(self).focused matches Some(g) && g@ == name@,
                }
            },
    {
        if let Some(_) = self.find_list(name) {
            return Err(ListError::DuplicateListName { name: name.to_owned() });
        }
        let l = TodoList::new(name.to_owned());
        proof {
            lemma_create_unique(self.lists@, l);
        }
        self.lists.push(l);
        proof {
            assert(self.lists@.drop_last() =~= old(self).lists@);
        }
        if self.focused.is_none() {
            self.focused = Some(name.to_owned());
        }
        proof {
            assert(has_name(self.lists@, name@)) by {
                assert(self.lists@[self.lists@.len() - 1].name@ == name@);
            }
            match old(self).focused {
                Some(f) => {
                    assert(has_name(old(self).lists@, f@));
                    let k = choose|k: int|
                        0 <= k < old(self).lists@.len() && old(self).lists@[k].name@ == f@;
                    assert(self.lists@[k] == old(self).lists@[k]);
                },
                None => {},
            }
        }
        Ok(())
    }

    /// Focuses the named list; fails, changing nothing, when it does not
    /// exist.
    pub fn shift_focus(&mut self, name: &str) -> (r: Result<(), ListError>)
        requires
            old(self).wf(),
        ensures
            final(self).wf(),
            !has_name(old(self).lists@, name@) ==> {
                &&& r matches Err(e) && e matches ListError::NonexistentListName { name: n }
                    && n@ == name@
                &&& *final(self) == *old(self)
            },
            has_name(old(self).lists@, name@) ==> {
                &&& r is Ok
                &&& final(self).lists@ == old(self).lists@
                &&& final(self).focused matches Some(f) && f@ == name@
            },
    {
        if let Some(_) = self.find_list(name) {
            self.focused = Some(name.to_owned());
            Ok(())
        } else {
            Err(ListError::NonexistentListName { name: name.to_owned() })
        }
    }

    /// The alphabetically first list's position.
    fn min_name_index(&self) -> (r: usize)
        requires
            self.lists@.len() > 0,
        ensures
            r < self.lists@.len(),
            is_min_name(self.lists@, self.lists@[r as int].name@),
    {
        let n = self.lists.len();
        let mut best: usize = 0;
        proof {
            lemma_lex_lt_irrefl(self.lists@[0].name@);
        }
        let mut i: usize = 1;
        while i < n
            invariant
                best < i <= n,
                n == self.lists@.len(),
                forall|j: int|
                    0 <= j < i ==> !lex_lt(self.lists@[j].name@, self.lists@[best as int].name@),
            decreases n - i,
        {
            if str_lt(self.lists[i].name.as_str(), self.lists[best].name.as_str()) {
                proof {
                    let ghost nb = self.lists@[best as int].name@;
                    let ghost ni = self.lists@[i as int].name@;
                    assert forall|j: int| 0 <= j < i + 1 implies !lex_lt(
                        self.lists@[j].name@,
                        ni,
                    ) by {
                        if j == i {
                            lemma_lex_lt_irrefl(ni);
                        } else if lex_lt(self.lists@[j].name@, ni) {
                            lemma_lex_lt_trans(self.lists@[j].name@, ni, nb);
                        }
                    }
                }
                best = i;
            }
            i = i + 1;
        }
        proof {
            assert(self.lists@.contains(self.lists@[best as int]));
        }
        best
    }

    /// Deletes the named list, provided the confirmation token repeats
    /// the name. When the deleted list was the focused one, the
    /// alphabetically first remaining list takes the focus (none when no
    /// list remains). Fails, changing nothing, when the list does not
    /// exist or the confirmation does not match.
    pub fn delete_list(&mut self, name: &str, confirmation: &str) -> (r: Result<(), ListError>)
        requires
            old(self).wf(),
        ensures
            final(self).wf(),
            !has_name(old(self).lists@, name@) ==> {
                &&& r matches Err(e) && e matches ListError::NonexistentListName { name: n }
                    && n@ == name@
                &&& *final(self) == *old(self)
            },
            has_name(old(self).lists@, name@) && confirmation@ != name@ ==> {
                &&& r matches Err(e) && e matches ListError::FailedDeleteConfirmation {
                    entered,
                    requested,
                } && entered@ == confirmation@ && requested@ == name@
                &&& *final(self) == *old(self)
            },
            has_name(old(self).lists@, name@) && confirmation@ == name@ ==> {
                &&& r is Ok
                &&& exists|i: int|
                    0 <= i < old(self).lists@.len() && old(self).lists@[i].name@ == name@
                        && final(self).lists@ == old(self).lists@.remove(i)
                &&& match old(self).focused {
                    Some(f) => if f@ != name@ {
                        final(self).focused == old(self).focused
                    } else {
                        refocused(final(self).lists@, final(self).focused)
                    },
                    None => refocused(final(self).lists@, final(self).focused),
                }
            },
    {
        let idx = match self.find_list(name) {
            Some(i) => i,
            None => {
                return Err(ListError::NonexistentListName { name: name.to_owned() });
            },
        };
        if !str_eq(confirmation, name) {
            return Err(
                ListError::FailedDeleteConfirmation {
                    entered: confirmation.to_owned(),
                    requested: name.to_owned(),
                },
            );
        }
        let was_focused = match &self.focused {
            Some(f) => str_eq(f.as_str(), name),
            None => true,
        };
        self.lists.remove(idx);
        proof {
            lemma_names_unique_remove(old(self).lists@, idx as int);
        }
        if was_focused {
            if self.lists.len() == 0 {
                self.focused = None;
            } else {
                let m = self.min_name_index();
                self.focused = Some(self.lists[m].name.clone());
            }
        } else {
            proof {
                let f = old(self).focused.unwrap();
                lemma_has_name_remove(old(self).lists@, idx as int, f@);
            }
        }
        Ok(())
    }

    /// The focused list; fails when nothing is focused (the store is
    /// empty).
    pub fn get_focused(&self) -> (r: Result<&TodoList, ListError>)
        requires
            self.wf(),
        ensures
            match self.focused {
                Some(f) => (r matches Ok(l) && self.lists@.contains(*l) && l.name@ == f@),
                None => (r matches Err(e) && e is NoFocusedList),
            },
    {
        let fname = match &self.focused {
            Some(f) => f,
            None => {
                return Err(ListError::NoFocusedList);
            },
        };
        match self.find_list(fname.as_str()) {
            Some(i) => {
                proof {
                    assert(self.lists@.contains(self.lists@[i as int]));
                }
                Ok(&self.lists[i])
            },
            None => {
                proof {
                    assert(false);
                }
                Err(ListError::NoFocusedList)
            },
        }
    }

    /// Mutable access to the focused list; fails when nothing is focused.
    /// The caller must not rename the list, or the store's invariant is
    /// lost.
    pub fn get_mut_focused(&mut self) -> (r: Result<&mut TodoList, ListError>)
        requires
            old(self).wf(),
        ensures
            old(self).focused is None ==> (r matches Err(e) && e is NoFocusedList && *final(self)
                == *old(self)),
            old(self).focused matches Some(f) ==> (r matches Ok(l) && (exists|i: int|
                {
                    &&& 0 <= i < old(self).lists@.len()
                    &&& old(self).lists@[i].name@ == f@
                    &&& *l == old(self).lists@[i]
                    &&& final(self).lists@ == old(self).lists@.update(i, *final(l))
                }) && final(self).focused == old(self).focused),
    {
        let fname = match &self.focused {
            Some(f) => f.clone(),
            None => {
                return Err(ListError::NoFocusedList);
            },
        };
        match self.find_list(fname.as_str()) {
            Some(i) => Ok(&mut self.lists[i]),
            None => {
                proof {
                    assert(false);
                }
                Err(ListError::NoFocusedList)
            },
        }
    }
}

/// The focus a deletion leaves behind: none when no list remains, else
/// the alphabetically first remaining name.
pub open spec fn refocused(lists: Seq<TodoList>, focused: Option<String>) -> bool {
    if lists.len() == 0 {
        focused is None
    } else {
        focused matches Some(g) && is_min_name(lists, g@)
    }
}

} // verus!
