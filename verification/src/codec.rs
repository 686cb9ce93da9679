//! The on-disk encoding of the store.
//!
//! The whole store is persisted as one byte string of its own framing:
//! counts and string lengths as eight big-endian bytes, characters as
//! four big-endian bytes of their code point, years as two bytes, and
//! one-byte tags for options and booleans. Decoding is strict — every
//! tag must be a written one and the input must be consumed exactly —
//! and is proved to invert encoding.

use vstd::arithmetic::div_mod::lemma_fundamental_div_mod;
use vstd::prelude::*;
use vstd::utf8::char_is_scalar;
use vstd::utf8::char_u32_cast;
use vstd::utf8::is_scalar;

use crate::date::Date;
use crate::store::ListFile;
use crate::tasks::Task;
use crate::tasks::TodoList;

verus! {

// ---------------------------------------------------------------------------
// Big-endian byte strings for numbers.
// ---------------------------------------------------------------------------

/// The number the byte string `s` denotes, big-endian.
pub open spec fn val_of(s: Seq<u8>) -> int
    decreases s.len(),
{
    if s.len() == 0 {
        0
    } else {
        val_of(s.drop_last()) * 0x100 + s.last()
    }
}

/// `n` raised over 256: the count of values `n` bytes can denote.
pub open spec fn pow256(n: nat) -> int
    decreases n,
{
    if n == 0 {
        1
    } else {
        0x100 * pow256((n - 1) as nat)
    }
}

/// The value `v` written as `n` big-endian bytes (modulo what fits).
pub open spec fn enc_be(v: int, n: nat) -> Seq<u8>
    decreases n,
{
    if n == 0 {
        Seq::<u8>::empty()
    } else {
        enc_be(v / 0x100, (n - 1) as nat) + seq![(v % 0x100) as u8]
    }
}

/// Reading `n` bytes at `pos`: their value and the next position.
pub open spec fn dec_be(b: Seq<u8>, pos: int, n: nat) -> Option<(int, int)> {
    if 0 <= pos && pos + n <= b.len() {
        Some((val_of(b.subrange(pos, pos + n)), pos + n))
    } else {
        None
    }
}

/// A byte string of length `n` denotes a value below `pow256(n)`.
pub proof fn lemma_val_of_bound(s: Seq<u8>)
    ensures
        0 <= val_of(s) < pow256(s.len()),
    decreases s.len(),
{
    if s.len() > 0 {
        lemma_val_of_bound(s.drop_last());
    }
}

/// An encoded number has the requested length.
pub proof fn lemma_enc_be_len(v: int, n: nat)
    ensures
        enc_be(v, n).len() == n,
    decreases n,
{
    if n > 0 {
        lemma_enc_be_len(v / 0x100, (n - 1) as nat);
    }
}

/// Writing a value that fits in `n` bytes and reading the bytes back
/// yields the value.
pub proof fn lemma_enc_be_val(v: int, n: nat)
    requires
        0 <= v < pow256(n),
    ensures
        val_of(enc_be(v, n)) == v,
    decreases n,
{
    if n == 0 {
    } else {
        let e = enc_be(v, n);
        lemma_enc_be_len(v, n);
        lemma_fundamental_div_mod(v, 0x100);
        assert(0 <= v / 0x100 < pow256((n - 1) as nat)) by {
            if v / 0x100 >= pow256((n - 1) as nat) {
                assert(v >= 0x100 * (v / 0x100));
                vstd::arithmetic::mul::lemma_mul_inequality(
                    pow256((n - 1) as nat),
                    v / 0x100,
                    0x100,
                );
            }
            if v / 0x100 < 0 {
                vstd::arithmetic::div_mod::lemma_div_pos_is_pos(v, 0x100);
            }
        }
        lemma_enc_be_val(v / 0x100, (n - 1) as nat);
        assert(e.drop_last() =~= enc_be(v / 0x100, (n - 1) as nat));
        assert(e.last() == (v % 0x100) as u8);
    }
}

/// Reading back an embedded encoded number.
pub proof fn lemma_dec_be_round(v: int, n: nat, b: Seq<u8>, pos: int)
    requires
        0 <= v < pow256(n),
        0 <= pos,
        pos + n <= b.len(),
        b.subrange(pos, pos + n) == enc_be(v, n),
    ensures
        dec_be(b, pos, n) == Some((v, pos + n)),
{
    lemma_enc_be_val(v, n);
}

/// Small instances of `pow256`, for the widths in use.
pub proof fn lemma_pow256_widths()
    ensures
        pow256(1) == 0x100,
        pow256(2) == 0x10000,
        pow256(4) == 0x100000000,
        pow256(8) == 0x10000000000000000,
{
    reveal_with_fuel(pow256, 9);
}

/// Appends the `n`-byte big-endian form of `v`.
fn push_be(out: &mut Vec<u8>, v: u64, n: u64)
    ensures
        final(out)@ == old(out)@ + enc_be(v as int, n as nat),
    decreases n,
{
    if n == 0 {
        proof {
            assert(out@ =~= old(out)@ + enc_be(v as int, 0));
        }
    } else {
        push_be(out, v / 0x100, n - 1);
        out.push((v % 0x100) as u8);
        proof {
            assert((v as int) / 0x100 == (v / 0x100) as int);
            assert(out@ =~= old(out)@ + enc_be(v as int, n as nat));
        }
    }
}

/// Reads `n` big-endian bytes at `pos`, failing when fewer remain.
fn read_be(b: &Vec<u8>, pos: usize, n: usize) -> (r: Option<(u64, usize)>)
    requires
        n <= 8,
    ensures
        match dec_be(b@, pos as int, n as nat) {
            Some((v, p)) => r matches Some(rv) && rv.0 as int == v && rv.1 as int == p,
            None => r is None,
        },
{
    let m = b.len();
    if n > m || pos > m - n {
        return None;
    }
    proof {
        lemma_pow256_widths();
    }
    let mut v: u64 = 0;
    let mut k: usize = 0;
    while k < n
        invariant
            k <= n,
            n <= 8,
            pos + n <= m,
            m == b@.len(),
            v as int == val_of(b@.subrange(pos as int, pos as int + k as int)),
            (v as int) < pow256(k as nat),
            pow256(8) == 0x10000000000000000,
        decreases n - k,
    {
        proof {
            let pre = b@.subrange(pos as int, pos as int + k as int);
            let post = b@.subrange(pos as int, pos as int + k as int + 1);
            assert(post.drop_last() =~= pre);
            assert(post.last() == b@[pos as int + k as int]);
            lemma_pow256_monotone(k as nat, 7);
            assert(pow256(k as nat + 1) == 0x100 * pow256(k as nat));
            lemma_pow256_monotone((k + 1) as nat, 8);
        }
        v = v * 0x100 + (b[pos + k] as u64);
        k = k + 1;
    }
    Some((v, pos + n))
}

/// `pow256` grows with its argument.
proof fn lemma_pow256_monotone(a: nat, b: nat)
    requires
        a <= b,
    ensures
        pow256(a) <= pow256(b),
        pow256(a) >= 1,
    decreases b,
{
    if a < b && b > 0 {
        lemma_pow256_monotone(a, (b - 1) as nat);
    } else if b > 0 {
        lemma_pow256_monotone((a - 1) as nat, (b - 1) as nat);
    }
}

// ---------------------------------------------------------------------------
// The abstract shape of a stored value.
// ---------------------------------------------------------------------------

/// What a task holds, abstractly: its title's characters, its date and
/// its completion flag.
pub struct TaskV {
    pub title: Seq<char>,
    pub date: Option<Date>,
    pub complete: bool,
}

/// What a list holds, abstractly.
pub struct ListV {
    pub name: Seq<char>,
    pub tasks: Seq<TaskV>,
}

/// What the whole store holds, abstractly.
pub struct StoreV {
    pub focused: Option<Seq<char>>,
    pub lists: Seq<ListV>,
}

/// The abstract value of a task.
pub open spec fn task_view(t: Task) -> TaskV {
    TaskV { title: t.title@, date: t.date, complete: t.complete }
}

/// The abstract value of a list.
pub open spec fn list_view(l: TodoList) -> ListV {
    ListV { name: l.name@, tasks: l.tasks@.map_values(|t: Task| task_view(t)) }
}

/// The abstract value of the store.
pub open spec fn store_view(s: ListFile) -> StoreV {
    StoreV {
        focused: match s.focused {
            Some(f) => Some(f@),
            None => None,
        },
        lists: s.lists@.map_values(|l: TodoList| list_view(l)),
    }
}

// ---------------------------------------------------------------------------
// Encoding.
// ---------------------------------------------------------------------------

/// The code point of a character.
pub open spec fn char_code(c: char) -> int {
    (c as u32) as int
}

/// A character: its code point in four bytes.
pub open spec fn enc_char(c: char) -> Seq<u8> {
    enc_be(char_code(c), 4)
}

/// A run of characters, in order.
pub open spec fn enc_chars(s: Seq<char>) -> Seq<u8>
    decreases s.len(),
{
    if s.len() == 0 {
        Seq::<u8>::empty()
    } else {
        enc_char(s[0]) + enc_chars(s.skip(1))
    }
}

/// Text: its length in eight bytes, then its characters.
pub open spec fn enc_text(s: Seq<char>) -> Seq<u8> {
    enc_be(s.len() as int, 8) + enc_chars(s)
}

/// An optional year: a tag byte, then two bytes when present.
pub open spec fn enc_opt_year(y: Option<u16>) -> Seq<u8> {
    match y {
        None => seq![0u8],
        Some(v) => seq![1u8] + enc_be(v as int, 2),
    }
}

/// A date: month byte, day byte, optional year.
pub open spec fn enc_date(d: Date) -> Seq<u8> {
    seq![d.month, d.day] + enc_opt_year(d.year)
}

/// An optional date: a tag byte, then the date when present.
pub open spec fn enc_opt_date(d: Option<Date>) -> Seq<u8> {
    match d {
        None => seq![0u8],
        Some(v) => seq![1u8] + enc_date(v),
    }
}

/// A flag: one byte, 1 or 0.
pub open spec fn enc_bool(v: bool) -> Seq<u8> {
    if v {
        seq![1u8]
    } else {
        seq![0u8]
    }
}

/// A task: title, optional date, completion flag.
pub open spec fn enc_task(t: TaskV) -> Seq<u8> {
    enc_text(t.title) + enc_opt_date(t.date) + enc_bool(t.complete)
}

/// A run of tasks, in order.
pub open spec fn enc_tasks(s: Seq<TaskV>) -> Seq<u8>
    decreases s.len(),
{
    if s.len() == 0 {
        Seq::<u8>::empty()
    } else {
        enc_task(s[0]) + enc_tasks(s.skip(1))
    }
}

/// A list: its name, its task count in eight bytes, its tasks.
pub open spec fn enc_list(l: ListV) -> Seq<u8> {
    enc_text(l.name) + enc_be(l.tasks.len() as int, 8) + enc_tasks(l.tasks)
}

/// A run of lists, in order.
pub open spec fn enc_lists(s: Seq<ListV>) -> Seq<u8>
    decreases s.len(),
{
    if s.len() == 0 {
        Seq::<u8>::empty()
    } else {
        enc_list(s[0]) + enc_lists(s.skip(1))
    }
}

/// The store: the optional focused name, the list count in eight bytes,
/// the lists.
pub open spec fn enc_store(v: StoreV) -> Seq<u8> {
    (match v.focused {
        None => seq![0u8],
        Some(f) => seq![1u8] + enc_text(f),
    }) + enc_be(v.lists.len() as int, 8) + enc_lists(v.lists)
}

// ---------------------------------------------------------------------------
// Decoding.
// ---------------------------------------------------------------------------

/// One byte at `pos`.
pub open spec fn dec_byte(b: Seq<u8>, pos: int) -> Option<(u8, int)> {
    if 0 <= pos < b.len() {
        Some((b[pos], pos + 1))
    } else {
        None
    }
}

/// A character: four bytes holding a Unicode scalar value.
pub open spec fn dec_char(b: Seq<u8>, pos: int) -> Option<(char, int)> {
    match dec_be(b, pos, 4) {
        None => None,
        Some((v, p)) => if v < 0x100000000 && is_scalar(v as u32) {
            Some(((v as u32) as char, p))
        } else {
            None
        },
    }
}

/// `n` characters in a row.
pub open spec fn dec_chars(b: Seq<u8>, pos: int, n: int) -> Option<(Seq<char>, int)>
    decreases n,
{
    if n <= 0 {
        Some((Seq::<char>::empty(), pos))
    } else {
        match dec_char(b, pos) {
            None => None,
            Some((c, p)) => match dec_chars(b, p, n - 1) {
                None => None,
                Some((s, p2)) => Some((seq![c] + s, p2)),
            },
        }
    }
}

/// Text: an eight-byte length, then that many characters.
pub open spec fn dec_text(b: Seq<u8>, pos: int) -> Option<(Seq<char>, int)> {
    match dec_be(b, pos, 8) {
        None => None,
        Some((n, p)) => dec_chars(b, p, n),
    }
}

/// An optional year.
pub open spec fn dec_opt_year(b: Seq<u8>, pos: int) -> Option<(Option<u16>, int)> {
    match dec_byte(b, pos) {
        None => None,
        Some((tag, p)) => if tag == 0 {
            Some((None, p))
        } else if tag == 1 {
            match dec_be(b, p, 2) {
                None => None,
                Some((v, p2)) => Some((Some(v as u16), p2)),
            }
        } else {
            None
        },
    }
}

/// A date.
pub open spec fn dec_date(b: Seq<u8>, pos: int) -> Option<(Date, int)> {
    match dec_byte(b, pos) {
        None => None,
        Some((month, p)) => match dec_byte(b, p) {
            None => None,
            Some((day, p2)) => match dec_opt_year(b, p2) {
                None => None,
                Some((year, p3)) => Some((Date { month, day, year }, p3)),
            },
        },
    }
}

/// An optional date.
pub open spec fn dec_opt_date(b: Seq<u8>, pos: int) -> Option<(Option<Date>, int)> {
    match dec_byte(b, pos) {
        None => None,
        Some((tag, p)) => if tag == 0 {
            Some((None, p))
        } else if tag == 1 {
            match dec_date(b, p) {
                None => None,
                Some((d, p2)) => Some((Some(d), p2)),
            }
        } else {
            None
        },
    }
}

/// A flag byte: exactly 1 or 0.
pub open spec fn dec_bool(b: Seq<u8>, pos: int) -> Option<(bool, int)> {
    match dec_byte(b, pos) {
        None => None,
        Some((tag, p)) => if tag == 0 {
            Some((false, p))
        } else if tag == 1 {
            Some((true, p))
        } else {
            None
        },
    }
}

/// A task.
pub open spec fn dec_task(b: Seq<u8>, pos: int) -> Option<(TaskV, int)> {
    match dec_text(b, pos) {
        None => None,
        Some((title, p)) => match dec_opt_date(b, p) {
            None => None,
            Some((date, p2)) => match dec_bool(b, p2) {
                None => None,
                Some((complete, p3)) => Some((TaskV { title, date, complete }, p3)),
            },
        },
    }
}

/// `n` tasks in a row.
pub open spec fn dec_tasks(b: Seq<u8>, pos: int, n: int) -> Option<(Seq<TaskV>, int)>
    decreases n,
{
    if n <= 0 {
        Some((Seq::<TaskV>::empty(), pos))
    } else {
        match dec_task(b, pos) {
            None => None,
            Some((t, p)) => match dec_tasks(b, p, n - 1) {
                None => None,
                Some((s, p2)) => Some((seq![t] + s, p2)),
            },
        }
    }
}

/// A list.
pub open spec fn dec_list(b: Seq<u8>, pos: int) -> Option<(ListV, int)> {
    match dec_text(b, pos) {
        None => None,
        Some((name, p)) => match dec_be(b, p, 8) {
            None => None,
            Some((n, p2)) => match dec_tasks(b, p2, n) {
                None => None,
                Some((tasks, p3)) => Some((ListV { name, tasks }, p3)),
            },
        },
    }
}

/// `n` lists in a row.
pub open spec fn dec_lists(b: Seq<u8>, pos: int, n: int) -> Option<(Seq<ListV>, int)>
    decreases n,
{
    if n <= 0 {
        Some((Seq::<ListV>::empty(), pos))
    } else {
        match dec_list(b, pos) {
            None => None,
            Some((l, p)) => match dec_lists(b, p, n - 1) {
                None => None,
                Some((s, p2)) => Some((seq![l] + s, p2)),
            },
        }
    }
}

/// The store.
pub open spec fn dec_store(b: Seq<u8>, pos: int) -> Option<(StoreV, int)> {
    match dec_byte(b, pos) {
        None => None,
        Some((tag, p)) => if tag == 0 {
            dec_store_lists(b, p, None)
        } else if tag == 1 {
            match dec_text(b, p) {
                None => None,
                Some((f, p2)) => dec_store_lists(b, p2, Some(f)),
            }
        } else {
            None
        },
    }
}

/// The tail of the store after its focus: the list count and the lists.
pub open spec fn dec_store_lists(b: Seq<u8>, pos: int, focused: Option<Seq<char>>) -> Option<
    (StoreV, int),
> {
    match dec_be(b, pos, 8) {
        None => None,
        Some((n, p)) => match dec_lists(b, p, n) {
            None => None,
            Some((lists, p2)) => Some((StoreV { focused, lists }, p2)),
        },
    }
}


// ---------------------------------------------------------------------------
// Decoding inverts encoding.
// ---------------------------------------------------------------------------

/// Texts, lists and tasks whose counts fit the eight-byte fields.
pub open spec fn small_text(s: Seq<char>) -> bool {
    s.len() < pow256(8)
}

/// A task whose title length fits its field.
pub open spec fn small_task(t: TaskV) -> bool {
    small_text(t.title)
}

/// A list whose name and task count fit their fields.
pub open spec fn small_list(l: ListV) -> bool {
    &&& small_text(l.name)
    &&& l.tasks.len() < pow256(8)
    &&& forall|i: int| 0 <= i < l.tasks.len() ==> small_task(#[trigger] l.tasks[i])
}

/// A store whose counts all fit their fields — true of anything that
/// fits in memory.
pub open spec fn small_store(v: StoreV) -> bool {
    &&& match v.focused {
        Some(f) => small_text(f),
        None => true,
    }
    &&& v.lists.len() < pow256(8)
    &&& forall|i: int| 0 <= i < v.lists.len() ==> small_list(#[trigger] v.lists[i])
}

/// A piece of an embedded byte string is that piece of the embedding.
proof fn lemma_embed(b: Seq<u8>, pos: int, e: Seq<u8>, off: int, len: int)
    requires
        0 <= pos,
        pos + e.len() <= b.len(),
        b.subrange(pos, pos + e.len()) == e,
        0 <= off,
        0 <= len,
        off + len <= e.len(),
    ensures
        b.subrange(pos + off, pos + off + len) == e.subrange(off, off + len),
{
    assert(b.subrange(pos + off, pos + off + len) =~= e.subrange(off, off + len)) by {
        assert forall|i: int| 0 <= i < len implies b[pos + off + i] == #[trigger] e[off + i] by {
            assert(b.subrange(pos, pos + e.len())[off + i] == b[pos + off + i]);
        }
    }
}

/// Reading back an embedded character.
proof fn lemma_round_char(c: char, b: Seq<u8>, pos: int)
    requires
        0 <= pos,
        pos + 4 <= b.len(),
        b.subrange(pos, pos + 4) == enc_char(c),
    ensures
        dec_char(b, pos) == Some((c, pos + 4)),
{
    lemma_pow256_widths();
    lemma_dec_be_round(char_code(c), 4, b, pos);
    char_is_scalar(c);
    char_u32_cast(c, c as u32);
}

/// Reading back an embedded run of characters.
proof fn lemma_round_chars(s: Seq<char>, b: Seq<u8>, pos: int)
    requires
        0 <= pos,
        pos + enc_chars(s).len() <= b.len(),
        b.subrange(pos, pos + enc_chars(s).len()) == enc_chars(s),
    ensures
        dec_chars(b, pos, s.len() as int) == Some((s, pos + enc_chars(s).len())),
    decreases s.len(),
{
    if s.len() == 0 {
        assert(Seq::<char>::empty() =~= s);
    } else {
        let e = enc_chars(s);
        let e0 = enc_char(s[0]);
        let erest = enc_chars(s.skip(1));
        lemma_enc_be_len(char_code(s[0]), 4);
        lemma_embed(b, pos, e, 0, 4);
        assert(e.subrange(0, 4) =~= e0);
        lemma_round_char(s[0], b, pos);
        lemma_embed(b, pos, e, 4, erest.len() as int);
        assert(e.subrange(4, 4 + erest.len() as int) =~= erest);
        lemma_round_chars(s.skip(1), b, pos + 4);
        assert(seq![s[0]] + s.skip(1) =~= s);
    }
}

/// Reading back embedded text.
proof fn lemma_round_text(s: Seq<char>, b: Seq<u8>, pos: int)
    requires
        small_text(s),
        0 <= pos,
        pos + enc_text(s).len() <= b.len(),
        b.subrange(pos, pos + enc_text(s).len()) == enc_text(s),
    ensures
        dec_text(b, pos) == Some((s, pos + enc_text(s).len())),
{
    let el = enc_be(s.len() as int, 8);
    let ec = enc_chars(s);
    let e = enc_text(s);
    lemma_enc_be_len(s.len() as int, 8);
    lemma_embed(b, pos, e, 0, 8);
    assert(e.subrange(0, 8) =~= el);
    lemma_dec_be_round(s.len() as int, 8, b, pos);
    lemma_embed(b, pos, e, 8, ec.len() as int);
    assert(e.subrange(8, 8 + ec.len() as int) =~= ec);
    lemma_round_chars(s, b, pos + 8);
}

/// Reading back an embedded optional year.
proof fn lemma_round_opt_year(y: Option<u16>, b: Seq<u8>, pos: int)
    requires
        0 <= pos,
        pos + enc_opt_year(y).len() <= b.len(),
        b.subrange(pos, pos + enc_opt_year(y).len()) == enc_opt_year(y),
    ensures
        dec_opt_year(b, pos) == Some((y, pos + enc_opt_year(y).len())),
{
    match y {
        None => {
            assert(b[pos] == enc_opt_year(y)[0]) by {
                assert(b.subrange(pos, pos + 1)[0] == b[pos]);
            }
        },
        Some(v) => {
            lemma_pow256_widths();
            lemma_enc_be_len(v as int, 2);
            let e = enc_opt_year(y);
            assert(b[pos] == e[0]) by {
                assert(b.subrange(pos, pos + e.len() as int)[0] == b[pos]);
            }
            lemma_embed(b, pos, e, 1, 2);
            assert(e.subrange(1, 3) =~= enc_be(v as int, 2));
            lemma_dec_be_round(v as int, 2, b, pos + 1);
        },
    }
}

/// Reading back an embedded date.
proof fn lemma_round_date(d: Date, b: Seq<u8>, pos: int)
    requires
        0 <= pos,
        pos + enc_date(d).len() <= b.len(),
        b.subrange(pos, pos + enc_date(d).len()) == enc_date(d),
    ensures
        dec_date(b, pos) == Some((d, pos + enc_date(d).len())),
{
    let ey = enc_opt_year(d.year);
    let e = enc_date(d);
    assert(b[pos] == e[0] && b[pos + 1] == e[1]) by {
        assert(b.subrange(pos, pos + e.len() as int)[0] == b[pos]);
        assert(b.subrange(pos, pos + e.len() as int)[1] == b[pos + 1]);
    }
    lemma_embed(b, pos, e, 2, ey.len() as int);
    assert(e.subrange(2, 2 + ey.len() as int) =~= ey);
    lemma_round_opt_year(d.year, b, pos + 2);
}

/// Reading back an embedded optional date.
proof fn lemma_round_opt_date(d: Option<Date>, b: Seq<u8>, pos: int)
    requires
        0 <= pos,
        pos + enc_opt_date(d).len() <= b.len(),
        b.subrange(pos, pos + enc_opt_date(d).len()) == enc_opt_date(d),
    ensures
        dec_opt_date(b, pos) == Some((d, pos + enc_opt_date(d).len())),
{
    match d {
        None => {
            assert(b[pos] == enc_opt_date(d)[0]) by {
                assert(b.subrange(pos, pos + 1)[0] == b[pos]);
            }
        },
        Some(v) => {
            let e = enc_opt_date(d);
            assert(b[pos] == e[0]) by {
                assert(b.subrange(pos, pos + e.len() as int)[0] == b[pos]);
            }
            lemma_embed(b, pos, e, 1, enc_date(v).len() as int);
            assert(e.subrange(1, 1 + enc_date(v).len() as int) =~= enc_date(v));
            lemma_round_date(v, b, pos + 1);
        },
    }
}

/// Reading back an embedded flag.
proof fn lemma_round_bool(v: bool, b: Seq<u8>, pos: int)
    requires
        0 <= pos,
        pos + 1 <= b.len(),
        b.subrange(pos, pos + 1) == enc_bool(v),
    ensures
        dec_bool(b, pos) == Some((v, pos + 1)),
{
    assert(b[pos] == enc_bool(v)[0]) by {
        assert(b.subrange(pos, pos + 1)[0] == b[pos]);
    }
}

/// Reading back an embedded task.
proof fn lemma_round_task(t: TaskV, b: Seq<u8>, pos: int)
    requires
        small_task(t),
        0 <= pos,
        pos + enc_task(t).len() <= b.len(),
        b.subrange(pos, pos + enc_task(t).len()) == enc_task(t),
    ensures
        dec_task(b, pos) == Some((t, pos + enc_task(t).len())),
{
    let e1 = enc_text(t.title);
    let e2 = enc_opt_date(t.date);
    let e3 = enc_bool(t.complete);
    let e = enc_task(t);
    lemma_embed(b, pos, e, 0, e1.len() as int);
    assert(e.subrange(0, e1.len() as int) =~= e1);
    lemma_round_text(t.title, b, pos);
    let p2 = pos + e1.len() as int;
    lemma_embed(b, pos, e, e1.len() as int, e2.len() as int);
    assert(e.subrange(e1.len() as int, e1.len() as int + e2.len() as int) =~= e2);
    lemma_round_opt_date(t.date, b, p2);
    let p3 = p2 + e2.len() as int;
    lemma_embed(b, pos, e, e1.len() as int + e2.len() as int, 1);
    assert(e.subrange(e1.len() as int + e2.len() as int, e1.len() as int + e2.len() as int + 1) =~= e3);
    lemma_round_bool(t.complete, b, p3);
}

/// Reading back an embedded run of tasks.
proof fn lemma_round_tasks(s: Seq<TaskV>, b: Seq<u8>, pos: int)
    requires
        forall|i: int| 0 <= i < s.len() ==> small_task(#[trigger] s[i]),
        0 <= pos,
        pos + enc_tasks(s).len() <= b.len(),
        b.subrange(pos, pos + enc_tasks(s).len()) == enc_tasks(s),
    ensures
        dec_tasks(b, pos, s.len() as int) == Some((s, pos + enc_tasks(s).len())),
    decreases s.len(),
{
    if s.len() == 0 {
        assert(Seq::<TaskV>::empty() =~= s);
    } else {
        let e0 = enc_task(s[0]);
        let erest = enc_tasks(s.skip(1));
        let e = enc_tasks(s);
        lemma_embed(b, pos, e, 0, e0.len() as int);
        assert(e.subrange(0, e0.len() as int) =~= e0);
        lemma_round_task(s[0], b, pos);
        let p2 = pos + e0.len() as int;
        lemma_embed(b, pos, e, e0.len() as int, erest.len() as int);
        assert(e.subrange(e0.len() as int, e0.len() as int + erest.len() as int) =~= erest);
        assert(forall|i: int| 0 <= i < s.skip(1).len() ==> s.skip(1)[i] == s[i + 1]);
        lemma_round_tasks(s.skip(1), b, p2);
        assert(seq![s[0]] + s.skip(1) =~= s);
    }
}

/// Reading back an embedded list.
proof fn lemma_round_list(l: ListV, b: Seq<u8>, pos: int)
    requires
        small_list(l),
        0 <= pos,
        pos + enc_list(l).len() <= b.len(),
        b.subrange(pos, pos + enc_list(l).len()) == enc_list(l),
    ensures
        dec_list(b, pos) == Some((l, pos + enc_list(l).len())),
{
    let e1 = enc_text(l.name);
    let e2 = enc_be(l.tasks.len() as int, 8);
    let e3 = enc_tasks(l.tasks);
    let e = enc_list(l);
    lemma_enc_be_len(l.tasks.len() as int, 8);
    lemma_embed(b, pos, e, 0, e1.len() as int);
    assert(e.subrange(0, e1.len() as int) =~= e1);
    lemma_round_text(l.name, b, pos);
    let p2 = pos + e1.len() as int;
    lemma_embed(b, pos, e, e1.len() as int, 8);
    assert(e.subrange(e1.len() as int, e1.len() as int + 8) =~= e2);
    lemma_dec_be_round(l.tasks.len() as int, 8, b, p2);
    let p3 = p2 + 8;
    lemma_embed(b, pos, e, e1.len() as int + 8, e3.len() as int);
    assert(e.subrange(e1.len() as int + 8, e1.len() as int + 8 + e3.len() as int) =~= e3);
    lemma_round_tasks(l.tasks, b, p3);
}

/// Reading back an embedded run of lists.
proof fn lemma_round_lists(s: Seq<ListV>, b: Seq<u8>, pos: int)
    requires
        forall|i: int| 0 <= i < s.len() ==> small_list(#[trigger] s[i]),
        0 <= pos,
        pos + enc_lists(s).len() <= b.len(),
        b.subrange(pos, pos + enc_lists(s).len()) == enc_lists(s),
    ensures
        dec_lists(b, pos, s.len() as int) == Some((s, pos + enc_lists(s).len())),
    decreases s.len(),
{
    if s.len() == 0 {
        assert(Seq::<ListV>::empty() =~= s);
    } else {
        let e0 = enc_list(s[0]);
        let erest = enc_lists(s.skip(1));
        let e = enc_lists(s);
        lemma_embed(b, pos, e, 0, e0.len() as int);
        assert(e.subrange(0, e0.len() as int) =~= e0);
        lemma_round_list(s[0], b, pos);
        let p2 = pos + e0.len() as int;
        lemma_embed(b, pos, e, e0.len() as int, erest.len() as int);
        assert(e.subrange(e0.len() as int, e0.len() as int + erest.len() as int) =~= erest);
        assert(forall|i: int| 0 <= i < s.skip(1).len() ==> s.skip(1)[i] == s[i + 1]);
        lemma_round_lists(s.skip(1), b, p2);
        assert(seq![s[0]] + s.skip(1) =~= s);
    }
}

/// Decoding inverts encoding: the serialized store reads back
/// field-for-field identical, consuming the whole byte string.
pub proof fn lemma_round_store(v: StoreV)
    requires
        small_store(v),
    ensures
        dec_store(enc_store(v), 0) == Some((v, enc_store(v).len() as int)),
{
    let b = enc_store(v);
    let e1 = match v.focused {
        None => seq![0u8],
        Some(f) => seq![1u8] + enc_text(f),
    };
    let e2 = enc_be(v.lists.len() as int, 8);
    let e3 = enc_lists(v.lists);
    lemma_enc_be_len(v.lists.len() as int, 8);
    assert(b =~= e1 + e2 + e3);
    assert(b.subrange(0, b.len() as int) =~= b);
    assert(b[0] == e1[0]);
    let p1 = e1.len() as int;
    match v.focused {
        None => {
            assert(p1 == 1);
        },
        Some(f) => {
            lemma_embed(b, 0, b, 1, enc_text(f).len() as int);
            assert(b.subrange(1, 1 + enc_text(f).len() as int) =~= enc_text(f));
            lemma_round_text(f, b, 1);
        },
    }
    lemma_embed(b, 0, b, p1, 8);
    assert(b.subrange(p1, p1 + 8) =~= e2);
    lemma_dec_be_round(v.lists.len() as int, 8, b, p1);
    let p2 = p1 + 8;
    lemma_embed(b, 0, b, p2, e3.len() as int);
    assert(b.subrange(p2, p2 + e3.len() as int) =~= e3);
    lemma_round_lists(v.lists, b, p2);
}


// ---------------------------------------------------------------------------
// Executable encoding.
// ---------------------------------------------------------------------------

/// Appending one more character extends the encoding at its end.
proof fn lemma_enc_chars_push(a: Seq<char>, c: char)
    ensures
        enc_chars(a.push(c)) == enc_chars(a) + enc_char(c),
    decreases a.len(),
{
    if a.len() == 0 {
        assert(a.push(c).skip(1) =~= Seq::<char>::empty());
        assert(enc_chars(a.push(c).skip(1)) == Seq::<u8>::empty());
        assert(a.push(c)[0] == c);
        assert(enc_chars(a.push(c)) =~= enc_chars(a) + enc_char(c));
    } else {
        assert(a.push(c)[0] == a[0]);
        assert(a.push(c).skip(1) =~= a.skip(1).push(c));
        lemma_enc_chars_push(a.skip(1), c);
        assert(enc_chars(a.push(c)) == enc_char(a[0]) + enc_chars(a.skip(1).push(c)));
        assert(enc_chars(a) == enc_char(a[0]) + enc_chars(a.skip(1)));
        assert(enc_char(a[0]) + (enc_chars(a.skip(1)) + enc_char(c)) =~= (enc_char(a[0])
            + enc_chars(a.skip(1))) + enc_char(c));
    }
}

/// Appending one more task extends the encoding at its end.
proof fn lemma_enc_tasks_push(a: Seq<TaskV>, t: TaskV)
    ensures
        enc_tasks(a.push(t)) == enc_tasks(a) + enc_task(t),
    decreases a.len(),
{
    if a.len() == 0 {
        assert(a.push(t).skip(1) =~= Seq::<TaskV>::empty());
        assert(enc_tasks(a.push(t).skip(1)) == Seq::<u8>::empty());
        assert(a.push(t)[0] == t);
        assert(enc_tasks(a.push(t)) =~= enc_tasks(a) + enc_task(t));
    } else {
        assert(a.push(t)[0] == a[0]);
        assert(a.push(t).skip(1) =~= a.skip(1).push(t));
        lemma_enc_tasks_push(a.skip(1), t);
        assert(enc_tasks(a.push(t)) == enc_task(a[0]) + enc_tasks(a.skip(1).push(t)));
        assert(enc_tasks(a) == enc_task(a[0]) + enc_tasks(a.skip(1)));
        assert(enc_task(a[0]) + (enc_tasks(a.skip(1)) + enc_task(t)) =~= (enc_task(a[0])
            + enc_tasks(a.skip(1))) + enc_task(t));
    }
}

/// Appending one more list extends the encoding at its end.
proof fn lemma_enc_lists_push(a: Seq<ListV>, l: ListV)
    ensures
        enc_lists(a.push(l)) == enc_lists(a) + enc_list(l),
    decreases a.len(),
{
    if a.len() == 0 {
        assert(a.push(l).skip(1) =~= Seq::<ListV>::empty());
        assert(enc_lists(a.push(l).skip(1)) == Seq::<u8>::empty());
        assert(a.push(l)[0] == l);
        assert(enc_lists(a.push(l)) =~= enc_lists(a) + enc_list(l));
    } else {
        assert(a.push(l)[0] == a[0]);
        assert(a.push(l).skip(1) =~= a.skip(1).push(l));
        lemma_enc_lists_push(a.skip(1), l);
        assert(enc_lists(a.push(l)) == enc_list(a[0]) + enc_lists(a.skip(1).push(l)));
        assert(enc_lists(a) == enc_list(a[0]) + enc_lists(a.skip(1)));
        assert(enc_list(a[0]) + (enc_lists(a.skip(1)) + enc_list(l)) =~= (enc_list(a[0])
            + enc_lists(a.skip(1))) + enc_list(l));
    }
}

/// Appends the encoding of a piece of text.
fn push_text(out: &mut Vec<u8>, s: &str)
    ensures
        final(out)@ == old(out)@ + enc_text(s@),
{
    let n = s.unicode_len();
    push_be(out, n as u64, 8);
    let mut i: usize = 0;
    while i < n
        invariant
            i <= n,
            n == s@.len(),
            out@ == old(out)@ + enc_be(s@.len() as int, 8) + enc_chars(s@.take(i as int)),
        decreases n - i,
    {
        let c = s.get_char(i);
        push_be(out, (c as u32) as u64, 4);
        proof {
            lemma_enc_chars_push(s@.take(i as int), c);
            assert(s@.take(i as int).push(c) =~= s@.take(i as int + 1));
            assert(out@ =~= old(out)@ + enc_be(s@.len() as int, 8) + enc_chars(
                s@.take(i as int + 1),
            ));
        }
        i = i + 1;
    }
    proof {
        assert(s@.take(n as int) =~= s@);
        assert(out@ =~= old(out)@ + enc_text(s@));
    }
}

/// Appends the encoding of one task.
fn push_task(out: &mut Vec<u8>, t: &Task)
    ensures
        final(out)@ == old(out)@ + enc_task(task_view(*t)),
{
    push_text(out, t.title.as_str());
    match t.date {
        None => {
            out.push(0u8);
        },
        Some(d) => {
            out.push(1u8);
            out.push(d.month);
            out.push(d.day);
            match d.year {
                None => {
                    out.push(0u8);
                },
                Some(y) => {
                    out.push(1u8);
                    push_be(out, y as u64, 2);
                },
            }
        },
    }
    out.push(if t.complete { 1u8 } else { 0u8 });
    proof {
        assert(out@ =~= old(out)@ + enc_task(task_view(*t)));
    }
}

/// Appends the encoding of one list.
fn push_list(out: &mut Vec<u8>, l: &TodoList)
    ensures
        final(out)@ == old(out)@ + enc_list(list_view(*l)),
{
    push_text(out, l.name.as_str());
    let n = l.tasks.len();
    push_be(out, n as u64, 8);
    let ghost tv = l.tasks@.map_values(|t: Task| task_view(t));
    let mut i: usize = 0;
    while i < n
        invariant
            i <= n,
            n == l.tasks@.len(),
            tv == l.tasks@.map_values(|t: Task| task_view(t)),
            out@ == old(out)@ + enc_text(l.name@) + enc_be(tv.len() as int, 8) + enc_tasks(
                tv.take(i as int),
            ),
        decreases n - i,
    {
        push_task(out, &l.tasks[i]);
        proof {
            lemma_enc_tasks_push(tv.take(i as int), tv[i as int]);
            assert(tv.take(i as int).push(tv[i as int]) =~= tv.take(i as int + 1));
            assert(out@ =~= old(out)@ + enc_text(l.name@) + enc_be(tv.len() as int, 8)
                + enc_tasks(tv.take(i as int + 1)));
        }
        i = i + 1;
    }
    proof {
        assert(tv.take(n as int) =~= tv);
        assert(out@ =~= old(out)@ + enc_list(list_view(*l)));
    }
}

/// Serializes the store into its persisted byte form.
pub fn encode_store(s: &ListFile) -> (r: Vec<u8>)
    ensures
        r@ == enc_store(store_view(*s)),
{
    let mut out: Vec<u8> = Vec::new();
    match &s.focused {
        None => {
            out.push(0u8);
        },
        Some(f) => {
            out.push(1u8);
            push_text(&mut out, f.as_str());
        },
    }
    let ghost head = out@;
    let n = s.lists.len();
    push_be(&mut out, n as u64, 8);
    let ghost lv = s.lists@.map_values(|l: TodoList| list_view(l));
    let mut i: usize = 0;
    while i < n
        invariant
            i <= n,
            n == s.lists@.len(),
            lv == s.lists@.map_values(|l: TodoList| list_view(l)),
            out@ == head + enc_be(lv.len() as int, 8) + enc_lists(lv.take(i as int)),
        decreases n - i,
    {
        push_list(&mut out, &s.lists[i]);
        proof {
            lemma_enc_lists_push(lv.take(i as int), lv[i as int]);
            assert(lv.take(i as int).push(lv[i as int]) =~= lv.take(i as int + 1));
            assert(out@ =~= head + enc_be(lv.len() as int, 8) + enc_lists(lv.take(i as int + 1)));
        }
        i = i + 1;
    }
    proof {
        assert(lv.take(n as int) =~= lv);
        assert(out@ =~= enc_store(store_view(*s)));
    }
    out
}


// ---------------------------------------------------------------------------
// Executable decoding.
// ---------------------------------------------------------------------------

/// Relies on `String::push` of std: it appends exactly the given
/// character to the string.
pub assume_specification[ String::push ](s: &mut String, c: char)
    ensures
        final(s)@ == old(s)@.push(c),
;

/// Relies on `char::from_u32` of core: a Unicode scalar value (below the
/// surrogate range, or between it and the Unicode maximum) converts to
/// the character with that code, anything else to `None`.
pub assume_specification[ char::from_u32 ](v: u32) -> (r: Option<char>)
    ensures
        r is Some <==> is_scalar(v),
        r matches Some(c) ==> c as u32 == v,
;

/// Reads one byte.
fn read_byte(b: &Vec<u8>, pos: usize) -> (r: Option<(u8, usize)>)
    ensures
        match dec_byte(b@, pos as int) {
            Some((v, p)) => r matches Some(rv) && rv.0 == v && rv.1 as int == p,
            None => r is None,
        },
{
    if pos < b.len() {
        Some((b[pos], pos + 1))
    } else {
        None
    }
}

/// Reads one character.
fn read_char(b: &Vec<u8>, pos: usize) -> (r: Option<(char, usize)>)
    ensures
        match dec_char(b@, pos as int) {
            Some((c, p)) => r matches Some(rv) && rv.0 == c && rv.1 as int == p,
            None => r is None,
        },
{
    match read_be(b, pos, 4) {
        None => None,
        Some((v, p)) => {
            proof {
                lemma_pow256_widths();
                lemma_val_of_bound(b@.subrange(pos as int, pos as int + 4));
            }
            let u = v as u32;
            match char::from_u32(u) {
                None => None,
                Some(c) => {
                    proof {
                        char_u32_cast(c, u);
                    }
                    Some((c, p))
                },
            }
        },
    }
}

/// Reads a length-prefixed piece of text.
fn read_text(b: &Vec<u8>, pos: usize) -> (r: Option<(String, usize)>)
    ensures
        match dec_text(b@, pos as int) {
            Some((s, p)) => r matches Some(rv) && rv.0@ == s && rv.1 as int == p,
            None => r is None,
        },
{
    let (n, p0) = match read_be(b, pos, 8) {
        None => {
            return None;
        },
        Some(x) => x,
    };
    let mut acc = String::new();
    let mut cur: usize = p0;
    let mut i: u64 = 0;
    proof {
        match dec_chars(b@, p0 as int, n as int) {
            Some((t, p)) => {
                assert(acc@ + t =~= t);
            },
            None => {},
        }
    }
    while i < n
        invariant
            i <= n,
            dec_text(b@, pos as int) == match dec_chars(b@, cur as int, n as int - i as int) {
                None => None::<(Seq<char>, int)>,
                Some((t, p)) => Some((acc@ + t, p)),
            },
        decreases n - i,
    {
        match read_char(b, cur) {
            None => {
                return None;
            },
            Some((c, p2)) => {
                let ghost prev = acc@;
                proof {
                    match dec_chars(b@, p2 as int, n as int - i as int - 1) {
                        Some((t, p)) => {
                            assert(prev.push(c) + t =~= prev + (seq![c] + t));
                        },
                        None => {},
                    }
                }
                acc.push(c);
                cur = p2;
                i = i + 1;
            },
        }
    }
    proof {
        assert(acc@ + Seq::<char>::empty() =~= acc@);
    }
    Some((acc, cur))
}

/// Reads an optional year.
fn read_opt_year(b: &Vec<u8>, pos: usize) -> (r: Option<(Option<u16>, usize)>)
    ensures
        match dec_opt_year(b@, pos as int) {
            Some((y, p)) => r matches Some(rv) && rv.0 == y && rv.1 as int == p,
            None => r is None,
        },
{
    match read_byte(b, pos) {
        None => None,
        Some((tag, p)) => {
            if tag == 0 {
                Some((None, p))
            } else if tag == 1 {
                match read_be(b, p, 2) {
                    None => None,
                    Some((v, p2)) => {
                        proof {
                            lemma_pow256_widths();
                            lemma_val_of_bound(b@.subrange(p as int, p as int + 2));
                        }
                        Some((Some(v as u16), p2))
                    },
                }
            } else {
                None
            }
        },
    }
}

/// Reads a date.
fn read_date(b: &Vec<u8>, pos: usize) -> (r: Option<(Date, usize)>)
    ensures
        match dec_date(b@, pos as int) {
            Some((d, p)) => r matches Some(rv) && rv.0 == d && rv.1 as int == p,
            None => r is None,
        },
{
    let (month, p) = match read_byte(b, pos) {
        None => {
            return None;
        },
        Some(x) => x,
    };
    let (day, p2) = match read_byte(b, p) {
        None => {
            return None;
        },
        Some(x) => x,
    };
    match read_opt_year(b, p2) {
        None => None,
        Some((year, p3)) => Some((Date { month, day, year }, p3)),
    }
}

/// Reads an optional date.
fn read_opt_date(b: &Vec<u8>, pos: usize) -> (r: Option<(Option<Date>, usize)>)
    ensures
        match dec_opt_date(b@, pos as int) {
            Some((d, p)) => r matches Some(rv) && rv.0 == d && rv.1 as int == p,
            None => r is None,
        },
{
    match read_byte(b, pos) {
        None => None,
        Some((tag, p)) => {
            if tag == 0 {
                Some((None, p))
            } else if tag == 1 {
                match read_date(b, p) {
                    None => None,
                    Some((d, p2)) => Some((Some(d), p2)),
                }
            } else {
                None
            }
        },
    }
}

/// Reads a flag byte.
fn read_bool(b: &Vec<u8>, pos: usize) -> (r: Option<(bool, usize)>)
    ensures
        match dec_bool(b@, pos as int) {
            Some((v, p)) => r matches Some(rv) && rv.0 == v && rv.1 as int == p,
            None => r is None,
        },
{
    match read_byte(b, pos) {
        None => None,
        Some((tag, p)) => {
            if tag == 0 {
                Some((false, p))
            } else if tag == 1 {
                Some((true, p))
            } else {
                None
            }
        },
    }
}

/// Reads one task.
fn read_task(b: &Vec<u8>, pos: usize) -> (r: Option<(Task, usize)>)
    ensures
        match dec_task(b@, pos as int) {
            Some((tv, p)) => r matches Some(rv) && task_view(rv.0) == tv && rv.1 as int == p,
            None => r is None,
        },
{
    let (title, p) = match read_text(b, pos) {
        None => {
            return None;
        },
        Some(x) => x,
    };
    let (date, p2) = match read_opt_date(b, p) {
        None => {
            return None;
        },
        Some(x) => x,
    };
    match read_bool(b, p2) {
        None => None,
        Some((complete, p3)) => Some((Task { title, date, complete }, p3)),
    }
}

/// Reads `n` tasks.
fn read_tasks(b: &Vec<u8>, pos: usize, n: u64) -> (r: Option<(Vec<Task>, usize)>)
    ensures
        match dec_tasks(b@, pos as int, n as int) {
            Some((sv, p)) => r matches Some(rv) && rv.0@.map_values(|t: Task| task_view(t)) == sv
                && rv.1 as int == p,
            None => r is None,
        },
{
    let mut acc: Vec<Task> = Vec::new();
    let mut cur: usize = pos;
    let mut i: u64 = 0;
    proof {
        match dec_tasks(b@, pos as int, n as int) {
            Some((t, p)) => {
                assert(acc@.map_values(|t: Task| task_view(t)) + t =~= t);
            },
            None => {},
        }
    }
    while i < n
        invariant
            i <= n,
            dec_tasks(b@, pos as int, n as int) == match dec_tasks(
                b@,
                cur as int,
                n as int - i as int,
            ) {
                None => None::<(Seq<TaskV>, int)>,
                Some((t, p)) => Some((acc@.map_values(|t: Task| task_view(t)) + t, p)),
            },
        decreases n - i,
    {
        match read_task(b, cur) {
            None => {
                return None;
            },
            Some((t, p2)) => {
                let ghost prev = acc@.map_values(|t: Task| task_view(t));
                let ghost tv = task_view(t);
                proof {
                    match dec_tasks(b@, p2 as int, n as int - i as int - 1) {
                        Some((rest, p)) => {
                            assert(prev.push(tv) + rest =~= prev + (seq![tv] + rest));
                        },
                        None => {},
                    }
                }
                acc.push(t);
                proof {
                    assert(acc@.map_values(|t: Task| task_view(t)) =~= prev.push(tv));
                }
                cur = p2;
                i = i + 1;
            },
        }
    }
    proof {
        assert(acc@.map_values(|t: Task| task_view(t)) + Seq::<TaskV>::empty()
            =~= acc@.map_values(|t: Task| task_view(t)));
    }
    Some((acc, cur))
}

/// Reads one list.
fn read_list(b: &Vec<u8>, pos: usize) -> (r: Option<(TodoList, usize)>)
    ensures
        match dec_list(b@, pos as int) {
            Some((lv, p)) => r matches Some(rv) && list_view(rv.0) == lv && rv.1 as int == p,
            None => r is None,
        },
{
    let (name, p) = match read_text(b, pos) {
        None => {
            return None;
        },
        Some(x) => x,
    };
    let (n, p2) = match read_be(b, p, 8) {
        None => {
            return None;
        },
        Some(x) => x,
    };
    match read_tasks(b, p2, n) {
        None => None,
        Some((tasks, p3)) => Some((TodoList { name, tasks }, p3)),
    }
}

/// Reads `n` lists.
fn read_lists(b: &Vec<u8>, pos: usize, n: u64) -> (r: Option<(Vec<TodoList>, usize)>)
    ensures
        match dec_lists(b@, pos as int, n as int) {
            Some((sv, p)) => r matches Some(rv) && rv.0@.map_values(|l: TodoList| list_view(l))
                == sv && rv.1 as int == p,
            None => r is None,
        },
{
    let mut acc: Vec<TodoList> = Vec::new();
    let mut cur: usize = pos;
    let mut i: u64 = 0;
    proof {
        match dec_lists(b@, pos as int, n as int) {
            Some((t, p)) => {
                assert(acc@.map_values(|l: TodoList| list_view(l)) + t =~= t);
            },
            None => {},
        }
    }
    while i < n
        invariant
            i <= n,
            dec_lists(b@, pos as int, n as int) == match dec_lists(
                b@,
                cur as int,
                n as int - i as int,
            ) {
                None => None::<(Seq<ListV>, int)>,
                Some((t, p)) => Some((acc@.map_values(|l: TodoList| list_view(l)) + t, p)),
            },
        decreases n - i,
    {
        match read_list(b, cur) {
            None => {
                return None;
            },
            Some((l, p2)) => {
                let ghost prev = acc@.map_values(|l: TodoList| list_view(l));
                let ghost lv = list_view(l);
                proof {
                    match dec_lists(b@, p2 as int, n as int - i as int - 1) {
                        Some((rest, p)) => {
                            assert(prev.push(lv) + rest =~= prev + (seq![lv] + rest));
                        },
                        None => {},
                    }
                }
                acc.push(l);
                proof {
                    assert(acc@.map_values(|l: TodoList| list_view(l)) =~= prev.push(lv));
                }
                cur = p2;
                i = i + 1;
            },
        }
    }
    proof {
        assert(acc@.map_values(|l: TodoList| list_view(l)) + Seq::<ListV>::empty()
            =~= acc@.map_values(|l: TodoList| list_view(l)));
    }
    Some((acc, cur))
}

/// A well-formed abstract store: unique names, and the focus naming an
/// existing list exactly when there is one.
pub open spec fn wf_view(v: StoreV) -> bool {
    &&& forall|i: int, j: int|
        0 <= i < j < v.lists.len() ==> v.lists[i].name != v.lists[j].name
    &&& match v.focused {
        Some(f) => exists|i: int| 0 <= i < v.lists.len() && v.lists[i].name == f,
        None => v.lists.len() == 0,
    }
}

/// The abstract store is well-formed exactly when the concrete one is.
proof fn lemma_wf_view(lf: ListFile)
    ensures
        wf_view(store_view(lf)) == lf.wf(),
{
    let sv = store_view(lf);
    assert(forall|i: int|
        0 <= i < lf.lists@.len() ==> sv.lists[i].name == #[trigger] lf.lists@[i].name@);
    if crate::store::names_unique(lf.lists@) {
        assert forall|i: int, j: int| 0 <= i < j < sv.lists.len() implies sv.lists[i].name
            != sv.lists[j].name by {
            assert(lf.lists@[i].name@ != lf.lists@[j].name@);
        }
    }
    if forall|i: int, j: int| 0 <= i < j < sv.lists.len() ==> sv.lists[i].name != sv.lists[j].name {
        assert forall|i: int, j: int| 0 <= i < j < lf.lists@.len() implies lf.lists@[i].name@
            != lf.lists@[j].name@ by {
            assert(sv.lists[i].name != sv.lists[j].name);
        }
    }
    match lf.focused {
        Some(f) => {
            if crate::store::has_name(lf.lists@, f@) {
                let i = choose|i: int|
                    0 <= i < lf.lists@.len() && lf.lists@[i].name@ == f@;
                assert(sv.lists[i].name == f@);
            }
            if exists|i: int| 0 <= i < sv.lists.len() && sv.lists[i].name == f@ {
                let i = choose|i: int| 0 <= i < sv.lists.len() && sv.lists[i].name == f@;
                assert(lf.lists@[i].name@ == f@);
            }
        },
        None => {},
    }
}

/// Deserializes a store from its persisted byte form. Fails when the
/// bytes are not exactly one encoded store, or when the store they
/// encode is not well-formed.
pub fn decode_store(b: &Vec<u8>) -> (r: Option<ListFile>)
    ensures
        match dec_store(b@, 0) {
            Some((v, p)) => if p == b@.len() && wf_view(v) {
                r matches Some(lf) && store_view(lf) == v && lf.wf()
            } else {
                r is None
            },
            None => r is None,
        },
{
    let (focused, p1): (Option<String>, usize) = match read_byte(b, 0) {
        None => {
            return None;
        },
        Some((tag, p)) => {
            if tag == 0 {
                (None, p)
            } else if tag == 1 {
                match read_text(b, p) {
                    None => {
                        return None;
                    },
                    Some((f, p2)) => (Some(f), p2),
                }
            } else {
                return None;
            }
        },
    };
    let (n, p2) = match read_be(b, p1, 8) {
        None => {
            return None;
        },
        Some(x) => x,
    };
    let (lists, p3) = match read_lists(b, p2, n) {
        None => {
            return None;
        },
        Some(x) => x,
    };
    if p3 != b.len() {
        return None;
    }
    let lf = ListFile { focused, lists };
    proof {
        lemma_wf_view(lf);
    }
    if lf.check_wf() {
        Some(lf)
    } else {
        None
    }
}

} // verus!
