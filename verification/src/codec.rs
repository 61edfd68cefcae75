//! The flat-file codec: one task per line, `id,title,completed`.
//!
//! The on-disk form is a byte sequence.  Every task is rendered as the
//! decimal digits of its id, a comma, the title bytes, a comma, the word
//! `true` or `false`, and a line break.  Loading splits the bytes into
//! lines, parses each line independently, and silently skips a line that
//! is malformed: a wrong field count, a non-integer id, or a completion
//! field that is neither `true` nor `false`.

use vstd::prelude::*;
use vstd::slice::slice_subrange;
use vstd::slice::slice_to_vec;

use crate::task::Task;
use crate::task::TaskView;
use crate::task::views;

verus! {

/// Why a stored line failed to parse.
#[derive(Clone, Copy, Debug, PartialEq, Eq, Structural)]
pub enum ParseTaskError {
    /// The line does not have exactly three comma-separated fields.
    FieldCount,
    /// The id field is not a decimal integer that fits an `i64`.
    BadId,
    /// The completion field is neither `true` nor `false`.
    BadCompleted,
}

// ---------------------------------------------------------------------------
// Byte-level helpers
// ---------------------------------------------------------------------------

/// The index of the first occurrence of `b` in `s`, or -1 when `b` does
/// not occur.
pub open spec fn spec_find(s: Seq<u8>, b: u8) -> int
    decreases s.len(),
{
    if s.len() == 0 {
        -1
    } else if s[0] == b {
        0
    } else {
        let r = spec_find(s.drop_first(), b);
        if r < 0 {
            -1
        } else {
            r + 1
        }
    }
}

/// When `b` occurs nowhere in `s`, `spec_find` reports -1.
pub proof fn lemma_find_none(s: Seq<u8>, b: u8)
    requires
        forall|i: int| 0 <= i < s.len() ==> #[trigger] s[i] != b,
    ensures
        spec_find(s, b) == -1,
    decreases s.len(),
{
    if s.len() > 0 {
        assert(s[0] != b);
        assert(forall|i: int|
            0 <= i < s.drop_first().len() ==> #[trigger] s.drop_first()[i] == s[i + 1]);
        lemma_find_none(s.drop_first(), b);
    }
}

/// When `b` first occurs at index `k`, `spec_find` reports `k`.
pub proof fn lemma_find_is(s: Seq<u8>, b: u8, k: int)
    requires
        0 <= k < s.len(),
        s[k] == b,
        forall|i: int| 0 <= i < k ==> #[trigger] s[i] != b,
    ensures
        spec_find(s, b) == k,
    decreases s.len(),
{
    if k > 0 {
        assert(s[0] != b);
        assert(forall|i: int|
            0 <= i < s.drop_first().len() ==> #[trigger] s.drop_first()[i] == s[i + 1]);
        lemma_find_is(s.drop_first(), b, k - 1);
    }
}

// ---------------------------------------------------------------------------
// Decimal integers
// ---------------------------------------------------------------------------

/// Whether `b` is an ASCII decimal digit.
pub open spec fn is_digit(b: u8) -> bool {
    48 <= b <= 57
}

/// Whether every byte of `s` is an ASCII decimal digit.
pub open spec fn all_digits(s: Seq<u8>) -> bool {
    forall|i: int| 0 <= i < s.len() ==> is_digit(#[trigger] s[i])
}

/// The decimal digits of `n`, most significant first, without a sign and
/// without leading zeros (except for `n == 0` itself).
pub open spec fn spec_udigits(n: nat) -> Seq<u8>
    decreases n,
{
    if n < 10 {
        seq![(48 + n) as u8]
    } else {
        spec_udigits(n / 10).push((48 + n % 10) as u8)
    }
}

/// The canonical byte rendering of a signed integer: a leading `-` for a
/// negative value, followed by its decimal digits.
pub open spec fn spec_i64_repr(n: int) -> Seq<u8> {
    if n < 0 {
        seq![45u8] + spec_udigits((-n) as nat)
    } else {
        spec_udigits(n as nat)
    }
}

/// The numeric value of a sequence of decimal digit bytes.
pub open spec fn spec_digits_value(s: Seq<u8>) -> int
    decreases s.len(),
{
    if s.len() == 0 {
        0
    } else {
        spec_digits_value(s.drop_last()) * 10 + (s.last() - 48)
    }
}

/// What a decimal integer field means: an optional sign, then at least
/// one digit, and a value that fits an `i64`.  This follows the grammar
/// of Rust's integer parsing.
pub open spec fn spec_parse_i64(s: Seq<u8>) -> Option<int> {
    let negative = s.len() > 0 && s[0] == 45;
    let ds = if s.len() > 0 && (s[0] == 45 || s[0] == 43) {
        s.drop_first()
    } else {
        s
    };
    if ds.len() > 0 && all_digits(ds) {
        let m = spec_digits_value(ds);
        let v = if negative {
            -m
        } else {
            m
        };
        if i64::MIN <= v <= i64::MAX {
            Some(v)
        } else {
            None
        }
    } else {
        None
    }
}

/// The digit rendering of `n` is non-empty and consists of digits alone.
pub proof fn lemma_udigits_shape(n: nat)
    ensures
        spec_udigits(n).len() >= 1,
        all_digits(spec_udigits(n)),
    decreases n,
{
    if n >= 10 {
        lemma_udigits_shape(n / 10);
    }
}

/// Reading the digit rendering of `n` back yields `n`.
pub proof fn lemma_udigits_value(n: nat)
    ensures
        spec_digits_value(spec_udigits(n)) == n,
    decreases n,
{
    if n < 10 {
        assert(spec_udigits(n) == seq![(48 + n) as u8]);
        assert(spec_udigits(n).drop_last() =~= Seq::<u8>::empty());
        assert(spec_digits_value(Seq::<u8>::empty()) == 0);
        assert(spec_udigits(n).last() == (48 + n) as u8);
        assert(spec_digits_value(spec_udigits(n)) == 0 * 10 + ((48 + n) as u8 - 48));
    } else {
        lemma_udigits_value(n / 10);
        assert(spec_udigits(n).drop_last() =~= spec_udigits(n / 10));
        assert(spec_udigits(n).last() == (48 + n % 10) as u8);
        assert(spec_digits_value(spec_udigits(n)) == (n / 10) * 10 + ((48 + n % 10) as u8
            - 48));
        assert((n / 10) * 10 + n % 10 == n);
    }
}

/// A digit string never has a negative value.
pub proof fn lemma_digits_value_nonneg(s: Seq<u8>)
    requires
        all_digits(s),
    ensures
        spec_digits_value(s) >= 0,
    decreases s.len(),
{
    if s.len() > 0 {
        assert(all_digits(s.drop_last()));
        lemma_digits_value_nonneg(s.drop_last());
    }
}

/// Extending a digit string can only increase its value.
pub proof fn lemma_digits_value_mono(s: Seq<u8>, k: int)
    requires
        all_digits(s),
        0 <= k <= s.len(),
    ensures
        spec_digits_value(s.take(k)) <= spec_digits_value(s),
    decreases s.len() - k,
{
    if k < s.len() {
        lemma_digits_value_mono(s, k + 1);
        let p = s.take(k);
        let q = s.take(k + 1);
        assert(q.drop_last() =~= p);
        assert(all_digits(p));
        lemma_digits_value_nonneg(p);
        assert(spec_digits_value(q) == spec_digits_value(p) * 10 + (q.last() - 48));
        assert(spec_digits_value(p) * 10 >= spec_digits_value(p));
    } else {
        assert(s.take(k) =~= s);
    }
}

/// Parsing the canonical rendering of an `i64` value gives that value back.
pub proof fn lemma_parse_i64_repr(n: int)
    requires
        i64::MIN <= n <= i64::MAX,
    ensures
        spec_parse_i64(spec_i64_repr(n)) == Some(n),
{
    if n < 0 {
        let m = (-n) as nat;
        lemma_udigits_shape(m);
        lemma_udigits_value(m);
        let s = spec_i64_repr(n);
        assert(s[0] == 45);
        assert(s.drop_first() =~= spec_udigits(m));
    } else {
        let m = n as nat;
        lemma_udigits_shape(m);
        lemma_udigits_value(m);
        let s = spec_i64_repr(n);
        assert(is_digit(s[0]));
    }
}

// ---------------------------------------------------------------------------
// The completion flag
// ---------------------------------------------------------------------------

/// The byte rendering of the completion flag: `true` or `false`.
pub open spec fn spec_bool_repr(c: bool) -> Seq<u8> {
    if c {
        seq![116u8, 114u8, 117u8, 101u8]
    } else {
        seq![102u8, 97u8, 108u8, 115u8, 101u8]
    }
}

/// What the completion field means: exactly `true` or `false`.
pub open spec fn spec_parse_bool(s: Seq<u8>) -> Option<bool> {
    if s == spec_bool_repr(true) {
        Some(true)
    } else if s == spec_bool_repr(false) {
        Some(false)
    } else {
        None
    }
}

// ---------------------------------------------------------------------------
// Lines
// ---------------------------------------------------------------------------

/// The byte rendering of one task, without the trailing line break.
pub open spec fn spec_render_line(t: TaskView) -> Seq<u8> {
    spec_i64_repr(t.id) + seq![44u8] + t.title + seq![44u8] + spec_bool_repr(t.completed)
}

/// What one stored line means.  The line must consist of exactly three
/// comma-separated fields; the first must be a decimal integer fitting an
/// `i64` and the third must be `true` or `false`.  The middle field is the
/// title and may be any bytes (it cannot contain a comma, for then the
/// field count would differ from three).
pub open spec fn spec_parse_line(line: Seq<u8>) -> Result<TaskView, ParseTaskError> {
    let i = spec_find(line, 44);
    if i < 0 {
        Err(ParseTaskError::FieldCount)
    } else {
        let idf = line.subrange(0, i);
        let rest = line.subrange(i + 1, line.len() as int);
        let j = spec_find(rest, 44);
        if j < 0 {
            Err(ParseTaskError::FieldCount)
        } else {
            let title = rest.subrange(0, j);
            let cf = rest.subrange(j + 1, rest.len() as int);
            if spec_find(cf, 44) >= 0 {
                Err(ParseTaskError::FieldCount)
            } else if spec_parse_i64(idf) is None {
                Err(ParseTaskError::BadId)
            } else if spec_parse_bool(cf) is None {
                Err(ParseTaskError::BadCompleted)
            } else {
                Ok(
                    TaskView {
                        id: spec_parse_i64(idf)->Some_0,
                        title: title,
                        completed: spec_parse_bool(cf)->Some_0,
                    },
                )
            }
        }
    }
}

/// A line read from the file with a trailing carriage return (a CRLF line
/// ending) is treated as if the carriage return were absent.
pub open spec fn spec_strip_cr(line: Seq<u8>) -> Seq<u8> {
    if line.len() > 0 && line.last() == 13 {
        line.drop_last()
    } else {
        line
    }
}

// ---------------------------------------------------------------------------
// Whole-store rendering and loading
// ---------------------------------------------------------------------------

/// The byte rendering of a whole store: every task's line followed by a
/// line break, in store order.
pub open spec fn spec_render(s: Seq<TaskView>) -> Seq<u8>
    decreases s.len(),
{
    if s.len() == 0 {
        Seq::empty()
    } else {
        spec_render(s.drop_last()) + spec_render_line(s.last()) + seq![10u8]
    }
}

/// What loading a byte sequence yields: the file is split at line breaks,
/// a final line break terminates the last line rather than opening an
/// empty one, and every line that parses contributes one task, in file
/// order.  A malformed line contributes nothing.
pub open spec fn spec_load(data: Seq<u8>) -> Seq<TaskView>
    decreases data.len(),
    via spec_load_decreases
{
    if data.len() == 0 {
        Seq::empty()
    } else {
        let i = spec_find(data, 10);
        let line = if i < 0 {
            data
        } else {
            data.subrange(0, i)
        };
        let rest = if i < 0 {
            Seq::empty()
        } else {
            data.subrange(i + 1, data.len() as int)
        };
        let tail = spec_load(rest);
        match spec_parse_line(spec_strip_cr(line)) {
            Ok(t) => seq![t] + tail,
            Err(_) => tail,
        }
    }
}

/// `spec_find` stays within bounds, so splitting off the first line
/// strictly shrinks the data.
#[via_fn]
proof fn spec_load_decreases(data: Seq<u8>) {
    if data.len() > 0 {
        let i = spec_find(data, 10);
        if i >= 0 {
            lemma_find_in_bounds(data, 10);
        }
    }
}

/// A found index lies within the sequence.
pub proof fn lemma_find_in_bounds(s: Seq<u8>, b: u8)
    requires
        spec_find(s, b) >= 0,
    ensures
        spec_find(s, b) < s.len(),
        s[spec_find(s, b)] == b,
    decreases s.len(),
{
    if s.len() > 0 && s[0] != b {
        lemma_find_in_bounds(s.drop_first(), b);
    }
}

// ---------------------------------------------------------------------------
// The round trip
// ---------------------------------------------------------------------------

/// A title that the codec can store faithfully: it contains neither the
/// field delimiter (a comma) nor a line break.
pub open spec fn title_ok(t: Seq<u8>) -> bool {
    forall|i: int| 0 <= i < t.len() ==> #[trigger] t[i] != 44 && t[i] != 10
}

/// A task the codec can store faithfully: its id fits an `i64` and its
/// title avoids the delimiters.
pub open spec fn task_ok(t: TaskView) -> bool {
    &&& i64::MIN <= t.id <= i64::MAX
    &&& title_ok(t.title)
}

/// A store whose every task can be stored faithfully.
pub open spec fn store_ok(s: Seq<TaskView>) -> bool {
    forall|i: int| 0 <= i < s.len() ==> task_ok(#[trigger] s[i])
}

/// `spec_render` peeled from the front: the first task's line, a line
/// break, and the rendering of the rest.
pub proof fn lemma_render_head(s: Seq<TaskView>)
    requires
        s.len() > 0,
    ensures
        spec_render(s) == spec_render_line(s.first()) + seq![10u8] + spec_render(s.drop_first()),
    decreases s.len(),
{
    if s.len() == 1 {
        assert(s.drop_last() =~= Seq::<TaskView>::empty());
        assert(s.drop_first() =~= Seq::<TaskView>::empty());
        assert(s.first() == s.last());
        assert(spec_render(s) =~= spec_render_line(s.first()) + seq![10u8] + spec_render(
            s.drop_first(),
        ));
    } else {
        lemma_render_head(s.drop_last());
        let u = s.drop_first();
        assert(s.drop_last().first() == s.first());
        assert(s.drop_last().drop_first() =~= u.drop_last());
        assert(u.last() == s.last());
        assert(u.len() > 0);
        assert(spec_render(u) == spec_render(u.drop_last()) + spec_render_line(u.last())
            + seq![10u8]);
        assert(spec_render(s) =~= spec_render_line(s.first()) + seq![10u8] + spec_render(u));
    }
}

/// The rendered line of a well-formed task contains no line break, does
/// not end in a carriage return, and parses back to exactly that task.
pub proof fn lemma_parse_render_line(t: TaskView)
    requires
        task_ok(t),
    ensures
        forall|k: int|
            0 <= k < spec_render_line(t).len() ==> #[trigger] spec_render_line(t)[k] != 10,
        spec_strip_cr(spec_render_line(t)) == spec_render_line(t),
        spec_parse_line(spec_render_line(t)) == Ok::<TaskView, ParseTaskError>(t),
{
    let idr = spec_i64_repr(t.id);
    let br = spec_bool_repr(t.completed);
    let line = spec_render_line(t);
    if t.id < 0 {
        lemma_udigits_shape((-t.id) as nat);
        assert(forall|k: int| 0 <= k < idr.len() ==> #[trigger] idr[k] != 44 && idr[k] != 10) by {
            assert(idr[0] == 45);
            assert(forall|k: int|
                1 <= k < idr.len() ==> is_digit(#[trigger] spec_udigits((-t.id) as nat)[k - 1])
                    && idr[k] == spec_udigits((-t.id) as nat)[k - 1]);
        }
    } else {
        lemma_udigits_shape(t.id as nat);
        assert(forall|k: int| 0 <= k < idr.len() ==> is_digit(#[trigger] idr[k]));
    }
    assert(idr.len() >= 1);
    assert(forall|k: int| 0 <= k < br.len() ==> #[trigger] br[k] != 44 && br[k] != 10);
    assert(br.last() == 101);
    assert(br.len() >= 4);

    let i = idr.len() as int;
    assert(line.len() == idr.len() + 1 + t.title.len() + 1 + br.len());
    assert(line[i] == 44);
    assert(forall|k: int| 0 <= k < i ==> #[trigger] line[k] == idr[k]);
    lemma_find_is(line, 44, i);

    let rest = line.subrange(i + 1, line.len() as int);
    assert(rest =~= t.title + seq![44u8] + br);
    let j = t.title.len() as int;
    assert(rest[j] == 44);
    assert(forall|k: int| 0 <= k < j ==> #[trigger] rest[k] == t.title[k]);
    lemma_find_is(rest, 44, j);

    let cf = rest.subrange(j + 1, rest.len() as int);
    assert(cf =~= br);
    lemma_find_none(cf, 44);

    assert(line.subrange(0, i) =~= idr);
    lemma_parse_i64_repr(t.id);

    assert(spec_parse_bool(br) == Some(t.completed)) by {
        if !t.completed {
            assert(spec_bool_repr(true).len() == 4 && spec_bool_repr(false).len() == 5);
        }
    }

    assert(rest.subrange(0, j) =~= t.title);
    assert(spec_parse_line(line) == Ok::<TaskView, ParseTaskError>(
        TaskView { id: t.id, title: t.title, completed: t.completed },
    ));
    assert(TaskView { id: t.id, title: t.title, completed: t.completed } == t);

    assert(forall|k: int| 0 <= k < line.len() ==> #[trigger] line[k] != 10);
    assert(line.last() == br.last());
}

/// Writing a store out and loading the bytes back yields the identical
/// store — same ids, same titles, same completion flags, same order —
/// provided every task is well formed (no title holds a comma or a line
/// break, and every id fits an `i64`).
pub proof fn lemma_render_load_round_trip(s: Seq<TaskView>)
    requires
        store_ok(s),
    ensures
        spec_load(spec_render(s)) == s,
    decreases s.len(),
{
    if s.len() == 0 {
        assert(spec_render(s) == Seq::<u8>::empty());
        assert(spec_load(spec_render(s)) =~= s);
    } else {
        let t = s.first();
        assert(task_ok(t));
        lemma_render_head(s);
        lemma_parse_render_line(t);
        let line = spec_render_line(t);
        let rest = spec_render(s.drop_first());
        let data = spec_render(s);
        assert(data == line + seq![10u8] + rest);
        assert(data.len() == line.len() + 1 + rest.len());
        assert(forall|k: int| 0 <= k < line.len() ==> #[trigger] data[k] == line[k]);
        assert(data[line.len() as int] == 10);
        lemma_find_is(data, 10, line.len() as int);
        assert(data.subrange(0, line.len() as int) =~= line);
        assert(data.subrange(line.len() as int + 1, data.len() as int) =~= rest);
        assert(forall|i: int|
            0 <= i < s.drop_first().len() ==> #[trigger] s.drop_first()[i] == s[i + 1]);
        lemma_render_load_round_trip(s.drop_first());
        assert(spec_load(data) == seq![t] + s.drop_first());
        assert(seq![t] + s.drop_first() =~= s);
    }
}

// ---------------------------------------------------------------------------
// Rendering, executable
// ---------------------------------------------------------------------------

/// Appends the decimal digits of `n` to `out`.
fn push_udigits(out: &mut Vec<u8>, n: u64)
    ensures
        final(out)@ == old(out)@ + spec_udigits(n as nat),
    decreases n,
{
    if n >= 10 {
        push_udigits(out, n / 10);
    }
    out.push(48 + (n % 10) as u8);
    proof {
        assert(out@ =~= old(out)@ + spec_udigits(n as nat));
    }
}

/// Appends the canonical rendering of a signed id to `out`.
fn push_i64(out: &mut Vec<u8>, n: i64)
    ensures
        final(out)@ == old(out)@ + spec_i64_repr(n as int),
{
    if n < 0 {
        out.push(45);
        let m: u64 = (-(n as i128)) as u64;
        push_udigits(out, m);
        proof {
            assert(m as nat == (-(n as int)) as nat);
            assert(out@ =~= old(out)@ + spec_i64_repr(n as int));
        }
    } else {
        push_udigits(out, n as u64);
    }
}

/// Appends `true` or `false` to `out`.
fn push_bool(out: &mut Vec<u8>, c: bool)
    ensures
        final(out)@ == old(out)@ + spec_bool_repr(c),
{
    if c {
        out.push(116);
        out.push(114);
        out.push(117);
        out.push(101);
    } else {
        out.push(102);
        out.push(97);
        out.push(108);
        out.push(115);
        out.push(101);
    }
    proof {
        assert(out@ =~= old(out)@ + spec_bool_repr(c));
    }
}

/// Appends one task's line to `out`, without the trailing line break.
fn push_line(out: &mut Vec<u8>, t: &Task)
    ensures
        final(out)@ == old(out)@ + spec_render_line(t@),
{
    push_i64(out, t.id);
    out.push(44);
    let n: usize = t.title.len();
    let mut k: usize = 0;
    while k < n
        invariant
            k <= n,
            n == t.title@.len(),
            out@ == old(out)@ + spec_i64_repr(t@.id) + seq![44u8] + t.title@.take(k as int),
        decreases n - k,
    {
        out.push(t.title[k]);
        proof {
            let ghost b = t.title@[k as int];
            assert(t.title@.take(k as int + 1) =~= t.title@.take(k as int).push(b));
            assert(out@ =~= old(out)@ + spec_i64_repr(t@.id) + seq![44u8] + t.title@.take(
                k as int + 1,
            ));
        }
        k = k + 1;
    }
    proof {
        assert(t.title@.take(n as int) =~= t.title@);
    }
    out.push(44);
    push_bool(out, t.completed);
    proof {
        assert(out@ =~= old(out)@ + spec_render_line(t@));
    }
}

/// Renders the whole store to bytes: every task as one line, `id,title,
/// completed`, each line closed by a line break, in store order.
pub fn render_tasks(tasks: &Vec<Task>) -> (r: Vec<u8>)
    ensures
        r@ == spec_render(views(tasks@)),
{
    let mut out: Vec<u8> = Vec::new();
    let n: usize = tasks.len();
    let mut i: usize = 0;
    proof {
        assert(views(tasks@).take(0) =~= Seq::<TaskView>::empty());
    }
    while i < n
        invariant
            i <= n,
            n == tasks@.len(),
            out@ == spec_render(views(tasks@).take(i as int)),
        decreases n - i,
    {
        push_line(&mut out, &tasks[i]);
        out.push(10);
        proof {
            let v = views(tasks@);
            assert(v.take(i as int + 1).drop_last() =~= v.take(i as int));
            assert(v.take(i as int + 1).last() == v[i as int]);
            assert(v[i as int] == tasks@[i as int]@);
            assert(out@ =~= spec_render(v.take(i as int)) + spec_render_line(v[i as int])
                + seq![10u8]);
        }
        i = i + 1;
    }
    proof {
        assert(views(tasks@).take(n as int) =~= views(tasks@));
    }
    out
}

// ---------------------------------------------------------------------------
// Parsing, executable
// ---------------------------------------------------------------------------

/// The index of the first occurrence of `b` at or after `from`, or the
/// slice's length when there is none.
fn find_byte(s: &[u8], from: usize, b: u8) -> (r: usize)
    requires
        from <= s@.len(),
    ensures
        from <= r <= s@.len(),
        r < s@.len() ==> s@[r as int] == b,
        forall|k: int| from <= k < r ==> #[trigger] s@[k] != b,
{
    let n: usize = s.len();
    let mut i: usize = from;
    while i < n
        invariant
            from <= i <= n,
            n == s@.len(),
            forall|k: int| from <= k < i ==> #[trigger] s@[k] != b,
        decreases n - i,
    {
        if s[i] == b {
            return i;
        }
        i = i + 1;
    }
    n
}

/// Parses a whole slice as a decimal integer fitting an `i64`: an
/// optional sign followed by at least one digit.
fn parse_i64_bytes(s: &[u8]) -> (r: Option<i64>)
    ensures
        match r {
            Some(v) => spec_parse_i64(s@) == Some(v as int),
            None => spec_parse_i64(s@) is None,
        },
{
    let n: usize = s.len();
    let mut start: usize = 0;
    let mut negative = false;
    if n > 0 && (s[0] == 45 || s[0] == 43) {
        negative = s[0] == 45;
        start = 1;
    }
    if start >= n {
        return None;
    }
    let ghost ds = if start == 1 {
        s@.drop_first()
    } else {
        s@
    };
    proof {
        assert(ds.take(0) =~= Seq::<u8>::empty());
    }
    let limit: u64 = u64::MAX / 10;
    let mut acc: u64 = 0;
    let mut i: usize = start;
    while i < n
        invariant
            start <= i <= n,
            n == s@.len(),
            start == 0 || start == 1,
            start == 1 ==> n > 0 && (s@[0] == 45 || s@[0] == 43),
            start == 0 ==> !(n > 0 && (s@[0] == 45 || s@[0] == 43)),
            negative <==> (n > 0 && s@[0] == 45),
            start < n,
            limit == u64::MAX / 10,
            ds == (if start == 1 {
                s@.drop_first()
            } else {
                s@
            }),
            ds.len() == n - start,
            forall|k: int| 0 <= k < ds.len() ==> ds[k] == s@[k + start],
            all_digits(ds.take(i - start)),
            acc == spec_digits_value(ds.take(i - start)),
        decreases n - i,
    {
        let c = s[i];
        if c < 48 || c > 57 {
            proof {
                assert(!is_digit(ds[i - start]));
            }
            return None;
        }
        let d = (c - 48) as u64;
        let ghost p = ds.take(i - start);
        let ghost q = ds.take(i - start + 1);
        proof {
            assert(q.drop_last() =~= p);
            assert(q.last() == ds[i - start] == c);
            assert(spec_digits_value(q) == acc * 10 + d);
        }
        if acc > limit || (acc == limit && d > 5) {
            proof {
                assert(acc * 10 + d > u64::MAX);
                if ds.len() > 0 && all_digits(ds) {
                    lemma_digits_value_mono(ds, i - start + 1);
                    assert(spec_digits_value(ds) > u64::MAX);
                }
            }
            return None;
        }
        acc = acc * 10 + d;
        i = i + 1;
    }
    proof {
        assert(ds.take(n - start) =~= ds);
        assert(all_digits(ds));
        assert(acc == spec_digits_value(ds));
    }
    if negative {
        if acc <= 9223372036854775808 {
            let v: i64 = (-(acc as i128)) as i64;
            proof {
                assert(v as int == -(acc as int));
            }
            Some(v)
        } else {
            None
        }
    } else {
        if acc <= 9223372036854775807 {
            Some(acc as i64)
        } else {
            None
        }
    }
}

/// Parses a whole slice as a completion flag: exactly `true` or `false`.
fn parse_bool_bytes(s: &[u8]) -> (r: Option<bool>)
    ensures
        r == spec_parse_bool(s@),
{
    let n: usize = s.len();
    if n == 4 {
        if s[0] == 116 && s[1] == 114 && s[2] == 117 && s[3] == 101 {
            proof {
                assert(s@ =~= spec_bool_repr(true));
            }
            return Some(true);
        }
        proof {
            if s@ == spec_bool_repr(true) {
                assert(s@[0] == 116 && s@[1] == 114 && s@[2] == 117 && s@[3] == 101);
            }
        }
        return None;
    }
    if n == 5 {
        if s[0] == 102 && s[1] == 97 && s[2] == 108 && s[3] == 115 && s[4] == 101 {
            proof {
                assert(s@ =~= spec_bool_repr(false));
            }
            return Some(false);
        }
        proof {
            if s@ == spec_bool_repr(false) {
                assert(s@[0] == 102 && s@[1] == 97 && s@[2] == 108 && s@[3] == 115 && s@[4]
                    == 101);
            }
        }
        return None;
    }
    None
}

/// Parses one line, `id,title,completed`, into a task, or reports why the
/// line is malformed.  The outcome is exactly `spec_parse_line` of the
/// line's bytes.
pub fn parse_task_line(line: &[u8]) -> (r: Result<Task, ParseTaskError>)
    ensures
        match r {
            Ok(t) => spec_parse_line(line@) == Ok::<TaskView, ParseTaskError>(t@),
            Err(e) => spec_parse_line(line@) == Err::<TaskView, ParseTaskError>(e),
        },
{
    let n: usize = line.len();
    let c1 = find_byte(line, 0, 44);
    if c1 == n {
        proof {
            lemma_find_none(line@, 44);
        }
        return Err(ParseTaskError::FieldCount);
    }
    proof {
        lemma_find_is(line@, 44, c1 as int);
    }
    let ghost rest = line@.subrange(c1 as int + 1, n as int);
    let c2 = find_byte(line, c1 + 1, 44);
    if c2 == n {
        proof {
            assert forall|k: int| 0 <= k < rest.len() implies #[trigger] rest[k] != 44 by {
                assert(rest[k] == line@[k + c1 + 1]);
            }
            lemma_find_none(rest, 44);
        }
        return Err(ParseTaskError::FieldCount);
    }
    proof {
        assert forall|k: int| 0 <= k < c2 - c1 - 1 implies #[trigger] rest[k] != 44 by {
            assert(rest[k] == line@[k + c1 + 1]);
        }
        assert(rest[c2 - c1 - 1] == line@[c2 as int]);
        lemma_find_is(rest, 44, c2 - c1 - 1);
    }
    let ghost cf = rest.subrange(c2 - c1, rest.len() as int);
    proof {
        assert forall|k: int| 0 <= k < cf.len() implies #[trigger] cf[k] == line@[k + c2 + 1] by {
            assert(cf[k] == rest[k + c2 - c1]);
        }
    }
    let c3 = find_byte(line, c2 + 1, 44);
    if c3 < n {
        proof {
            assert forall|k: int| 0 <= k < c3 - c2 - 1 implies #[trigger] cf[k] != 44 by {
                assert(cf[k] == line@[k + c2 + 1]);
            }
            assert(cf[c3 - c2 - 1] == line@[c3 as int]);
            lemma_find_is(cf, 44, c3 - c2 - 1);
        }
        return Err(ParseTaskError::FieldCount);
    }
    proof {
        assert forall|k: int| 0 <= k < cf.len() implies #[trigger] cf[k] != 44 by {
            assert(cf[k] == line@[k + c2 + 1]);
        }
        lemma_find_none(cf, 44);
    }
    let idf = slice_subrange(line, 0, c1);
    let id = match parse_i64_bytes(idf) {
        Some(v) => v,
        None => {
            return Err(ParseTaskError::BadId);
        },
    };
    let cfs = slice_subrange(line, c2 + 1, n);
    proof {
        assert(cfs@ =~= cf);
    }
    let completed = match parse_bool_bytes(cfs) {
        Some(c) => c,
        None => {
            return Err(ParseTaskError::BadCompleted);
        },
    };
    let title = slice_to_vec(slice_subrange(line, c1 + 1, c2));
    proof {
        assert(title@ =~= rest.subrange(0, c2 - c1 - 1));
    }
    Ok(Task { id, title, completed })
}

/// Drops a trailing carriage return, as `spec_strip_cr` describes.
fn strip_cr_slice<'a>(line: &'a [u8]) -> (r: &'a [u8])
    ensures
        r@ == spec_strip_cr(line@),
{
    let n: usize = line.len();
    if n > 0 && line[n - 1] == 13 {
        let r = slice_subrange(line, 0, n - 1);
        proof {
            assert(r@ =~= line@.drop_last());
        }
        r
    } else {
        line
    }
}

/// Loads a whole backing file: splits the bytes into lines, parses each
/// line, keeps the tasks of the well-formed lines in file order, and
/// silently skips every malformed line.
pub fn load_tasks(data: &[u8]) -> (r: Vec<Task>)
    ensures
        views(r@) == spec_load(data@),
{
    let n: usize = data.len();
    let mut out: Vec<Task> = Vec::new();
    let mut pos: usize = 0;
    proof {
        assert(views(out@) =~= Seq::<TaskView>::empty());
        assert(data@.subrange(0, n as int) =~= data@);
    }
    while pos < n
        invariant
            pos <= n,
            n == data@.len(),
            spec_load(data@) == views(out@) + spec_load(data@.subrange(pos as int, n as int)),
        decreases n - pos,
    {
        let ghost rem = data@.subrange(pos as int, n as int);
        let nl = find_byte(data, pos, 10);
        let line = slice_subrange(data, pos, nl);
        proof {
            if nl == n {
                assert forall|k: int| 0 <= k < rem.len() implies #[trigger] rem[k] != 10 by {
                    assert(rem[k] == data@[k + pos]);
                }
                lemma_find_none(rem, 10);
                assert(line@ =~= rem);
            } else {
                assert forall|k: int| 0 <= k < nl - pos implies #[trigger] rem[k] != 10 by {
                    assert(rem[k] == data@[k + pos]);
                }
                assert(rem[nl - pos] == data@[nl as int]);
                lemma_find_is(rem, 10, nl - pos);
                assert(line@ =~= rem.subrange(0, nl - pos));
                assert(data@.subrange(nl as int + 1, n as int) =~= rem.subrange(
                    nl - pos + 1,
                    rem.len() as int,
                ));
            }
        }
        let stripped = strip_cr_slice(line);
        let parsed = parse_task_line(stripped);
        let ghost pre_out = out@;
        let ghost rest_spec = if nl == n {
            Seq::<u8>::empty()
        } else {
            data@.subrange(nl as int + 1, n as int)
        };
        proof {
            if nl == n {
                assert(data@.subrange(n as int, n as int) =~= Seq::<u8>::empty());
            }
        }
        match parsed {
            Ok(t) => {
                let ghost tv = t@;
                out.push(t);
                proof {
                    assert(spec_load(rem) == seq![tv] + spec_load(rest_spec));
                    assert(views(out@) =~= views(pre_out).push(tv));
                    assert(views(pre_out).push(tv) + spec_load(rest_spec) =~= views(pre_out) + (
                    seq![tv] + spec_load(rest_spec)));
                }
            },
            Err(_) => {
                proof {
                    assert(spec_load(rem) == spec_load(rest_spec));
                }
            },
        }
        pos = if nl == n {
            n
        } else {
            nl + 1
        };
        proof {
            if pos == n {
                assert(data@.subrange(n as int, n as int) =~= Seq::<u8>::empty());
            }
        }
    }
    proof {
        assert(data@.subrange(n as int, n as int) =~= Seq::<u8>::empty());
        assert(views(out@) + spec_load(Seq::<u8>::empty()) =~= views(out@));
    }
    out
}

} // verus!
