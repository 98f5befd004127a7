//! Snapshot persistence: the task collection, the folder order and the
//! style records are each serialized as one text snapshot and read back
//! exactly. The format is private to this tool: numbers are written with
//! the least significant digit first and a `;` terminator, which keeps the
//! decoder a single forward pass, and strings are length-prefixed, so no
//! character ever needs escaping.

use crate::numerals::{digit_char, digit_val, is_dec_digit};
use crate::registry::FolderRegistry;
use crate::store::{ids_of, task_views, TaskStore};
use crate::strutil::{lemma_views_push, push_char, views};
use crate::task::{Task, TaskView};
use vstd::prelude::*;
use vstd::string::StrSliceExecFns;
use vstd::string::StringExecFns;

verus! {

/// A number, least significant digit first, ended by `;`.
pub open spec fn enc_nat(n: nat) -> Seq<char>
    decreases n,
{
    if n < 10 {
        seq![digit_char(n as int), ';']
    } else {
        seq![digit_char((n % 10) as int)] + enc_nat(n / 10)
    }
}

/// Reads a number written least significant digit first, refusing one
/// that does not fit in a `u64`.
pub open spec fn parse_nat(s: Seq<char>, i: int) -> Option<(u64, int)>
    decreases s.len() - i,
{
    if i < 0 || i >= s.len() || !is_dec_digit(s[i]) {
        None
    } else {
        let d = digit_val(s[i]);
        if i + 1 >= s.len() {
            None
        } else if s[i + 1] == ';' {
            Some((d as u64, i + 2))
        } else {
            match parse_nat(s, i + 1) {
                None => None,
                Some((v, j)) => {
                    if d + 10 * (v as int) > u64::MAX {
                        None
                    } else {
                        Some(((d + 10 * (v as int)) as u64, j))
                    }
                },
            }
        }
    }
}

/// An encoded number is at least two characters and starts with a digit.
pub proof fn lemma_enc_nat_shape(n: nat)
    ensures
        enc_nat(n).len() >= 2,
        is_dec_digit(enc_nat(n)[0]),
        enc_nat(n)[0] != ';',
    decreases n,
{
    if n >= 10 {
        lemma_enc_nat_shape(n / 10);
    }
    assert(48 <= digit_char((n % 10) as int) as int <= 57);
    assert(';' as int == 59);
}

/// A parsed position advances and stays within the text.
pub proof fn lemma_parse_nat_pos(s: Seq<char>, i: int)
    ensures
        parse_nat(s, i) matches Some(r) ==> i < r.1 <= s.len(),
    decreases s.len() - i,
{
    if 0 <= i < s.len() && is_dec_digit(s[i]) && i + 1 < s.len() && s[i + 1] != ';' {
        lemma_parse_nat_pos(s, i + 1);
    }
}

/// Reading an encoded number back gives the number and stops right after
/// its terminator.
pub proof fn lemma_parse_nat(s: Seq<char>, i: int, n: nat)
    requires
        n <= u64::MAX,
        0 <= i,
        i + enc_nat(n).len() <= s.len(),
        s.subrange(i, i + enc_nat(n).len() as int) == enc_nat(n),
    ensures
        parse_nat(s, i) == Some((n as u64, i + enc_nat(n).len() as int)),
    decreases n,
{
    let e = enc_nat(n);
    assert(s[i] == e[0]);
    if n < 10 {
        assert(e[0] == digit_char(n as int));
        assert(s[i + 1] == e[1]);
        assert(is_dec_digit(s[i]));
        assert(digit_val(s[i]) == n);
    } else {
        let rest = enc_nat(n / 10);
        lemma_enc_nat_shape(n / 10);
        assert(e[0] == digit_char((n % 10) as int));
        assert(is_dec_digit(s[i]));
        assert(digit_val(s[i]) == n % 10);
        assert(s[i + 1] == e[1]);
        assert(e[1] == rest[0]);
        assert(s[i + 1] != ';');
        assert(s.subrange(i + 1, i + 1 + rest.len() as int) =~= rest) by {
            assert forall|m: int| 0 <= m < rest.len() implies s.subrange(
                i + 1,
                i + 1 + rest.len() as int,
            )[m] == rest[m] by {
                assert(s[i + 1 + m] == e[1 + m]);
                assert(e[1 + m] == rest[m]);
            }
        }
        lemma_parse_nat(s, i + 1, n / 10);
        assert(n % 10 + 10 * (n / 10) == n) by {
            vstd::arithmetic::div_mod::lemma_fundamental_div_mod(n as int, 10);
        }
    }
}

/// A text that holds `a + b` at position `i` holds `a` there and `b` just
/// after it.
pub proof fn lemma_split_concat(s: Seq<char>, i: int, a: Seq<char>, b: Seq<char>)
    requires
        0 <= i,
        i + a.len() + b.len() <= s.len(),
        s.subrange(i, i + a.len() + b.len()) == a + b,
    ensures
        s.subrange(i, i + a.len() as int) == a,
        s.subrange(i + a.len() as int, i + a.len() + b.len()) == b,
{
    let whole = s.subrange(i, i + a.len() + b.len());
    assert forall|m: int| 0 <= m < a.len() implies s.subrange(i, i + a.len() as int)[m]
        == a[m] by {
        assert(whole[m] == (a + b)[m]);
    }
    assert(s.subrange(i, i + a.len() as int) =~= a);
    assert forall|m: int|
        0 <= m < b.len() implies s.subrange(i + a.len() as int, i + a.len() + b.len())[m]
        == b[m] by {
        assert(whole[a.len() + m] == (a + b)[a.len() + m]);
    }
    assert(s.subrange(i + a.len() as int, i + a.len() + b.len()) =~= b);
}

/// A string: its length, then its characters verbatim.
pub open spec fn enc_str(x: Seq<char>) -> Seq<char> {
    enc_nat(x.len()) + x
}

/// Reads a length-prefixed string.
pub open spec fn parse_str(s: Seq<char>, i: int) -> Option<(Seq<char>, int)> {
    match parse_nat(s, i) {
        None => None,
        Some((n, j)) => {
            if j + n <= s.len() {
                Some((s.subrange(j, j + n as int), j + n as int))
            } else {
                None
            }
        },
    }
}


/// Reading an encoded string back gives exactly that string.
pub proof fn lemma_parse_str(s: Seq<char>, i: int, x: Seq<char>)
    requires
        x.len() <= u64::MAX,
        0 <= i,
        i + enc_str(x).len() <= s.len(),
        s.subrange(i, i + enc_str(x).len() as int) == enc_str(x),
    ensures
        parse_str(s, i) == Some((x, i + enc_str(x).len() as int)),
{
    lemma_split_concat(s, i, enc_nat(x.len()), x);
    lemma_parse_nat(s, i, x.len());
    let j = i + enc_nat(x.len()).len() as int;
    assert(s.subrange(j, j + x.len() as int) == x);
}

/// A boolean: one character.
pub open spec fn enc_bool(b: bool) -> Seq<char> {
    if b {
        seq!['t']
    } else {
        seq!['f']
    }
}

/// Reads a boolean.
pub open spec fn parse_bool(s: Seq<char>, i: int) -> Option<(bool, int)> {
    if 0 <= i < s.len() && s[i] == 't' {
        Some((true, i + 1))
    } else if 0 <= i < s.len() && s[i] == 'f' {
        Some((false, i + 1))
    } else {
        None
    }
}

/// Reading an encoded boolean back gives that boolean.
pub proof fn lemma_parse_bool(s: Seq<char>, i: int, b: bool)
    requires
        0 <= i,
        i + 1 <= s.len(),
        s.subrange(i, i + 1) == enc_bool(b),
    ensures
        parse_bool(s, i) == Some((b, i + 1)),
{
    assert(s[i] == enc_bool(b)[0]);
}

/// The magnitude of a signed number.
pub open spec fn magnitude(v: int) -> nat {
    if v >= 0 {
        v as nat
    } else {
        (-v) as nat
    }
}

/// A signed number: its sign, then its magnitude.
pub open spec fn enc_i64(v: int) -> Seq<char> {
    (if v < 0 {
        seq!['-']
    } else {
        seq!['+']
    }) + enc_nat(magnitude(v))
}

/// Reads a signed number, refusing one that does not fit in an `i64`.
pub open spec fn parse_i64(s: Seq<char>, i: int) -> Option<(i64, int)> {
    if 0 <= i < s.len() && s[i] == '+' {
        match parse_nat(s, i + 1) {
            None => None,
            Some((m, j)) => {
                if m <= i64::MAX {
                    Some((m as i64, j))
                } else {
                    None
                }
            },
        }
    } else if 0 <= i < s.len() && s[i] == '-' {
        match parse_nat(s, i + 1) {
            None => None,
            Some((m, j)) => {
                if m as int <= i64::MAX as int + 1 {
                    Some(((-(m as int)) as i64, j))
                } else {
                    None
                }
            },
        }
    } else {
        None
    }
}


/// Reading an encoded signed number back gives that number.
pub proof fn lemma_parse_i64(s: Seq<char>, i: int, v: int)
    requires
        i64::MIN <= v <= i64::MAX,
        0 <= i,
        i + enc_i64(v).len() <= s.len(),
        s.subrange(i, i + enc_i64(v).len() as int) == enc_i64(v),
    ensures
        parse_i64(s, i) == Some((v as i64, i + enc_i64(v).len() as int)),
{
    let sign = if v < 0 {
        seq!['-']
    } else {
        seq!['+']
    };
    lemma_split_concat(s, i, sign, enc_nat(magnitude(v)));
    assert(s[i] == sign[0]) by {
        assert(s.subrange(i, i + 1)[0] == sign[0]);
    }
    lemma_parse_nat(s, i + 1, magnitude(v));
}

/// An optional string: `N`, or `S` and the string.
pub open spec fn enc_opt_str(o: Option<Seq<char>>) -> Seq<char> {
    match o {
        None => seq!['N'],
        Some(x) => seq!['S'] + enc_str(x),
    }
}

/// Reads an optional string.
pub open spec fn parse_opt_str(s: Seq<char>, i: int) -> Option<(Option<Seq<char>>, int)> {
    if 0 <= i < s.len() && s[i] == 'N' {
        Some((None, i + 1))
    } else if 0 <= i < s.len() && s[i] == 'S' {
        match parse_str(s, i + 1) {
            None => None,
            Some((x, j)) => Some((Some(x), j)),
        }
    } else {
        None
    }
}


/// Reading an encoded optional string back gives it.
pub proof fn lemma_parse_opt_str(s: Seq<char>, i: int, o: Option<Seq<char>>)
    requires
        o matches Some(x) ==> x.len() <= u64::MAX,
        0 <= i,
        i + enc_opt_str(o).len() <= s.len(),
        s.subrange(i, i + enc_opt_str(o).len() as int) == enc_opt_str(o),
    ensures
        parse_opt_str(s, i) == Some((o, i + enc_opt_str(o).len() as int)),
{
    match o {
        None => {
            assert(s[i] == 'N') by {
                assert(s.subrange(i, i + 1)[0] == enc_opt_str(o)[0]);
            }
        },
        Some(x) => {
            lemma_split_concat(s, i, seq!['S'], enc_str(x));
            assert(s[i] == 'S') by {
                assert(s.subrange(i, i + 1)[0] == seq!['S'][0]);
            }
            lemma_parse_str(s, i + 1, x);
        },
    }
}

/// An optional signed number: `N`, or `S` and the number.
pub open spec fn enc_opt_i64(o: Option<int>) -> Seq<char> {
    match o {
        None => seq!['N'],
        Some(v) => seq!['S'] + enc_i64(v),
    }
}

/// Reads an optional signed number.
pub open spec fn parse_opt_i64(s: Seq<char>, i: int) -> Option<(Option<i64>, int)> {
    if 0 <= i < s.len() && s[i] == 'N' {
        Some((None, i + 1))
    } else if 0 <= i < s.len() && s[i] == 'S' {
        match parse_i64(s, i + 1) {
            None => None,
            Some((v, j)) => Some((Some(v), j)),
        }
    } else {
        None
    }
}


/// Reading an encoded optional number back gives it.
pub proof fn lemma_parse_opt_i64(s: Seq<char>, i: int, o: Option<int>)
    requires
        o matches Some(v) ==> i64::MIN <= v <= i64::MAX,
        0 <= i,
        i + enc_opt_i64(o).len() <= s.len(),
        s.subrange(i, i + enc_opt_i64(o).len() as int) == enc_opt_i64(o),
    ensures
        parse_opt_i64(s, i) matches Some(r) && r.1 == i + enc_opt_i64(o).len() as int && ({
            match (r.0, o) {
                (None, None) => true,
                (Some(a), Some(b)) => a as int == b,
                _ => false,
            }
        }),
{
    match o {
        None => {
            assert(s[i] == 'N') by {
                assert(s.subrange(i, i + 1)[0] == enc_opt_i64(o)[0]);
            }
        },
        Some(v) => {
            lemma_split_concat(s, i, seq!['S'], enc_i64(v));
            assert(s[i] == 'S') by {
                assert(s.subrange(i, i + 1)[0] == seq!['S'][0]);
            }
            lemma_parse_i64(s, i + 1, v);
        },
    }
}

/// Whether a task's view fits what one record can carry; the view of any
/// task held in memory does.
pub open spec fn bounded_task(t: TaskView) -> bool {
    &&& t.id.len() <= u64::MAX
    &&& t.description.len() <= u64::MAX
    &&& (t.folder matches Some(f) ==> f.len() <= u64::MAX)
    &&& i64::MIN <= t.total_duration <= i64::MAX
    &&& (t.start_time matches Some(v) ==> i64::MIN <= v <= i64::MAX)
}

/// One task record: the fields in a fixed order.
pub open spec fn enc_task(t: TaskView) -> Seq<char> {
    enc_str(t.id) + enc_str(t.description) + enc_opt_str(t.folder) + enc_i64(t.total_duration)
        + enc_opt_i64(t.start_time) + enc_bool(t.is_paused)
}

/// Reads one task record.
pub open spec fn parse_task(s: Seq<char>, i: int) -> Option<(TaskView, int)> {
    match parse_str(s, i) {
        None => None,
        Some((id, j1)) => match parse_str(s, j1) {
            None => None,
            Some((description, j2)) => match parse_opt_str(s, j2) {
                None => None,
                Some((folder, j3)) => match parse_i64(s, j3) {
                    None => None,
                    Some((total, j4)) => match parse_opt_i64(s, j4) {
                        None => None,
                        Some((start, j5)) => match parse_bool(s, j5) {
                            None => None,
                            Some((paused, j6)) => Some(
                                (
                                    TaskView {
                                        id: id,
                                        description: description,
                                        folder: folder,
                                        total_duration: total as int,
                                        start_time: match start {
                                            None => None,
                                            Some(v) => Some(v as int),
                                        },
                                        is_paused: paused,
                                    },
                                    j6,
                                ),
                            ),
                        },
                    },
                },
            },
        },
    }
}


/// Reading an encoded task record back gives the same task.
pub proof fn lemma_parse_task(s: Seq<char>, i: int, t: TaskView)
    requires
        bounded_task(t),
        0 <= i,
        i + enc_task(t).len() <= s.len(),
        s.subrange(i, i + enc_task(t).len() as int) == enc_task(t),
    ensures
        parse_task(s, i) == Some((t, i + enc_task(t).len() as int)),
{
    let e1 = enc_str(t.id);
    let e2 = enc_str(t.description);
    let e3 = enc_opt_str(t.folder);
    let e4 = enc_i64(t.total_duration);
    let e5 = enc_opt_i64(t.start_time);
    let e6 = enc_bool(t.is_paused);
    let a5 = e1 + e2 + e3 + e4 + e5;
    assert(enc_task(t) == a5 + e6);
    lemma_split_concat(s, i, a5, e6);
    let a4 = e1 + e2 + e3 + e4;
    assert(a5 == a4 + e5);
    lemma_split_concat(s, i, a4, e5);
    let a3 = e1 + e2 + e3;
    assert(a4 == a3 + e4);
    lemma_split_concat(s, i, a3, e4);
    let a2 = e1 + e2;
    assert(a3 == a2 + e3);
    lemma_split_concat(s, i, a2, e3);
    lemma_split_concat(s, i, e1, e2);
    let j1 = i + e1.len() as int;
    let j2 = j1 + e2.len() as int;
    let j3 = j2 + e3.len() as int;
    let j4 = j3 + e4.len() as int;
    let j5 = j4 + e5.len() as int;
    let j6 = j5 + e6.len() as int;
    lemma_parse_str(s, i, t.id);
    lemma_parse_str(s, j1, t.description);
    lemma_parse_opt_str(s, j2, t.folder);
    lemma_parse_i64(s, j3, t.total_duration);
    lemma_parse_opt_i64(s, j4, t.start_time);
    lemma_parse_bool(s, j5, t.is_paused);
    assert(parse_task(s, i) matches Some(r) && r.0 == t && r.1 == j6);
}

/// Task records, one after the other.
pub open spec fn enc_task_list(ts: Seq<TaskView>) -> Seq<char>
    decreases ts.len(),
{
    if ts.len() == 0 {
        Seq::empty()
    } else {
        enc_task(ts.first()) + enc_task_list(ts.drop_first())
    }
}

/// Appending one task extends its encoding at the end.
pub proof fn lemma_enc_task_list_push(ts: Seq<TaskView>, t: TaskView)
    ensures
        enc_task_list(ts.push(t)) == enc_task_list(ts) + enc_task(t),
    decreases ts.len(),
{
    if ts.len() == 0 {
        assert(ts.push(t).drop_first() =~= Seq::<TaskView>::empty());
        assert(ts.push(t).first() == t);
        assert(enc_task_list(Seq::<TaskView>::empty()) =~= Seq::<char>::empty());
        assert(ts =~= Seq::<TaskView>::empty());
        assert(enc_task_list(ts.push(t)) =~= enc_task_list(ts) + enc_task(t));
    } else {
        assert(ts.push(t).first() == ts.first());
        assert(ts.push(t).drop_first() =~= ts.drop_first().push(t));
        lemma_enc_task_list_push(ts.drop_first(), t);
        assert(enc_task(ts.first()) + (enc_task_list(ts.drop_first()) + enc_task(t)) =~= (enc_task(
            ts.first(),
        ) + enc_task_list(ts.drop_first())) + enc_task(t));
    }
}

/// Reads `n` task records.
pub open spec fn parse_task_list(s: Seq<char>, i: int, n: u64) -> Option<(Seq<TaskView>, int)>
    decreases n,
{
    if n == 0 {
        Some((Seq::empty(), i))
    } else {
        match parse_task(s, i) {
            None => None,
            Some((t, j)) => match parse_task_list(s, j, (n - 1) as u64) {
                None => None,
                Some((ts, k)) => Some((seq![t] + ts, k)),
            },
        }
    }
}

/// Reading back `n` encoded records gives the same tasks.
pub proof fn lemma_parse_task_list(s: Seq<char>, i: int, ts: Seq<TaskView>)
    requires
        ts.len() <= u64::MAX,
        forall|k: int| 0 <= k < ts.len() ==> bounded_task(#[trigger] ts[k]),
        0 <= i,
        i + enc_task_list(ts).len() <= s.len(),
        s.subrange(i, i + enc_task_list(ts).len() as int) == enc_task_list(ts),
    ensures
        parse_task_list(s, i, ts.len() as u64) == Some((ts, i + enc_task_list(ts).len() as int)),
    decreases ts.len(),
{
    if ts.len() == 0 {
        assert(parse_task_list(s, i, 0) == Some((Seq::<TaskView>::empty(), i)));
        assert(ts =~= Seq::<TaskView>::empty());
    } else {
        let t = ts.first();
        let rest = ts.drop_first();
        assert(bounded_task(ts[0]));
        lemma_split_concat(s, i, enc_task(t), enc_task_list(rest));
        lemma_parse_task(s, i, t);
        let j = i + enc_task(t).len() as int;
        assert(forall|k: int| 0 <= k < rest.len() ==> bounded_task(#[trigger] rest[k])) by {
            assert forall|k: int| 0 <= k < rest.len() implies bounded_task(#[trigger] rest[k]) by {
                assert(rest[k] == ts[k + 1]);
            }
        }
        lemma_parse_task_list(s, j, rest);
        assert(seq![t] + rest =~= ts);
    }
}

/// The whole task snapshot: the count, then the records.
pub open spec fn enc_tasks(ts: Seq<TaskView>) -> Seq<char> {
    enc_nat(ts.len()) + enc_task_list(ts)
}

/// Whether decoded tasks can enter the store: every task well-formed and
/// the ids unique.
pub open spec fn valid_tasks(ts: Seq<TaskView>) -> bool {
    &&& (forall|k: int| 0 <= k < ts.len() ==> (#[trigger] ts[k]).wf())
    &&& ids_of(ts).no_duplicates()
}

/// What decoding a task snapshot yields: the tasks, if the whole text is
/// one well-formed snapshot, and nothing otherwise.
pub open spec fn spec_decode_tasks(s: Seq<char>) -> Option<Seq<TaskView>> {
    match parse_nat(s, 0) {
        None => None,
        Some((n, j)) => match parse_task_list(s, j, n) {
            None => None,
            Some((ts, k)) => {
                if k == s.len() && valid_tasks(ts) {
                    Some(ts)
                } else {
                    None
                }
            },
        },
    }
}

/// Decoding an encoded task snapshot restores exactly the encoded tasks.
pub proof fn lemma_tasks_round_trip(ts: Seq<TaskView>)
    requires
        ts.len() <= u64::MAX,
        forall|k: int| 0 <= k < ts.len() ==> bounded_task(#[trigger] ts[k]),
        valid_tasks(ts),
    ensures
        spec_decode_tasks(enc_tasks(ts)) == Some(ts),
{
    let s = enc_tasks(ts);
    assert(s.subrange(0, s.len() as int) =~= s);
    lemma_split_concat(s, 0, enc_nat(ts.len()), enc_task_list(ts));
    lemma_parse_nat(s, 0, ts.len());
    let j = enc_nat(ts.len()).len() as int;
    lemma_parse_task_list(s, j, ts);
}

/// Strings, one after the other.
pub open spec fn enc_str_list(ss: Seq<Seq<char>>) -> Seq<char>
    decreases ss.len(),
{
    if ss.len() == 0 {
        Seq::empty()
    } else {
        enc_str(ss.first()) + enc_str_list(ss.drop_first())
    }
}

/// Appending one string extends its encoding at the end.
pub proof fn lemma_enc_str_list_push(ss: Seq<Seq<char>>, x: Seq<char>)
    ensures
        enc_str_list(ss.push(x)) == enc_str_list(ss) + enc_str(x),
    decreases ss.len(),
{
    if ss.len() == 0 {
        assert(ss.push(x).drop_first() =~= Seq::<Seq<char>>::empty());
        assert(ss.push(x).first() == x);
        assert(enc_str_list(Seq::<Seq<char>>::empty()) =~= Seq::<char>::empty());
        assert(ss =~= Seq::<Seq<char>>::empty());
        assert(enc_str_list(ss.push(x)) =~= enc_str_list(ss) + enc_str(x));
    } else {
        assert(ss.push(x).first() == ss.first());
        assert(ss.push(x).drop_first() =~= ss.drop_first().push(x));
        lemma_enc_str_list_push(ss.drop_first(), x);
        assert(enc_str(ss.first()) + (enc_str_list(ss.drop_first()) + enc_str(x)) =~= (enc_str(
            ss.first(),
        ) + enc_str_list(ss.drop_first())) + enc_str(x));
    }
}

/// Reads `n` strings.
pub open spec fn parse_str_list(s: Seq<char>, i: int, n: u64) -> Option<(Seq<Seq<char>>, int)>
    decreases n,
{
    if n == 0 {
        Some((Seq::empty(), i))
    } else {
        match parse_str(s, i) {
            None => None,
            Some((x, j)) => match parse_str_list(s, j, (n - 1) as u64) {
                None => None,
                Some((ss, k)) => Some((seq![x] + ss, k)),
            },
        }
    }
}

/// Reading back `n` encoded strings gives the same strings.
pub proof fn lemma_parse_str_list(s: Seq<char>, i: int, ss: Seq<Seq<char>>)
    requires
        ss.len() <= u64::MAX,
        forall|k: int| 0 <= k < ss.len() ==> (#[trigger] ss[k]).len() <= u64::MAX,
        0 <= i,
        i + enc_str_list(ss).len() <= s.len(),
        s.subrange(i, i + enc_str_list(ss).len() as int) == enc_str_list(ss),
    ensures
        parse_str_list(s, i, ss.len() as u64) == Some((ss, i + enc_str_list(ss).len() as int)),
    decreases ss.len(),
{
    if ss.len() == 0 {
        assert(ss =~= Seq::<Seq<char>>::empty());
    } else {
        let x = ss.first();
        let rest = ss.drop_first();
        assert(ss[0].len() <= u64::MAX);
        lemma_split_concat(s, i, enc_str(x), enc_str_list(rest));
        lemma_parse_str(s, i, x);
        let j = i + enc_str(x).len() as int;
        assert(forall|k: int| 0 <= k < rest.len() ==> (#[trigger] rest[k]).len() <= u64::MAX) by {
            assert forall|k: int|
                0 <= k < rest.len() implies (#[trigger] rest[k]).len() <= u64::MAX by {
                assert(rest[k] == ss[k + 1]);
            }
        }
        lemma_parse_str_list(s, j, rest);
        assert(seq![x] + rest =~= ss);
    }
}

/// The whole snapshot of a string list: the count, then the strings.
pub open spec fn enc_strs(ss: Seq<Seq<char>>) -> Seq<char> {
    enc_nat(ss.len()) + enc_str_list(ss)
}

/// What decoding a string-list snapshot yields.
pub open spec fn spec_decode_strs(s: Seq<char>) -> Option<Seq<Seq<char>>> {
    match parse_nat(s, 0) {
        None => None,
        Some((n, j)) => match parse_str_list(s, j, n) {
            None => None,
            Some((ss, k)) => {
                if k == s.len() {
                    Some(ss)
                } else {
                    None
                }
            },
        },
    }
}

/// Decoding an encoded string list restores exactly the encoded strings.
pub proof fn lemma_strs_round_trip(ss: Seq<Seq<char>>)
    requires
        ss.len() <= u64::MAX,
        forall|k: int| 0 <= k < ss.len() ==> (#[trigger] ss[k]).len() <= u64::MAX,
    ensures
        spec_decode_strs(enc_strs(ss)) == Some(ss),
{
    let s = enc_strs(ss);
    assert(s.subrange(0, s.len() as int) =~= s);
    lemma_split_concat(s, 0, enc_nat(ss.len()), enc_str_list(ss));
    lemma_parse_nat(s, 0, ss.len());
    let j = enc_nat(ss.len()).len() as int;
    lemma_parse_str_list(s, j, ss);
}


/// Appends the encoding of a number.
fn push_nat(out: &mut String, n: u64)
    ensures
        final(out)@ == old(out)@ + enc_nat(n as nat),
    decreases n,
{
    let d = (48 + (n % 10) as u8) as char;
    push_char(out, d);
    proof {
        assert(d == digit_char((n as nat % 10) as int));
    }
    if n < 10 {
        push_char(out, ';');
        proof {
            assert(old(out)@.push(d).push(';') =~= old(out)@ + seq![
                digit_char(n as int),
                ';',
            ]);
        }
    } else {
        push_nat(out, n / 10);
        proof {
            assert(old(out)@.push(d) + enc_nat((n / 10) as nat) =~= old(out)@ + (seq![
                digit_char((n as nat % 10) as int),
            ] + enc_nat(n as nat / 10)));
        }
    }
}

/// Appends the encoding of a string.
fn push_str_field(out: &mut String, x: &String)
    ensures
        final(out)@ == old(out)@ + enc_str(x@),
{
    let n = x.as_str().unicode_len();
    push_nat(out, n as u64);
    out.append(x.as_str());
    proof {
        assert((old(out)@ + enc_nat(x@.len())) + x@ =~= old(out)@ + (enc_nat(x@.len()) + x@));
    }
}

/// Appends the encoding of a boolean.
fn push_bool(out: &mut String, b: bool)
    ensures
        final(out)@ == old(out)@ + enc_bool(b),
{
    if b {
        push_char(out, 't');
        proof {
            assert(old(out)@.push('t') =~= old(out)@ + seq!['t']);
        }
    } else {
        push_char(out, 'f');
        proof {
            assert(old(out)@.push('f') =~= old(out)@ + seq!['f']);
        }
    }
}

/// Appends the encoding of a signed number.
fn push_i64(out: &mut String, v: i64)
    ensures
        final(out)@ == old(out)@ + enc_i64(v as int),
{
    if v >= 0 {
        push_char(out, '+');
        push_nat(out, v as u64);
        proof {
            assert(v as u64 as nat == magnitude(v as int));
            assert(old(out)@.push('+') + enc_nat(magnitude(v as int)) =~= old(out)@ + (seq!['+']
                + enc_nat(magnitude(v as int))));
        }
    } else {
        push_char(out, '-');
        let m: u64 = if v == i64::MIN {
            9223372036854775808u64
        } else {
            (-v) as u64
        };
        proof {
            assert(m as nat == magnitude(v as int));
        }
        push_nat(out, m);
        proof {
            assert(old(out)@.push('-') + enc_nat(magnitude(v as int)) =~= old(out)@ + (seq!['-']
                + enc_nat(magnitude(v as int))));
        }
    }
}

/// Appends the encoding of an optional string.
fn push_opt_str(out: &mut String, o: &Option<String>)
    ensures
        final(out)@ == old(out)@ + enc_opt_str(crate::task::opt_view(*o)),
{
    match o {
        None => {
            push_char(out, 'N');
            proof {
                assert(old(out)@.push('N') =~= old(out)@ + seq!['N']);
            }
        },
        Some(x) => {
            push_char(out, 'S');
            push_str_field(out, x);
            proof {
                assert(old(out)@.push('S') + enc_str(x@) =~= old(out)@ + (seq!['S'] + enc_str(
                    x@,
                )));
            }
        },
    }
}

/// The view of an optional timestamp.
pub open spec fn opt_int_view(o: Option<i64>) -> Option<int> {
    match o {
        None => None,
        Some(v) => Some(v as int),
    }
}

/// Appends the encoding of an optional signed number.
fn push_opt_i64(out: &mut String, o: Option<i64>)
    ensures
        final(out)@ == old(out)@ + enc_opt_i64(opt_int_view(o)),
{
    match o {
        None => {
            push_char(out, 'N');
            proof {
                assert(old(out)@.push('N') =~= old(out)@ + seq!['N']);
            }
        },
        Some(v) => {
            push_char(out, 'S');
            push_i64(out, v);
            proof {
                assert(old(out)@.push('S') + enc_i64(v as int) =~= old(out)@ + (seq!['S']
                    + enc_i64(v as int)));
            }
        },
    }
}

/// Appends the encoding of one task record.
fn push_task(out: &mut String, t: &Task)
    ensures
        final(out)@ == old(out)@ + enc_task(t@),
{
    push_str_field(out, &t.id);
    push_str_field(out, &t.description);
    push_opt_str(out, &t.folder);
    push_i64(out, t.total_duration);
    push_opt_i64(out, t.start_time);
    push_bool(out, t.is_paused);
    proof {
        let e1 = enc_str(t@.id);
        let e2 = enc_str(t@.description);
        let e3 = enc_opt_str(t@.folder);
        let e4 = enc_i64(t@.total_duration);
        let e5 = enc_opt_i64(t@.start_time);
        let e6 = enc_bool(t@.is_paused);
        assert(((((old(out)@ + e1) + e2) + e3) + e4) + e5 + e6 =~= old(out)@ + (((((e1 + e2) + e3)
            + e4) + e5) + e6));
    }
}

/// The full task snapshot of a store.
pub fn encode_tasks(store: &TaskStore) -> (r: String)
    ensures
        r@ == enc_tasks(store.views()),
{
    let mut out = String::new();
    let n = store.tasks.len();
    push_nat(&mut out, n as u64);
    proof {
        assert(store.views().len() == store.tasks@.len());
        assert(enc_task_list(store.views().subrange(0, 0)) =~= Seq::<char>::empty());
        assert(out@ =~= Seq::<char>::empty() + enc_nat(store.views().len()) + enc_task_list(
            store.views().subrange(0, 0),
        ));
    }
    let mut i: usize = 0;
    while i < store.tasks.len()
        invariant
            0 <= i <= store.tasks@.len(),
            store.views().len() == store.tasks@.len(),
            out@ == Seq::<char>::empty() + enc_nat(store.views().len()) + enc_task_list(
                store.views().subrange(0, i as int),
            ),
        decreases store.tasks@.len() - i,
    {
        proof {
            assert(store.views()[i as int] == store.tasks@[i as int]@);
        }
        push_task(&mut out, &store.tasks[i]);
        proof {
            let pre = store.views().subrange(0, i as int);
            let pre1 = store.views().subrange(0, i as int + 1);
            assert(pre1 =~= pre.push(store.views()[i as int]));
            lemma_enc_task_list_push(pre, store.views()[i as int]);
            assert(out@ =~= Seq::<char>::empty() + enc_nat(store.views().len()) + enc_task_list(
                pre1,
            ));
        }
        i = i + 1;
    }
    proof {
        assert(store.views().subrange(0, store.tasks@.len() as int) =~= store.views());
        assert(out@ =~= enc_nat(store.views().len()) + enc_task_list(store.views()));
    }
    out
}

/// The snapshot of a list of strings.
fn encode_string_list(items: &Vec<String>) -> (r: String)
    ensures
        r@ == enc_strs(views(items@)),
{
    let mut out = String::new();
    push_nat(&mut out, items.len() as u64);
    proof {
        assert(views(items@).len() == items@.len());
        assert(enc_str_list(views(items@).subrange(0, 0)) =~= Seq::<char>::empty());
        assert(out@ =~= Seq::<char>::empty() + enc_nat(views(items@).len()) + enc_str_list(
            views(items@).subrange(0, 0),
        ));
    }
    let mut i: usize = 0;
    while i < items.len()
        invariant
            0 <= i <= items@.len(),
            views(items@).len() == items@.len(),
            out@ == Seq::<char>::empty() + enc_nat(views(items@).len()) + enc_str_list(
                views(items@).subrange(0, i as int),
            ),
        decreases items@.len() - i,
    {
        proof {
            assert(views(items@)[i as int] == items@[i as int]@);
        }
        push_str_field(&mut out, &items[i]);
        proof {
            let pre = views(items@).subrange(0, i as int);
            let pre1 = views(items@).subrange(0, i as int + 1);
            assert(pre1 =~= pre.push(views(items@)[i as int]));
            lemma_enc_str_list_push(pre, views(items@)[i as int]);
            assert(out@ =~= Seq::<char>::empty() + enc_nat(views(items@).len()) + enc_str_list(
                pre1,
            ));
        }
        i = i + 1;
    }
    proof {
        assert(views(items@).subrange(0, items@.len() as int) =~= views(items@));
        assert(out@ =~= enc_nat(views(items@).len()) + enc_str_list(views(items@)));
    }
    out
}

/// The snapshot of the folder order.
pub fn encode_folders(registry: &FolderRegistry) -> (r: String)
    ensures
        r@ == enc_strs(registry.folder_names()),
{
    encode_string_list(&registry.folders)
}

/// The snapshot of the style records, which carry the folder names.
pub fn encode_styles(registry: &FolderRegistry) -> (r: String)
    ensures
        r@ == enc_strs(crate::registry::style_names(registry.styles@)),
{
    let mut names: Vec<String> = Vec::new();
    let mut i: usize = 0;
    proof {
        assert(crate::registry::style_names(registry.styles@).len() == registry.styles@.len());
    }
    while i < registry.styles.len()
        invariant
            0 <= i <= registry.styles@.len(),
            crate::registry::style_names(registry.styles@).len() == registry.styles@.len(),
            views(names@) == crate::registry::style_names(registry.styles@).subrange(0, i as int),
        decreases registry.styles@.len() - i,
    {
        let nm = registry.styles[i].name.clone();
        proof {
            lemma_views_push(names@, nm);
            assert(crate::registry::style_names(registry.styles@)[i as int]
                == registry.styles@[i as int].name@);
        }
        names.push(nm);
        proof {
            assert(views(names@) =~= crate::registry::style_names(registry.styles@).subrange(
                0,
                i as int + 1,
            ));
        }
        i = i + 1;
    }
    proof {
        assert(crate::registry::style_names(registry.styles@).subrange(
            0,
            registry.styles@.len() as int,
        ) =~= crate::registry::style_names(registry.styles@));
    }
    encode_string_list(&names)
}


/// Reads a number at position `i`.
fn parse_nat_exec(s: &str, i: usize) -> (r: Option<(u64, usize)>)
    ensures
        r is Some <==> parse_nat(s@, i as int) is Some,
        r matches Some(p) ==> parse_nat(s@, i as int) == Some((p.0, p.1 as int)),
    decreases s@.len() - i,
{
    let len = s.unicode_len();
    if i >= len {
        return None;
    }
    let c = s.get_char(i);
    if (c as u32) < 48 || (c as u32) > 57 {
        proof {
            assert(!is_dec_digit(s@[i as int]));
        }
        return None;
    }
    let d = ((c as u32) - 48) as u64;
    proof {
        assert(d as int == digit_val(s@[i as int]));
    }
    if i + 1 >= len {
        return None;
    }
    let c2 = s.get_char(i + 1);
    if c2 == ';' {
        return Some((d, i + 2));
    }
    match parse_nat_exec(s, i + 1) {
        None => None,
        Some((v, j)) => {
            match v.checked_mul(10) {
                None => {
                    proof {
                        assert(d as int + 10 * (v as int) > u64::MAX);
                    }
                    None
                },
                Some(w) => match w.checked_add(d) {
                    None => {
                        proof {
                            assert(d as int + 10 * (v as int) > u64::MAX);
                        }
                        None
                    },
                    Some(val) => {
                        proof {
                            assert(val as int == digit_val(s@[i as int]) + 10 * (v as int));
                        }
                        Some((val, j))
                    },
                },
            }
        },
    }
}

/// Reads a length-prefixed string at position `i`.
fn parse_str_exec(s: &str, i: usize) -> (r: Option<(String, usize)>)
    ensures
        r is Some <==> parse_str(s@, i as int) is Some,
        r matches Some(p) ==> parse_str(s@, i as int) matches Some(q) && p.0@ == q.0 && p.1 as int
            == q.1,
{
    match parse_nat_exec(s, i) {
        None => None,
        Some((n, j)) => {
            let len = s.unicode_len();
            proof {
                lemma_parse_nat_pos(s@, i as int);
            }
            if n <= (len - j) as u64 {
                let e = j + (n as usize);
                let sub = s.substring_char(j, e);
                Some((sub.to_owned(), e))
            } else {
                None
            }
        },
    }
}

/// Reads a boolean at position `i`.
fn parse_bool_exec(s: &str, i: usize) -> (r: Option<(bool, usize)>)
    ensures
        r is Some <==> parse_bool(s@, i as int) is Some,
        r matches Some(p) ==> parse_bool(s@, i as int) == Some((p.0, p.1 as int)),
{
    let len = s.unicode_len();
    if i >= len {
        return None;
    }
    let c = s.get_char(i);
    if c == 't' {
        Some((true, i + 1))
    } else if c == 'f' {
        Some((false, i + 1))
    } else {
        None
    }
}

/// Reads a signed number at position `i`.
fn parse_i64_exec(s: &str, i: usize) -> (r: Option<(i64, usize)>)
    ensures
        r is Some <==> parse_i64(s@, i as int) is Some,
        r matches Some(p) ==> parse_i64(s@, i as int) == Some((p.0, p.1 as int)),
{
    let len = s.unicode_len();
    if i >= len {
        return None;
    }
    let c = s.get_char(i);
    if c == '+' {
        match parse_nat_exec(s, i + 1) {
            None => None,
            Some((m, j)) => {
                if m <= i64::MAX as u64 {
                    Some((m as i64, j))
                } else {
                    None
                }
            },
        }
    } else if c == '-' {
        match parse_nat_exec(s, i + 1) {
            None => None,
            Some((m, j)) => {
                if m <= 9223372036854775808u64 {
                    let v: i64 = if m == 9223372036854775808u64 {
                        i64::MIN
                    } else {
                        -(m as i64)
                    };
                    proof {
                        assert(v as int == -(m as int));
                    }
                    Some((v, j))
                } else {
                    None
                }
            },
        }
    } else {
        None
    }
}

/// Reads an optional string at position `i`.
fn parse_opt_str_exec(s: &str, i: usize) -> (r: Option<(Option<String>, usize)>)
    ensures
        r is Some <==> parse_opt_str(s@, i as int) is Some,
        r matches Some(p) ==> parse_opt_str(s@, i as int) matches Some(q) && crate::task::opt_view(
            p.0,
        ) == q.0 && p.1 as int == q.1,
{
    let len = s.unicode_len();
    if i >= len {
        return None;
    }
    let c = s.get_char(i);
    if c == 'N' {
        Some((None, i + 1))
    } else if c == 'S' {
        match parse_str_exec(s, i + 1) {
            None => None,
            Some((x, j)) => Some((Some(x), j)),
        }
    } else {
        None
    }
}

/// Reads an optional signed number at position `i`.
fn parse_opt_i64_exec(s: &str, i: usize) -> (r: Option<(Option<i64>, usize)>)
    ensures
        r is Some <==> parse_opt_i64(s@, i as int) is Some,
        r matches Some(p) ==> parse_opt_i64(s@, i as int) matches Some(q) && opt_int_view(p.0)
            == ({
            match q.0 {
                None => None,
                Some(v) => Some(v as int),
            }
        }) && p.1 as int == q.1,
{
    let len = s.unicode_len();
    if i >= len {
        return None;
    }
    let c = s.get_char(i);
    if c == 'N' {
        Some((None, i + 1))
    } else if c == 'S' {
        match parse_i64_exec(s, i + 1) {
            None => None,
            Some((v, j)) => Some((Some(v), j)),
        }
    } else {
        None
    }
}

/// Reads one task record at position `i`.
fn parse_task_exec(s: &str, i: usize) -> (r: Option<(Task, usize)>)
    ensures
        r is Some <==> parse_task(s@, i as int) is Some,
        r matches Some(p) ==> parse_task(s@, i as int) matches Some(q) && p.0@ == q.0 && p.1 as int
            == q.1,
{
    let (id, j1) = match parse_str_exec(s, i) {
        None => {
            return None;
        },
        Some(p) => p,
    };
    let (description, j2) = match parse_str_exec(s, j1) {
        None => {
            return None;
        },
        Some(p) => p,
    };
    let (folder, j3) = match parse_opt_str_exec(s, j2) {
        None => {
            return None;
        },
        Some(p) => p,
    };
    let (total_duration, j4) = match parse_i64_exec(s, j3) {
        None => {
            return None;
        },
        Some(p) => p,
    };
    let (start_time, j5) = match parse_opt_i64_exec(s, j4) {
        None => {
            return None;
        },
        Some(p) => p,
    };
    let (is_paused, j6) = match parse_bool_exec(s, j5) {
        None => {
            return None;
        },
        Some(p) => p,
    };
    let t = Task { id, description, folder, total_duration, start_time, is_paused };
    Some((t, j6))
}

/// Decodes a task snapshot: the snapshot must be one complete, well-formed
/// record of tasks with unique ids, else nothing is restored.
pub fn decode_tasks(s: &str) -> (r: Option<TaskStore>)
    ensures
        match r {
            Some(store) => store.wf() && spec_decode_tasks(s@) == Some(store.views()),
            None => spec_decode_tasks(s@) is None,
        },
{
    let len = s.unicode_len();
    let (n, start) = match parse_nat_exec(s, 0) {
        None => {
            return None;
        },
        Some(p) => p,
    };
    let ghost j0 = start as int;
    let mut tasks: Vec<Task> = Vec::new();
    let mut pos: usize = start;
    let mut rem: u64 = n;
    proof {
        assert(task_views(tasks@) =~= Seq::<TaskView>::empty());
        assert(parse_task_list(s@, j0, n) == (match parse_task_list(s@, pos as int, rem) {
            None => None::<(Seq<TaskView>, int)>,
            Some((ts, k)) => Some((task_views(tasks@) + ts, k)),
        }));
    }
    while rem > 0
        invariant
            parse_nat(s@, 0) == Some((n, j0)),
            len == s@.len(),
            parse_task_list(s@, j0, n) == (match parse_task_list(s@, pos as int, rem) {
                None => None::<(Seq<TaskView>, int)>,
                Some((ts, k)) => Some((task_views(tasks@) + ts, k)),
            }),
        decreases rem,
    {
        match parse_task_exec(s, pos) {
            None => {
                proof {
                    assert(parse_task_list(s@, pos as int, rem) is None);
                }
                return None;
            },
            Some((t, p2)) => {
                let ghost prev = task_views(tasks@);
                proof {
                    lemma_task_views_push_persist(tasks@, t);
                }
                tasks.push(t);
                proof {
                    assert(parse_task(s@, pos as int) matches Some(q) && q.0 == t@ && q.1
                        == p2 as int);
                    match parse_task_list(s@, p2 as int, (rem - 1) as u64) {
                        None => {},
                        Some((ts2, k2)) => {
                            assert(prev + (seq![t@] + ts2) =~= prev.push(t@) + ts2);
                        },
                    }
                }
                pos = p2;
                rem = rem - 1;
            },
        }
    }
    proof {
        assert(parse_task_list(s@, pos as int, 0) == Some((Seq::<TaskView>::empty(), pos as int)));
        assert(task_views(tasks@) + Seq::<TaskView>::empty() =~= task_views(tasks@));
        assert(parse_task_list(s@, j0, n) == Some((task_views(tasks@), pos as int)));
    }
    if pos != len {
        return None;
    }
    // validation: well-formed tasks and unique ids
    let mut a: usize = 0;
    proof {
        assert(task_views(tasks@).len() == tasks@.len());
        assert(ids_of(task_views(tasks@)).len() == tasks@.len());
    }
    while a < tasks.len()
        invariant
            0 <= a <= tasks@.len(),
            task_views(tasks@).len() == tasks@.len(),
            ids_of(task_views(tasks@)).len() == tasks@.len(),
            parse_task_list(s@, j0, n) == Some((task_views(tasks@), pos as int)),
            pos as int == s@.len(),
            parse_nat(s@, 0) == Some((n, j0)),
            forall|x: int| 0 <= x < a ==> (#[trigger] task_views(tasks@)[x]).wf(),
            forall|x: int, y: int|
                0 <= x < y < a ==> ids_of(task_views(tasks@))[x] != ids_of(task_views(tasks@))[y],
        decreases tasks@.len() - a,
    {
        proof {
            assert(task_views(tasks@)[a as int] == tasks@[a as int]@);
        }
        if tasks[a].description.as_str().is_empty() {
            proof {
                assert(!task_views(tasks@)[a as int].wf());
                assert(!valid_tasks(task_views(tasks@)));
            }
            return None;
        }
        if tasks[a].total_duration < 0 {
            proof {
                assert(!task_views(tasks@)[a as int].wf());
                assert(!valid_tasks(task_views(tasks@)));
            }
            return None;
        }
        if tasks[a].start_time.is_some() && tasks[a].is_paused {
            proof {
                assert(!task_views(tasks@)[a as int].wf());
                assert(!valid_tasks(task_views(tasks@)));
            }
            return None;
        }
        let mut b: usize = 0;
        while b < a
            invariant
                0 <= b <= a < tasks@.len(),
                task_views(tasks@).len() == tasks@.len(),
                ids_of(task_views(tasks@)).len() == tasks@.len(),
                parse_task_list(s@, j0, n) == Some((task_views(tasks@), pos as int)),
                pos as int == s@.len(),
                parse_nat(s@, 0) == Some((n, j0)),
                forall|y: int|
                    0 <= y < b ==> ids_of(task_views(tasks@))[y] != ids_of(task_views(tasks@))[
                        a as int
                    ],
            decreases a - b,
        {
            proof {
                assert(ids_of(task_views(tasks@))[b as int] == task_views(tasks@)[b as int].id);
                assert(task_views(tasks@)[b as int] == tasks@[b as int]@);
                assert(ids_of(task_views(tasks@))[a as int] == task_views(tasks@)[a as int].id);
                assert(task_views(tasks@)[a as int] == tasks@[a as int]@);
            }
            if tasks[b].id == tasks[a].id {
                proof {
                    assert(ids_of(task_views(tasks@))[b as int] == ids_of(task_views(tasks@))[
                        a as int
                    ]);
                    assert(!ids_of(task_views(tasks@)).no_duplicates());
                    assert(!valid_tasks(task_views(tasks@)));
                }
                return None;
            }
            b = b + 1;
        }
        proof {
            assert(task_views(tasks@)[a as int].wf());
        }
        a = a + 1;
    }
    let store = TaskStore { tasks };
    proof {
        assert(store.views() == task_views(store.tasks@));
        assert(forall|x: int| 0 <= x < store.views().len() ==> (#[trigger] store.views()[x]).wf());
        assert(store.ids().no_duplicates());
        assert(valid_tasks(store.views()));
        assert(spec_decode_tasks(s@) == Some(store.views()));
    }
    Some(store)
}

/// Pushing a task appends its view; shared by the decoder's loop.
proof fn lemma_task_views_push_persist(ts: Seq<Task>, t: Task)
    ensures
        task_views(ts).len() == ts.len(),
        task_views(ts.push(t)) == task_views(ts).push(t@),
{
    assert(task_views(ts).len() == ts.len());
    assert(task_views(ts.push(t)).len() == ts.len() + 1);
    assert forall|k: int|
        0 <= k < ts.len() + 1 implies task_views(ts.push(t))[k] == task_views(ts).push(t@)[k] by {
        if k < ts.len() {
            assert(task_views(ts.push(t))[k] == ts[k]@);
            assert(task_views(ts)[k] == ts[k]@);
        }
    }
    assert(task_views(ts.push(t)) =~= task_views(ts).push(t@));
}

/// Decodes a string-list snapshot.
pub fn decode_strings(s: &str) -> (r: Option<Vec<String>>)
    ensures
        match r {
            Some(v) => spec_decode_strs(s@) == Some(views(v@)),
            None => spec_decode_strs(s@) is None,
        },
{
    let len = s.unicode_len();
    let (n, start) = match parse_nat_exec(s, 0) {
        None => {
            return None;
        },
        Some(p) => p,
    };
    let ghost j0 = start as int;
    let mut items: Vec<String> = Vec::new();
    let mut pos: usize = start;
    let mut rem: u64 = n;
    proof {
        assert(views(items@) =~= Seq::<Seq<char>>::empty());
        assert(parse_str_list(s@, j0, n) == (match parse_str_list(s@, pos as int, rem) {
            None => None::<(Seq<Seq<char>>, int)>,
            Some((ss, k)) => Some((views(items@) + ss, k)),
        }));
    }
    while rem > 0
        invariant
            parse_nat(s@, 0) == Some((n, j0)),
            len == s@.len(),
            parse_str_list(s@, j0, n) == (match parse_str_list(s@, pos as int, rem) {
                None => None::<(Seq<Seq<char>>, int)>,
                Some((ss, k)) => Some((views(items@) + ss, k)),
            }),
        decreases rem,
    {
        match parse_str_exec(s, pos) {
            None => {
                proof {
                    assert(parse_str_list(s@, pos as int, rem) is None);
                }
                return None;
            },
            Some((x, p2)) => {
                let ghost prev = views(items@);
                proof {
                    lemma_views_push(items@, x);
                }
                let ghost xv = x@;
                items.push(x);
                proof {
                    assert(parse_str(s@, pos as int) matches Some(q) && q.0 == xv);
                    match parse_str_list(s@, p2 as int, (rem - 1) as u64) {
                        None => {},
                        Some((ss2, k2)) => {
                            assert(prev + (seq![xv] + ss2) =~= prev.push(xv) + ss2);
                        },
                    }
                }
                pos = p2;
                rem = rem - 1;
            },
        }
    }
    proof {
        assert(parse_str_list(s@, pos as int, 0) == Some((Seq::<Seq<char>>::empty(), pos as int)));
        assert(views(items@) + Seq::<Seq<char>>::empty() =~= views(items@));
        assert(parse_str_list(s@, j0, n) == Some((views(items@), pos as int)));
    }
    if pos != len {
        return None;
    }
    Some(items)
}

} // verus!
