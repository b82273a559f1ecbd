//! The persistence format: a store is kept as a canonical, pretty-printed
//! JSON mapping from decimal id to record, ids ascending, two-space
//! indent, record fields in a fixed order. The parser accepts exactly the
//! canonical form, so loading what was serialized restores the store.

use vstd::prelude::*;
use crate::digits::{dec_digits, dec_int, dec_val, digit_val, is_digit, lemma_dec_digits_shape,
    lemma_dec_val_of_digits, lemma_dec_val_prefix, u64_to_string, i64_to_string};
use crate::task::{Task, TaskV, KindV, task_wf};
use crate::text::{spec_join, join_with};

verus! {

pub open spec fn hex_digit(d: nat) -> char
    recommends
        d < 16,
{
    if d == 0 {
        '0'
    } else if d == 1 {
        '1'
    } else if d == 2 {
        '2'
    } else if d == 3 {
        '3'
    } else if d == 4 {
        '4'
    } else if d == 5 {
        '5'
    } else if d == 6 {
        '6'
    } else if d == 7 {
        '7'
    } else if d == 8 {
        '8'
    } else if d == 9 {
        '9'
    } else if d == 10 {
        'a'
    } else if d == 11 {
        'b'
    } else if d == 12 {
        'c'
    } else if d == 13 {
        'd'
    } else if d == 14 {
        'e'
    } else {
        'f'
    }
}

/// One character in a quoted string: quotes and backslashes take an
/// escape, control characters take a four-digit escape, everything else
/// stands as it is.
pub open spec fn esc_char(c: char) -> Seq<char> {
    if c == '"' {
        seq!['\\', '"']
    } else if c == '\\' {
        seq!['\\', '\\']
    } else if (c as u32) < 32 {
        seq!['\\', 'u', '0', '0', hex_digit((c as u32 / 16) as nat), hex_digit(
            (c as u32 % 16) as nat,
        )]
    } else {
        seq![c]
    }
}

pub open spec fn esc(s: Seq<char>) -> Seq<char>
    decreases s.len(),
{
    if s.len() == 0 {
        Seq::empty()
    } else {
        esc_char(s[0]) + esc(s.drop_first())
    }
}

pub proof fn lemma_esc_concat(a: Seq<char>, b: Seq<char>)
    ensures
        esc(a + b) == esc(a) + esc(b),
    decreases a.len(),
{
    if a.len() == 0 {
        assert(a + b =~= b);
        assert(esc(a) + esc(b) =~= esc(b));
    } else {
        assert((a + b).drop_first() =~= a.drop_first() + b);
        lemma_esc_concat(a.drop_first(), b);
        assert((a + b)[0] == a[0]);
        assert(esc(a + b) == esc_char(a[0]) + (esc(a.drop_first()) + esc(b)));
        assert(esc_char(a[0]) + (esc(a.drop_first()) + esc(b)) =~= (esc_char(a[0]) + esc(
            a.drop_first(),
        )) + esc(b));
    }
}

pub open spec fn ser_string(s: Seq<char>) -> Seq<char> {
    seq!['"'] + esc(s) + seq!['"']
}

pub open spec fn ser_bool(b: bool) -> Seq<char> {
    if b {
        "true"@
    } else {
        "false"@
    }
}

/// The board list, one quoted name per line.
pub open spec fn ser_boards(bs: Seq<Seq<char>>) -> Seq<char> {
    "[\n"@ + spec_join(bs.map_values(|b: Seq<char>| "      "@ + ser_string(b)), ",\n"@)
        + "\n    ]"@
}

/// One record, fields in fixed order at four-space indent.
pub open spec fn ser_task(t: TaskV) -> Seq<char> {
    "{\n    \"_id\": "@ + dec_digits(t.id as nat) + ",\n    \"_date\": "@ + ser_string(t.date)
        + ",\n    \"_timestamp\": "@ + dec_int(t.timestamp as int) + ",\n    \"description\": "@
        + ser_string(t.description) + ",\n    \"isStarred\": "@ + ser_bool(t.starred)
        + ",\n    \"boards\": "@ + ser_boards(t.boards) + ",\n    \"_isTask\": "@ + ser_bool(
        !(t.kind is Note),
    ) + ",\n    \"isComplete\": "@ + (match t.kind {
        KindV::Todo { complete, .. } => ser_bool(complete),
        KindV::Note => "null"@,
    }) + ",\n    \"inProgress\": "@ + (match t.kind {
        KindV::Todo { in_progress, .. } => ser_bool(in_progress),
        KindV::Note => "null"@,
    }) + ",\n    \"priority\": "@ + (match t.kind {
        KindV::Todo { priority, .. } => dec_digits(priority as nat),
        KindV::Note => "null"@,
    }) + "\n  }"@
}

/// One store entry: the decimal id as key, then the record.
pub open spec fn ser_entry(t: TaskV) -> Seq<char> {
    "  \""@ + dec_digits(t.id as nat) + "\": "@ + ser_task(t)
}

/// The whole store: entries in order, or the empty mapping.
pub open spec fn ser_store(s: Seq<TaskV>) -> Seq<char> {
    if s.len() == 0 {
        "{}"@
    } else {
        "{\n"@ + spec_join(s.map_values(|t: TaskV| ser_entry(t)), ",\n"@) + "\n}"@
    }
}

fn hex_str(d: u64) -> (r: &'static str)
    requires
        d < 16,
    ensures
        r@ == seq![hex_digit(d as nat)],
{
    proof {
        reveal_strlit("0");
        reveal_strlit("1");
        reveal_strlit("2");
        reveal_strlit("3");
        reveal_strlit("4");
        reveal_strlit("5");
        reveal_strlit("6");
        reveal_strlit("7");
        reveal_strlit("8");
        reveal_strlit("9");
        reveal_strlit("a");
        reveal_strlit("b");
        reveal_strlit("c");
        reveal_strlit("d");
        reveal_strlit("e");
        reveal_strlit("f");
    }
    let r = match d {
        0 => "0",
        1 => "1",
        2 => "2",
        3 => "3",
        4 => "4",
        5 => "5",
        6 => "6",
        7 => "7",
        8 => "8",
        9 => "9",
        10 => "a",
        11 => "b",
        12 => "c",
        13 => "d",
        14 => "e",
        _ => "f",
    };
    proof {
        assert(r@ =~= seq![hex_digit(d as nat)]);
    }
    r
}

/// Escapes a string's characters for the quoted form.
fn esc_exec(s: &str) -> (r: String)
    ensures
        r@ == esc(s@),
{
    proof {
        reveal_strlit("\\\"");
        reveal_strlit("\\\\");
        reveal_strlit("\\u00");
    }
    let n = s.unicode_len();
    let mut r = String::new();
    let mut i: usize = 0;
    while i < n
        invariant
            i <= n,
            n == s@.len(),
            r@ == esc(s@.take(i as int)),
        decreases n - i,
    {
        proof {
            reveal_strlit("\\\"");
            reveal_strlit("\\\\");
            reveal_strlit("\\u00");
        }
        let c = s.get_char(i);
        proof {
            assert(s@.take(i + 1) =~= s@.take(i as int) + seq![s@[i as int]]);
            lemma_esc_concat(s@.take(i as int), seq![s@[i as int]]);
            assert(seq![s@[i as int]].drop_first() =~= Seq::<char>::empty());
            assert(esc(Seq::<char>::empty()) =~= Seq::<char>::empty());
            assert(esc(seq![s@[i as int]]) == esc_char(seq![s@[i as int]][0]) + esc(
                seq![s@[i as int]].drop_first(),
            ));
            assert(esc(seq![s@[i as int]]) =~= esc_char(s@[i as int]));
        }
        if c == '"' {
            r.append("\\\"");
            proof {
                assert(r@ =~= esc(s@.take(i + 1)));
            }
        } else if c == '\\' {
            r.append("\\\\");
            proof {
                assert(r@ =~= esc(s@.take(i + 1)));
            }
        } else if (c as u32) < 32 {
            let cu = c as u32;
            r.append("\\u00");
            r.append(hex_str((cu / 16) as u64));
            r.append(hex_str((cu % 16) as u64));
            proof {
                assert(r@ =~= esc(s@.take(i + 1)));
            }
        } else {
            let piece = s.substring_char(i, i + 1);
            proof {
                assert(piece@ =~= seq![s@[i as int]]);
            }
            r.append(piece);
            proof {
                assert(r@ =~= esc(s@.take(i + 1)));
            }
        }
        i += 1;
    }
    proof {
        assert(s@.take(n as int) =~= s@);
    }
    r
}

/// Quotes a string.
pub(crate) fn ser_string_exec(s: &str) -> (r: String)
    ensures
        r@ == ser_string(s@),
{
    proof {
        reveal_strlit("\"");
    }
    let mut r = String::from_str("\"");
    let body = esc_exec(s);
    r.append(body.as_str());
    r.append("\"");
    proof {
        assert(r@ =~= ser_string(s@));
    }
    r
}

/// Renders one record.
fn ser_task_exec(t: &Task) -> (r: String)
    ensures
        r@ == ser_task(t@),
{
    let mut r = String::from_str("{\n    \"_id\": ");
    let id_s = u64_to_string(t.get_id());
    r.append(id_s.as_str());
    r.append(",\n    \"_date\": ");
    let date_s = ser_string_exec(t.get_date().as_str());
    r.append(date_s.as_str());
    r.append(",\n    \"_timestamp\": ");
    let ts_s = i64_to_string(t.get_timestamp());
    r.append(ts_s.as_str());
    r.append(",\n    \"description\": ");
    let desc_s = ser_string_exec(t.get_description().as_str());
    r.append(desc_s.as_str());
    r.append(",\n    \"isStarred\": ");
    r.append(if t.is_starred() {
        "true"
    } else {
        "false"
    });
    r.append(",\n    \"boards\": ");
    let boards = t.get_boards();
    let ghost bsv = boards@.map_values(|b: String| b@);
    let mut lines: Vec<String> = Vec::new();
    let mut i: usize = 0;
    while i < boards.len()
        invariant
            i <= boards.len(),
            bsv == boards@.map_values(|b: String| b@),
            bsv.len() == boards@.len(),
            forall|j: int| 0 <= j < bsv.len() ==> bsv[j] == #[trigger] boards@[j]@,
            lines@.len() == i,
            forall|j: int| 0 <= j < i ==> #[trigger] lines@[j]@ == "      "@ + ser_string(bsv[j]),
        decreases boards.len() - i,
    {
        let mut line = String::from_str("      ");
        let q = ser_string_exec(boards[i].as_str());
        line.append(q.as_str());
        lines.push(line);
        i += 1;
    }
    let joined = join_with(&lines, ",\n");
    proof {
        assert(lines@.map_values(|l: String| l@) =~= bsv.map_values(
            |b: Seq<char>| "      "@ + ser_string(b),
        ));
    }
    r.append("[\n");
    r.append(joined.as_str());
    r.append("\n    ]");
    r.append(",\n    \"_isTask\": ");
    r.append(if t.is_note() {
        "false"
    } else {
        "true"
    });
    r.append(",\n    \"isComplete\": ");
    if t.is_note() {
        r.append("null");
    } else {
        r.append(if t.is_complete() {
            "true"
        } else {
            "false"
        });
    }
    r.append(",\n    \"inProgress\": ");
    if t.is_note() {
        r.append("null");
    } else {
        r.append(if t.is_in_progress() {
            "true"
        } else {
            "false"
        });
    }
    r.append(",\n    \"priority\": ");
    match t.get_priority() {
        Some(p) => {
            let p_s = u64_to_string(p as u64);
            r.append(p_s.as_str());
        },
        None => {
            r.append("null");
        },
    }
    r.append("\n  }");
    proof {
        assert(r@ =~= ser_task(t@));
    }
    r
}

// ---------------------------------------------------------------------
// The parser: a deterministic reading of the canonical form. Each
// function consumes from a position and yields the value with the
// position after it, or nothing when the text is not canonical.
// ---------------------------------------------------------------------

pub open spec fn p_lit(s: Seq<char>, i: int, lit: Seq<char>) -> Option<int> {
    if 0 <= i && i + lit.len() <= s.len() && s.subrange(i, i + lit.len()) == lit {
        Some(i + lit.len())
    } else {
        None
    }
}

pub open spec fn is_hex(c: char) -> bool {
    is_digit(c) || (97 <= (c as u32) && (c as u32) <= 102)
}

pub open spec fn hex_val(c: char) -> nat
    recommends
        is_hex(c),
{
    if is_digit(c) {
        digit_val(c)
    } else {
        (((c as u32) - 87) as nat) % 16
    }
}

pub open spec fn p_cons(c: char, r: Option<(Seq<char>, int)>) -> Option<(Seq<char>, int)> {
    match r {
        Some((v, j)) => Some((seq![c] + v, j)),
        None => None,
    }
}

/// The body of a quoted string, up to and past the closing quote.
pub open spec fn p_str_body(s: Seq<char>, i: int) -> Option<(Seq<char>, int)>
    decreases s.len() - i,
{
    if i < 0 || i >= s.len() {
        None
    } else if s[i] == '"' {
        Some((Seq::empty(), i + 1))
    } else if s[i] == '\\' {
        if i + 1 >= s.len() {
            None
        } else if s[i + 1] == '"' {
            p_cons('"', p_str_body(s, i + 2))
        } else if s[i + 1] == '\\' {
            p_cons('\\', p_str_body(s, i + 2))
        } else if s[i + 1] == 'u' {
            if i + 6 > s.len() {
                None
            } else if s[i + 2] == '0' && s[i + 3] == '0' && is_hex(s[i + 4]) && is_hex(s[i + 5])
                && hex_val(s[i + 4]) * 16 + hex_val(s[i + 5]) < 32 {
                p_cons(
                    (((hex_val(s[i + 4]) * 16 + hex_val(s[i + 5])) as u8) as char),
                    p_str_body(s, i + 6),
                )
            } else {
                None
            }
        } else {
            None
        }
    } else if (s[i] as u32) < 32 {
        None
    } else {
        p_cons(s[i], p_str_body(s, i + 1))
    }
}

pub proof fn lemma_p_str_body_advances(s: Seq<char>, i: int)
    ensures
        p_str_body(s, i) matches Some(r) ==> i < r.1 <= s.len(),
    decreases s.len() - i,
{
    if 0 <= i && i < s.len() {
        lemma_p_str_body_advances(s, i + 1);
        if i + 1 < s.len() {
            lemma_p_str_body_advances(s, i + 2);
        }
        if i + 6 <= s.len() {
            lemma_p_str_body_advances(s, i + 6);
        }
    }
}

/// The first index at or after a position that does not hold a digit.
pub open spec fn digit_run_end(s: Seq<char>, i: int) -> int
    decreases s.len() - i,
{
    if i < 0 || i >= s.len() || !is_digit(s[i]) {
        i
    } else {
        digit_run_end(s, i + 1)
    }
}

pub proof fn lemma_digit_run_end(s: Seq<char>, i: int)
    requires
        0 <= i <= s.len(),
    ensures
        i <= digit_run_end(s, i) <= s.len(),
        forall|k: int| i <= k < digit_run_end(s, i) ==> is_digit(#[trigger] s[k]),
        digit_run_end(s, i) < s.len() ==> !is_digit(s[digit_run_end(s, i)]),
    decreases s.len() - i,
{
    if i < s.len() && is_digit(s[i]) {
        lemma_digit_run_end(s, i + 1);
    }
}

/// An unsigned number in canonical decimal form.
pub open spec fn p_u64(s: Seq<char>, i: int) -> Option<(u64, int)> {
    let j = digit_run_end(s, i);
    if i < 0 || j == i {
        None
    } else {
        let run = s.subrange(i, j);
        if (run[0] == '0' && j - i > 1) || dec_val(run) > u64::MAX {
            None
        } else {
            Some((dec_val(run) as u64, j))
        }
    }
}

/// A signed number in canonical decimal form.
pub open spec fn p_i64(s: Seq<char>, i: int) -> Option<(i64, int)> {
    if 0 <= i && i < s.len() && s[i] == '-' {
        match p_u64(s, i + 1) {
            Some((m, j)) => if 1 <= m <= 9223372036854775808u64 {
                Some(((-(m as int)) as i64, j))
            } else {
                None
            },
            None => None,
        }
    } else {
        match p_u64(s, i) {
            Some((m, j)) => if m <= i64::MAX as u64 {
                Some((m as i64, j))
            } else {
                None
            },
            None => None,
        }
    }
}

pub open spec fn p_bool(s: Seq<char>, i: int) -> Option<(bool, int)> {
    if p_lit(s, i, "true"@) is Some {
        Some((true, i + 4))
    } else if p_lit(s, i, "false"@) is Some {
        Some((false, i + 5))
    } else {
        None
    }
}

pub open spec fn p_opt_bool(s: Seq<char>, i: int) -> Option<(Option<bool>, int)> {
    if p_lit(s, i, "null"@) is Some {
        Some((None, i + 4))
    } else {
        match p_bool(s, i) {
            Some((b, j)) => Some((Some(b), j)),
            None => None,
        }
    }
}

pub open spec fn p_prio(s: Seq<char>, i: int) -> Option<(Option<u8>, int)> {
    if p_lit(s, i, "null"@) is Some {
        Some((None, i + 4))
    } else {
        match p_u64(s, i) {
            Some((v, j)) => if 1 <= v <= 3 {
                Some((Some(v as u8), j))
            } else {
                None
            },
            None => None,
        }
    }
}

/// The entries of a board list, one quoted name per line, at least one.
pub open spec fn p_boards_items(s: Seq<char>, i: int) -> Option<(Seq<Seq<char>>, int)>
    decreases s.len() - i,
{
    match p_lit(s, i, "      \""@) {
        Some(j1) => match p_str_body(s, j1) {
            Some((b, j2)) => {
                if p_lit(s, j2, ",\n"@) is Some {
                    let jn = if j2 + 2 > i && j2 + 2 <= s.len() {
                        j2 + 2
                    } else {
                        i + 1
                    };
                    match p_boards_items(s, jn) {
                        Some((bs, j3)) => Some((seq![b] + bs, j3)),
                        None => None,
                    }
                } else {
                    match p_lit(s, j2, "\n    ]"@) {
                        Some(j3) => Some((seq![b], j3)),
                        None => None,
                    }
                }
            },
            None => None,
        },
        None => None,
    }
}

/// One record in canonical form. The task-versus-note split must be
/// consistent: a task has its three fields present, a note has nulls.
pub open spec fn p_task(s: Seq<char>, i: int) -> Option<(TaskV, int)> {
    match p_lit(s, i, "{\n    \"_id\": "@) {
        Some(j1) => match p_u64(s, j1) {
            Some((id, j2)) => match p_lit(s, j2, ",\n    \"_date\": \""@) {
                Some(j3) => match p_str_body(s, j3) {
                    Some((date, j4)) => match p_lit(s, j4, ",\n    \"_timestamp\": "@) {
                        Some(j5) => match p_i64(s, j5) {
                            Some((ts, j6)) => match p_lit(s, j6, ",\n    \"description\": \""@) {
                                Some(j7) => match p_str_body(s, j7) {
                                    Some((desc, j8)) => match p_lit(
                                        s,
                                        j8,
                                        ",\n    \"isStarred\": "@,
                                    ) {
                                        Some(j9) => match p_bool(s, j9) {
                                            Some((starred, j10)) => p_task_rest(
                                                s,
                                                j10,
                                                id,
                                                date,
                                                ts,
                                                desc,
                                                starred,
                                            ),
                                            None => None,
                                        },
                                        None => None,
                                    },
                                    None => None,
                                },
                                None => None,
                            },
                            None => None,
                        },
                        None => None,
                    },
                    None => None,
                },
                None => None,
            },
            None => None,
        },
        None => None,
    }
}

pub open spec fn p_task_rest(
    s: Seq<char>,
    i: int,
    id: u64,
    date: Seq<char>,
    ts: i64,
    desc: Seq<char>,
    starred: bool,
) -> Option<(TaskV, int)> {
    match p_lit(s, i, ",\n    \"boards\": [\n"@) {
        Some(j1) => match p_boards_items(s, j1) {
            Some((boards, j2)) => match p_lit(s, j2, ",\n    \"_isTask\": "@) {
                Some(j3) => match p_bool(s, j3) {
                    Some((is_task, j4)) => match p_lit(s, j4, ",\n    \"isComplete\": "@) {
                        Some(j5) => match p_opt_bool(s, j5) {
                            Some((complete, j6)) => match p_lit(s, j6, ",\n    \"inProgress\": "@) {
                                Some(j7) => match p_opt_bool(s, j7) {
                                    Some((progress, j8)) => match p_lit(
                                        s,
                                        j8,
                                        ",\n    \"priority\": "@,
                                    ) {
                                        Some(j9) => match p_prio(s, j9) {
                                            Some((prio, j10)) => match p_lit(s, j10, "\n  }"@) {
                                                Some(j11) => p_task_build(
                                                    id,
                                                    date,
                                                    ts,
                                                    desc,
                                                    starred,
                                                    boards,
                                                    is_task,
                                                    complete,
                                                    progress,
                                                    prio,
                                                    j11,
                                                ),
                                                None => None,
                                            },
                                            None => None,
                                        },
                                        None => None,
                                    },
                                    None => None,
                                },
                                None => None,
                            },
                            None => None,
                        },
                        None => None,
                    },
                    None => None,
                },
                None => None,
            },
            None => None,
        },
        None => None,
    }
}

pub open spec fn p_task_build(
    id: u64,
    date: Seq<char>,
    ts: i64,
    desc: Seq<char>,
    starred: bool,
    boards: Seq<Seq<char>>,
    is_task: bool,
    complete: Option<bool>,
    progress: Option<bool>,
    prio: Option<u8>,
    j: int,
) -> Option<(TaskV, int)> {
    if is_task {
        match (complete, progress, prio) {
            (Some(c), Some(p), Some(pr)) => Some(
                (
                    TaskV {
                        id,
                        date,
                        timestamp: ts,
                        description: desc,
                        starred,
                        boards,
                        kind: KindV::Todo { complete: c, in_progress: p, priority: pr },
                    },
                    j,
                ),
            ),
            _ => None,
        }
    } else {
        match (complete, progress, prio) {
            (None, None, None) => Some(
                (
                    TaskV {
                        id,
                        date,
                        timestamp: ts,
                        description: desc,
                        starred,
                        boards,
                        kind: KindV::Note,
                    },
                    j,
                ),
            ),
            _ => None,
        }
    }
}

/// One store entry: key, then record; the key must be the record's id.
pub open spec fn p_entry(s: Seq<char>, i: int) -> Option<(TaskV, int)> {
    match p_lit(s, i, "  \""@) {
        Some(j1) => match p_u64(s, j1) {
            Some((key, j2)) => match p_lit(s, j2, "\": "@) {
                Some(j3) => match p_task(s, j3) {
                    Some((t, j4)) => if t.id == key {
                        Some((t, j4))
                    } else {
                        None
                    },
                    None => None,
                },
                None => None,
            },
            None => None,
        },
        None => None,
    }
}

/// The entries of a non-empty store, separated by commas, closed by the
/// final brace.
pub open spec fn p_entries(s: Seq<char>, i: int) -> Option<(Seq<TaskV>, int)>
    decreases s.len() - i,
{
    match p_entry(s, i) {
        Some((t, j)) => {
            if p_lit(s, j, ",\n"@) is Some {
                let jn = if j + 2 > i && j + 2 <= s.len() {
                    j + 2
                } else {
                    i + 1
                };
                match p_entries(s, jn) {
                    Some((ts, j2)) => Some((seq![t] + ts, j2)),
                    None => None,
                }
            } else {
                match p_lit(s, j, "\n}"@) {
                    Some(j2) => Some((seq![t], j2)),
                    None => None,
                }
            }
        },
        None => None,
    }
}

/// A whole store: empty text and the empty mapping give the empty store;
/// otherwise the canonical form, ids strictly ascending, to the very end.
pub open spec fn p_store(s: Seq<char>) -> Option<Seq<TaskV>> {
    if s.len() == 0 || s == "{}"@ {
        Some(Seq::empty())
    } else {
        match p_lit(s, 0, "{\n"@) {
            Some(j) => match p_entries(s, j) {
                Some((es, j2)) => if j2 == s.len() && crate::store::store_sorted(es) {
                    Some(es)
                } else {
                    None
                },
                None => None,
            },
            None => None,
        }
    }
}

pub proof fn lemma_p_u64_bounds(s: Seq<char>, i: int)
    ensures
        p_u64(s, i) matches Some(r) ==> i < r.1 <= s.len(),
{
    if 0 <= i && i <= s.len() {
        lemma_digit_run_end(s, i);
    }
}

pub proof fn lemma_p_i64_bounds(s: Seq<char>, i: int)
    ensures
        p_i64(s, i) matches Some(r) ==> i < r.1 <= s.len(),
{
    lemma_p_u64_bounds(s, i);
    lemma_p_u64_bounds(s, i + 1);
}

pub proof fn lemma_p_boards_items_bounds(s: Seq<char>, i: int)
    ensures
        p_boards_items(s, i) matches Some(r) ==> i < r.1 <= s.len() && r.0.len() >= 1,
    decreases s.len() - i,
{
    match p_lit(s, i, "      \""@) {
        Some(j1) => {
            lemma_p_str_body_advances(s, j1);
            match p_str_body(s, j1) {
                Some((b, j2)) => {
                    if p_lit(s, j2, ",\n"@) is Some {
                        let jn = if j2 + 2 > i && j2 + 2 <= s.len() {
                            j2 + 2
                        } else {
                            i + 1
                        };
                        lemma_p_boards_items_bounds(s, jn);
                    }
                },
                None => {},
            }
        },
        None => {},
    }
}

pub proof fn lemma_p_task_bounds(s: Seq<char>, i: int)
    ensures
        p_task(s, i) matches Some(r) ==> i < r.1 <= s.len() && task_wf(r.0),
{
    match p_lit(s, i, "{\n    \"_id\": "@) {
        Some(j1) => {
            lemma_p_u64_bounds(s, j1);
            match p_u64(s, j1) {
                Some((id, j2)) => match p_lit(s, j2, ",\n    \"_date\": \""@) {
                    Some(j3) => {
                        lemma_p_str_body_advances(s, j3);
                        match p_str_body(s, j3) {
                            Some((date, j4)) => match p_lit(s, j4, ",\n    \"_timestamp\": "@) {
                                Some(j5) => {
                                    lemma_p_i64_bounds(s, j5);
                                    match p_i64(s, j5) {
                                        Some((ts, j6)) => match p_lit(
                                            s,
                                            j6,
                                            ",\n    \"description\": \""@,
                                        ) {
                                            Some(j7) => {
                                                lemma_p_str_body_advances(s, j7);
                                                match p_str_body(s, j7) {
                                                    Some((desc, j8)) => match p_lit(
                                                        s,
                                                        j8,
                                                        ",\n    \"isStarred\": "@,
                                                    ) {
                                                        Some(j9) => match p_bool(s, j9) {
                                                            Some((starred, j10)) => {
                                                                lemma_p_task_rest_bounds(
                                                                    s,
                                                                    j10,
                                                                    id,
                                                                    date,
                                                                    ts,
                                                                    desc,
                                                                    starred,
                                                                );
                                                            },
                                                            None => {},
                                                        },
                                                        None => {},
                                                    },
                                                    None => {},
                                                }
                                            },
                                            None => {},
                                        },
                                        None => {},
                                    }
                                },
                                None => {},
                            },
                            None => {},
                        }
                    },
                    None => {},
                },
                None => {},
            }
        },
        None => {},
    }
}

proof fn lemma_p_task_rest_bounds(
    s: Seq<char>,
    i: int,
    id: u64,
    date: Seq<char>,
    ts: i64,
    desc: Seq<char>,
    starred: bool,
)
    ensures
        p_task_rest(s, i, id, date, ts, desc, starred) matches Some(r) ==> i < r.1 <= s.len()
            && task_wf(r.0),
{
    match p_lit(s, i, ",\n    \"boards\": [\n"@) {
        Some(j1) => {
            lemma_p_boards_items_bounds(s, j1);
            match p_boards_items(s, j1) {
                Some((boards, j2)) => match p_lit(s, j2, ",\n    \"_isTask\": "@) {
                    Some(j3) => match p_bool(s, j3) {
                        Some((is_task, j4)) => match p_lit(s, j4, ",\n    \"isComplete\": "@) {
                            Some(j5) => match p_opt_bool(s, j5) {
                                Some((complete, j6)) => match p_lit(
                                    s,
                                    j6,
                                    ",\n    \"inProgress\": "@,
                                ) {
                                    Some(j7) => match p_opt_bool(s, j7) {
                                        Some((progress, j8)) => match p_lit(
                                            s,
                                            j8,
                                            ",\n    \"priority\": "@,
                                        ) {
                                            Some(j9) => {
                                                lemma_p_u64_bounds(s, j9);
                                            },
                                            None => {},
                                        },
                                        None => {},
                                    },
                                    None => {},
                                },
                                None => {},
                            },
                            None => {},
                        },
                        None => {},
                    },
                    None => {},
                },
                None => {},
            }
        },
        None => {},
    }
}

/// Matches a fixed piece of text at a position.
pub(crate) fn lit_at(s: &str, i: usize, lit: &str) -> (r: Option<usize>)
    ensures
        match r {
            Some(j) => p_lit(s@, i as int, lit@) == Some(j as int),
            None => p_lit(s@, i as int, lit@) is None,
        },
{
    let n = s.unicode_len();
    let m = lit.unicode_len();
    if i > n || m > n - i {
        return None;
    }
    let mut k: usize = 0;
    while k < m
        invariant
            k <= m,
            m == lit@.len(),
            n == s@.len(),
            i + m <= n,
            i + m <= usize::MAX,
            forall|q: int| 0 <= q < k ==> s@[i + q] == lit@[q],
        decreases m - k,
    {
        if s.get_char(i + k) != lit.get_char(k) {
            proof {
                assert(s@.subrange(i as int, i + m as int)[k as int] == s@[i + k]);
                assert(s@.subrange(i as int, i + m as int) != lit@);
            }
            return None;
        }
        k += 1;
    }
    proof {
        assert(s@.subrange(i as int, i + m as int) =~= lit@);
    }
    Some(i + m)
}

/// The literal text of one control character.
fn ctrl_str(v: u64) -> (r: &'static str)
    requires
        v < 32,
    ensures
        r@ == seq![((v as u8) as char)],
{
    proof {
        reveal_strlit("\u{00}");
        reveal_strlit("\u{01}");
        reveal_strlit("\u{02}");
        reveal_strlit("\u{03}");
        reveal_strlit("\u{04}");
        reveal_strlit("\u{05}");
        reveal_strlit("\u{06}");
        reveal_strlit("\u{07}");
        reveal_strlit("\u{08}");
        reveal_strlit("\u{09}");
        reveal_strlit("\u{0a}");
        reveal_strlit("\u{0b}");
        reveal_strlit("\u{0c}");
        reveal_strlit("\u{0d}");
        reveal_strlit("\u{0e}");
        reveal_strlit("\u{0f}");
        reveal_strlit("\u{10}");
        reveal_strlit("\u{11}");
        reveal_strlit("\u{12}");
        reveal_strlit("\u{13}");
        reveal_strlit("\u{14}");
        reveal_strlit("\u{15}");
        reveal_strlit("\u{16}");
        reveal_strlit("\u{17}");
        reveal_strlit("\u{18}");
        reveal_strlit("\u{19}");
        reveal_strlit("\u{1a}");
        reveal_strlit("\u{1b}");
        reveal_strlit("\u{1c}");
        reveal_strlit("\u{1d}");
        reveal_strlit("\u{1e}");
        reveal_strlit("\u{1f}");
    }
    let r = match v {
        0 => "\u{00}",
        1 => "\u{01}",
        2 => "\u{02}",
        3 => "\u{03}",
        4 => "\u{04}",
        5 => "\u{05}",
        6 => "\u{06}",
        7 => "\u{07}",
        8 => "\u{08}",
        9 => "\u{09}",
        10 => "\u{0a}",
        11 => "\u{0b}",
        12 => "\u{0c}",
        13 => "\u{0d}",
        14 => "\u{0e}",
        15 => "\u{0f}",
        16 => "\u{10}",
        17 => "\u{11}",
        18 => "\u{12}",
        19 => "\u{13}",
        20 => "\u{14}",
        21 => "\u{15}",
        22 => "\u{16}",
        23 => "\u{17}",
        24 => "\u{18}",
        25 => "\u{19}",
        26 => "\u{1a}",
        27 => "\u{1b}",
        28 => "\u{1c}",
        29 => "\u{1d}",
        30 => "\u{1e}",
        _ => "\u{1f}",
    };
    proof {
        assert(r@ =~= seq![((v as u8) as char)]);
    }
    r
}

/// Reads a quoted string's body, up to and past the closing quote.
pub(crate) fn str_body_exec(s: &str, i: usize) -> (r: Option<(String, usize)>)
    ensures
        match r {
            Some(p) => p_str_body(s@, i as int) == Some((p.0@, p.1 as int)) && i < p.1 <= s@.len(),
            None => p_str_body(s@, i as int) is None,
        },
{
    proof {
        lemma_p_str_body_advances(s@, i as int);
    }
    let n = s.unicode_len();
    if i >= n {
        return None;
    }
    let mut acc = String::new();
    let mut cur: usize = i;
    loop
        invariant
            i <= cur <= n,
            n == s@.len(),
            match p_str_body(s@, cur as int) {
                Some((v, j)) => p_str_body(s@, i as int) == Some((acc@ + v, j)),
                None => p_str_body(s@, i as int) is None,
            },
        decreases n - cur,
    {
        proof {
            lemma_p_str_body_advances(s@, cur as int);
        }
        if cur >= n {
            return None;
        }
        let c = s.get_char(cur);
        if c == '"' {
            proof {
                assert(p_str_body(s@, cur as int) == Some((Seq::<char>::empty(), cur + 1)));
                assert(acc@ + Seq::<char>::empty() =~= acc@);
            }
            return Some((acc, cur + 1));
        }
        if c == '\\' {
            if cur + 1 >= n {
                return None;
            }
            let c2 = s.get_char(cur + 1);
            if c2 == '"' {
                proof {
                    reveal_strlit("\"");
                    match p_str_body(s@, cur + 2) {
                        Some((v, j)) => {
                            assert(acc@ + (seq!['"'] + v) =~= (acc@ + seq!['"']) + v);
                        },
                        None => {},
                    }
                }
                acc.append("\"");
                cur = cur + 2;
            } else if c2 == '\\' {
                proof {
                    reveal_strlit("\\");
                    match p_str_body(s@, cur + 2) {
                        Some((v, j)) => {
                            assert(acc@ + (seq!['\\'] + v) =~= (acc@ + seq!['\\']) + v);
                        },
                        None => {},
                    }
                }
                acc.append("\\");
                cur = cur + 2;
            } else if c2 == 'u' {
                if n - cur < 6 {
                    return None;
                }
                let c3 = s.get_char(cur + 2);
                let c4 = s.get_char(cur + 3);
                let c5 = s.get_char(cur + 4);
                let c6 = s.get_char(cur + 5);
                if c3 != '0' || c4 != '0' {
                    return None;
                }
                let u5 = c5 as u32;
                let u6 = c6 as u32;
                let h5: u64 = if 48 <= u5 && u5 <= 57 {
                    (u5 - 48) as u64
                } else if 97 <= u5 && u5 <= 102 {
                    (u5 - 87) as u64
                } else {
                    proof {
                        assert(!is_hex(s@[cur + 4]));
                    }
                    return None;
                };
                let h6: u64 = if 48 <= u6 && u6 <= 57 {
                    (u6 - 48) as u64
                } else if 97 <= u6 && u6 <= 102 {
                    (u6 - 87) as u64
                } else {
                    proof {
                        assert(!is_hex(s@[cur + 5]));
                    }
                    return None;
                };
                proof {
                    assert(h5 == hex_val(s@[cur + 4]));
                    assert(h6 == hex_val(s@[cur + 5]));
                }
                let v = h5 * 16 + h6;
                if v >= 32 {
                    return None;
                }
                let piece = ctrl_str(v);
                proof {
                    let ch = ((hex_val(s@[cur + 4]) * 16 + hex_val(s@[cur + 5])) as u8) as char;
                    assert(piece@ == seq![ch]);
                    match p_str_body(s@, cur + 6) {
                        Some((w, j)) => {
                            assert(acc@ + (seq![ch] + w) =~= (acc@ + seq![ch]) + w);
                        },
                        None => {},
                    }
                }
                acc.append(piece);
                cur = cur + 6;
            } else {
                return None;
            }
        } else if (c as u32) < 32 {
            return None;
        } else {
            let piece = s.substring_char(cur, cur + 1);
            proof {
                assert(piece@ =~= seq![s@[cur as int]]);
                match p_str_body(s@, cur + 1) {
                    Some((v, j)) => {
                        assert(acc@ + (seq![s@[cur as int]] + v) =~= (acc@ + seq![s@[cur as int]])
                            + v);
                    },
                    None => {},
                }
            }
            acc.append(piece);
            cur = cur + 1;
        }
    }
}

fn digit_at(s: &str, j: usize) -> (r: bool)
    ensures
        r == (j < s@.len() && is_digit(s@[j as int])),
{
    if j >= s.unicode_len() {
        false
    } else {
        let cu = s.get_char(j) as u32;
        48 <= cu && cu <= 57
    }
}

/// Reads an unsigned number in canonical decimal form.
fn u64_at(s: &str, i: usize) -> (r: Option<(u64, usize)>)
    ensures
        match r {
            Some(p) => p_u64(s@, i as int) == Some((p.0, p.1 as int)) && i < p.1 <= s@.len(),
            None => p_u64(s@, i as int) is None,
        },
{
    let n = s.unicode_len();
    if i >= n {
        proof {
            assert(digit_run_end(s@, i as int) == i);
        }
        return None;
    }
    let mut j: usize = i;
    while digit_at(s, j)
        invariant
            i <= j <= n,
            n == s@.len(),
            forall|q: int| i <= q < j ==> is_digit(#[trigger] s@[q]),
            digit_run_end(s@, i as int) == digit_run_end(s@, j as int),
        decreases n - j,
    {
        j += 1;
    }
    proof {
        assert(digit_run_end(s@, j as int) == j);
        lemma_digit_run_end(s@, i as int);
    }
    if j == i {
        return None;
    }
    let ghost run = s@.subrange(i as int, j as int);
    if j - i > 1 && s.get_char(i) == '0' {
        proof {
            assert(run[0] == s@[i as int]);
        }
        return None;
    }
    let mut k: usize = i;
    let mut val: u64 = 0;
    while k < j
        invariant
            i < j,
            i <= k <= j <= n,
            n == s@.len(),
            digit_run_end(s@, i as int) == j,
            run == s@.subrange(i as int, j as int),
            forall|q: int| i <= q < j ==> is_digit(#[trigger] s@[q]),
            val == dec_val(s@.subrange(i as int, k as int)),
        decreases j - k,
    {
        let c = s.get_char(k);
        let d = ((c as u32) - 48) as u64;
        proof {
            assert(s@.subrange(i as int, k + 1).drop_last() =~= s@.subrange(i as int, k as int));
            assert(s@.subrange(i as int, k + 1).last() == s@[k as int]);
            assert(dec_val(s@.subrange(i as int, k + 1)) == dec_val(
                s@.subrange(i as int, k as int),
            ) * 10 + d);
        }
        if val > (u64::MAX - d) / 10 {
            proof {
                assert(val * 10 + d > u64::MAX) by (nonlinear_arith)
                    requires
                        val > (u64::MAX - d) / 10,
                        d <= 9,
                ;
                lemma_dec_val_prefix(s@.subrange(i as int, k + 1), s@.subrange(k + 1, j as int));
                assert(s@.subrange(i as int, k + 1) + s@.subrange(k + 1, j as int) =~= run);
                assert(dec_val(run) > u64::MAX);
            }
            return None;
        }
        proof {
            assert(val * 10 + d <= u64::MAX) by (nonlinear_arith)
                requires
                    val <= (u64::MAX - d) / 10,
                    d <= 9,
            ;
        }
        val = val * 10 + d;
        k += 1;
    }
    Some((val, j))
}

/// Reads a signed number in canonical decimal form.
fn i64_at(s: &str, i: usize) -> (r: Option<(i64, usize)>)
    ensures
        match r {
            Some(p) => p_i64(s@, i as int) == Some((p.0, p.1 as int)) && i < p.1 <= s@.len(),
            None => p_i64(s@, i as int) is None,
        },
{
    let n = s.unicode_len();
    if i < n && s.get_char(i) == '-' {
        match u64_at(s, i + 1) {
            Some((m, j)) => {
                if m >= 1 && m <= 9223372036854775808u64 {
                    let v: i64 = if m == 9223372036854775808u64 {
                        i64::MIN
                    } else {
                        -(m as i64)
                    };
                    proof {
                        assert(v as int == -(m as int));
                    }
                    Some((v, j))
                } else {
                    None
                }
            },
            None => None,
        }
    } else {
        match u64_at(s, i) {
            Some((m, j)) => {
                if m <= 9223372036854775807u64 {
                    Some((m as i64, j))
                } else {
                    None
                }
            },
            None => None,
        }
    }
}

pub(crate) fn bool_at(s: &str, i: usize) -> (r: Option<(bool, usize)>)
    ensures
        match r {
            Some(p) => p_bool(s@, i as int) == Some((p.0, p.1 as int)) && p.1 <= s@.len(),
            None => p_bool(s@, i as int) is None,
        },
{
    proof {
        reveal_strlit("true");
        reveal_strlit("false");
    }
    match lit_at(s, i, "true") {
        Some(j) => Some((true, j)),
        None => match lit_at(s, i, "false") {
            Some(j) => Some((false, j)),
            None => None,
        },
    }
}

fn opt_bool_at(s: &str, i: usize) -> (r: Option<(Option<bool>, usize)>)
    ensures
        match r {
            Some(p) => p_opt_bool(s@, i as int) == Some((p.0, p.1 as int)) && p.1 <= s@.len(),
            None => p_opt_bool(s@, i as int) is None,
        },
{
    proof {
        reveal_strlit("null");
    }
    match lit_at(s, i, "null") {
        Some(j) => Some((None, j)),
        None => match bool_at(s, i) {
            Some((b, j)) => Some((Some(b), j)),
            None => None,
        },
    }
}

fn prio_at(s: &str, i: usize) -> (r: Option<(Option<u8>, usize)>)
    ensures
        match r {
            Some(p) => p_prio(s@, i as int) == Some((p.0, p.1 as int)) && p.1 <= s@.len(),
            None => p_prio(s@, i as int) is None,
        },
{
    proof {
        reveal_strlit("null");
    }
    match lit_at(s, i, "null") {
        Some(j) => Some((None, j)),
        None => match u64_at(s, i) {
            Some((v, j)) => {
                if 1 <= v && v <= 3 {
                    Some((Some(v as u8), j))
                } else {
                    None
                }
            },
            None => None,
        },
    }
}

/// Renders one store entry.
fn ser_entry_exec(t: &Task) -> (r: String)
    ensures
        r@ == ser_entry(t@),
{
    let mut r = String::from_str("  \"");
    let id_s = u64_to_string(t.get_id());
    r.append(id_s.as_str());
    r.append("\": ");
    let body = ser_task_exec(t);
    r.append(body.as_str());
    proof {
        assert(r@ =~= ser_entry(t@));
    }
    r
}


/// Reads a board list's entries.
fn boards_exec(s: &str, i: usize) -> (r: Option<(Vec<String>, usize)>)
    ensures
        match r {
            Some(p) => p_boards_items(s@, i as int) == Some(
                (p.0@.map_values(|b: String| b@), p.1 as int),
            ) && p.1 <= s@.len(),
            None => p_boards_items(s@, i as int) is None,
        },
{
    proof {
        reveal_strlit(",\n");
    }
    let n = s.unicode_len();
    let mut acc: Vec<String> = Vec::new();
    let mut cur: usize = i;
    proof {
        match p_boards_items(s@, cur as int) {
            Some((bs, j)) => {
                assert(acc@.map_values(|b: String| b@) + bs =~= bs);
            },
            None => {},
        }
    }
    loop
        invariant
            n == s@.len(),
            cur <= n || cur == i,
            match p_boards_items(s@, cur as int) {
                Some((bs, j)) => p_boards_items(s@, i as int) == Some(
                    (acc@.map_values(|b: String| b@) + bs, j),
                ),
                None => p_boards_items(s@, i as int) is None,
            },
        decreases n + 1 - cur,
    {
        proof {
            reveal_strlit(",\n");
        }
        let ghost pre = cur as int;
        let j1 = match lit_at(s, cur, "      \"") {
            Some(j) => j,
            None => {
                return None;
            },
        };
        let (b, j2) = match str_body_exec(s, j1) {
            Some(p) => p,
            None => {
                return None;
            },
        };
        proof {
            lemma_p_str_body_advances(s@, j1 as int);
        }
        match lit_at(s, j2, ",\n") {
            Some(j3) => {
                let ghost accv = acc@.map_values(|b: String| b@);
                acc.push(b);
                proof {
                    assert(j3 == j2 + 2);
                    assert(j2 + 2 > pre && j2 + 2 <= s@.len());
                    assert(acc@.map_values(|b2: String| b2@) =~= accv.push(b@));
                    match p_boards_items(s@, j3 as int) {
                        Some((bs, j)) => {
                            assert(accv + (seq![b@] + bs) =~= accv.push(b@) + bs);
                        },
                        None => {},
                    }
                }
                cur = j3;
            },
            None => {
                match lit_at(s, j2, "\n    ]") {
                    Some(j3) => {
                        let ghost accv = acc@.map_values(|b: String| b@);
                        acc.push(b);
                        proof {
                            assert(acc@.map_values(|b2: String| b2@) =~= accv.push(b@));
                            assert(accv + seq![b@] =~= accv.push(b@));
                        }
                        return Some((acc, j3));
                    },
                    None => {
                        return None;
                    },
                }
            },
        }
    }
}

/// Reads one record.
fn task_exec(s: &str, i: usize) -> (r: Option<(Task, usize)>)
    ensures
        match r {
            Some(p) => p_task(s@, i as int) == Some((p.0@, p.1 as int)) && p.1 <= s@.len(),
            None => p_task(s@, i as int) is None,
        },
{
    let j1 = match lit_at(s, i, "{\n    \"_id\": ") {
        Some(j) => j,
        None => {
            return None;
        },
    };
    let (id, j2) = match u64_at(s, j1) {
        Some(p) => p,
        None => {
            return None;
        },
    };
    let j3 = match lit_at(s, j2, ",\n    \"_date\": \"") {
        Some(j) => j,
        None => {
            return None;
        },
    };
    let (date, j4) = match str_body_exec(s, j3) {
        Some(p) => p,
        None => {
            return None;
        },
    };
    let j5 = match lit_at(s, j4, ",\n    \"_timestamp\": ") {
        Some(j) => j,
        None => {
            return None;
        },
    };
    let (ts, j6) = match i64_at(s, j5) {
        Some(p) => p,
        None => {
            return None;
        },
    };
    let j7 = match lit_at(s, j6, ",\n    \"description\": \"") {
        Some(j) => j,
        None => {
            return None;
        },
    };
    let (desc, j8) = match str_body_exec(s, j7) {
        Some(p) => p,
        None => {
            return None;
        },
    };
    let j9 = match lit_at(s, j8, ",\n    \"isStarred\": ") {
        Some(j) => j,
        None => {
            return None;
        },
    };
    let (starred, j10) = match bool_at(s, j9) {
        Some(p) => p,
        None => {
            return None;
        },
    };
    let k1 = match lit_at(s, j10, ",\n    \"boards\": [\n") {
        Some(j) => j,
        None => {
            return None;
        },
    };
    let (boards, k2) = match boards_exec(s, k1) {
        Some(p) => p,
        None => {
            return None;
        },
    };
    let k3 = match lit_at(s, k2, ",\n    \"_isTask\": ") {
        Some(j) => j,
        None => {
            return None;
        },
    };
    let (is_task, k4) = match bool_at(s, k3) {
        Some(p) => p,
        None => {
            return None;
        },
    };
    let k5 = match lit_at(s, k4, ",\n    \"isComplete\": ") {
        Some(j) => j,
        None => {
            return None;
        },
    };
    let (complete, k6) = match opt_bool_at(s, k5) {
        Some(p) => p,
        None => {
            return None;
        },
    };
    let k7 = match lit_at(s, k6, ",\n    \"inProgress\": ") {
        Some(j) => j,
        None => {
            return None;
        },
    };
    let (progress, k8) = match opt_bool_at(s, k7) {
        Some(p) => p,
        None => {
            return None;
        },
    };
    let k9 = match lit_at(s, k8, ",\n    \"priority\": ") {
        Some(j) => j,
        None => {
            return None;
        },
    };
    let (prio, k10) = match prio_at(s, k9) {
        Some(p) => p,
        None => {
            return None;
        },
    };
    let k11 = match lit_at(s, k10, "\n  }") {
        Some(j) => j,
        None => {
            return None;
        },
    };
    if is_task {
        match (complete, progress, prio) {
            (Some(c), Some(ip), Some(pr)) => {
                let t = Task::from_parts(id, date, ts, desc, starred, boards, true, c, ip, pr);
                Some((t, k11))
            },
            _ => None,
        }
    } else {
        match (complete, progress, prio) {
            (None, None, None) => {
                let t = Task::from_parts(
                    id,
                    date,
                    ts,
                    desc,
                    starred,
                    boards,
                    false,
                    false,
                    false,
                    1,
                );
                Some((t, k11))
            },
            _ => None,
        }
    }
}

/// Reads one store entry.
fn entry_exec(s: &str, i: usize) -> (r: Option<(Task, usize)>)
    ensures
        match r {
            Some(p) => p_entry(s@, i as int) == Some((p.0@, p.1 as int)) && p.1 <= s@.len()
                && task_wf(p.0@),
            None => p_entry(s@, i as int) is None,
        },
{
    let j1 = match lit_at(s, i, "  \"") {
        Some(j) => j,
        None => {
            return None;
        },
    };
    let (key, j2) = match u64_at(s, j1) {
        Some(p) => p,
        None => {
            return None;
        },
    };
    let j3 = match lit_at(s, j2, "\": ") {
        Some(j) => j,
        None => {
            return None;
        },
    };
    let (t, j4) = match task_exec(s, j3) {
        Some(p) => p,
        None => {
            return None;
        },
    };
    if t.get_id() == key {
        proof {
            lemma_p_task_bounds(s@, j3 as int);
        }
        Some((t, j4))
    } else {
        None
    }
}

/// Reads the entries of a non-empty store.
fn entries_exec(s: &str, i: usize) -> (r: Option<(Vec<Task>, usize)>)
    ensures
        match r {
            Some(p) => {
                &&& p_entries(s@, i as int) == Some((p.0@.map_values(|t: Task| t@), p.1 as int))
                &&& p.1 <= s@.len()
                &&& forall|k: int| 0 <= k < p.0@.len() ==> task_wf(#[trigger] p.0@[k]@)
            },
            None => p_entries(s@, i as int) is None,
        },
{
    proof {
        reveal_strlit(",\n");
    }
    let n = s.unicode_len();
    let mut acc: Vec<Task> = Vec::new();
    let mut cur: usize = i;
    proof {
        match p_entries(s@, cur as int) {
            Some((ts, j)) => {
                assert(acc@.map_values(|t: Task| t@) + ts =~= ts);
            },
            None => {},
        }
    }
    loop
        invariant
            n == s@.len(),
            cur <= n || cur == i,
            forall|k: int| 0 <= k < acc@.len() ==> task_wf(#[trigger] acc@[k]@),
            match p_entries(s@, cur as int) {
                Some((ts, j)) => p_entries(s@, i as int) == Some(
                    (acc@.map_values(|t: Task| t@) + ts, j),
                ),
                None => p_entries(s@, i as int) is None,
            },
        decreases n + 1 - cur,
    {
        proof {
            reveal_strlit(",\n");
            lemma_p_task_bounds(s@, cur as int);
        }
        let ghost pre = cur as int;
        let (t, j) = match entry_exec(s, cur) {
            Some(p) => p,
            None => {
                return None;
            },
        };
        proof {
            assert(j as int > pre) by {
                let s2 = s@;
                match p_lit(s2, pre, "  \""@) {
                    Some(w1) => {
                        lemma_p_u64_bounds(s2, w1);
                        match p_u64(s2, w1) {
                            Some((key, w2)) => {
                                lemma_p_task_bounds(s2, w2 + "\": "@.len());
                                match p_lit(s2, w2, "\": "@) {
                                    Some(w3) => {
                                        lemma_p_task_bounds(s2, w3);
                                    },
                                    None => {},
                                }
                            },
                            None => {},
                        }
                    },
                    None => {},
                }
            }
        }
        match lit_at(s, j, ",\n") {
            Some(j2) => {
                let ghost accv = acc@.map_values(|t2: Task| t2@);
                acc.push(t);
                proof {
                    assert(j2 == j + 2);
                    assert(j as int + 2 > pre && j as int + 2 <= s@.len());
                    assert(acc@.map_values(|t2: Task| t2@) =~= accv.push(t@));
                    match p_entries(s@, j2 as int) {
                        Some((ts, w)) => {
                            assert(accv + (seq![t@] + ts) =~= accv.push(t@) + ts);
                        },
                        None => {},
                    }
                }
                cur = j2;
            },
            None => {
                match lit_at(s, j, "\n}") {
                    Some(j2) => {
                        let ghost accv = acc@.map_values(|t2: Task| t2@);
                        acc.push(t);
                        proof {
                            assert(acc@.map_values(|t2: Task| t2@) =~= accv.push(t@));
                            assert(accv + seq![t@] =~= accv.push(t@));
                        }
                        return Some((acc, j2));
                    },
                    None => {
                        return None;
                    },
                }
            },
        }
    }
}

// ---------------------------------------------------------------------
// The round trip: the parser reads back exactly what the serializer
// wrote.
// ---------------------------------------------------------------------

/// A piece of text stands at a position.
pub open spec fn at(s: Seq<char>, i: int, part: Seq<char>) -> bool {
    0 <= i && i + part.len() <= s.len() && s.subrange(i, i + part.len() as int) == part
}

proof fn lemma_at_split(s: Seq<char>, i: int, a: Seq<char>, b: Seq<char>)
    requires
        at(s, i, a + b),
    ensures
        at(s, i, a),
        at(s, i + a.len(), b),
        forall|k: int| 0 <= k < a.len() ==> s[i + k] == #[trigger] a[k],
        forall|k: int| 0 <= k < b.len() ==> s[i + a.len() + k] == #[trigger] b[k],
{
    let w = s.subrange(i, i + (a + b).len() as int);
    assert forall|k: int| 0 <= k < a.len() implies s[i + k] == #[trigger] a[k] by {
        assert(w[k] == (a + b)[k]);
    }
    assert forall|k: int| 0 <= k < b.len() implies s[i + a.len() + k] == #[trigger] b[k] by {
        assert(w[a.len() + k] == (a + b)[a.len() + k]);
    }
    assert(s.subrange(i, i + a.len() as int) =~= a);
    assert(s.subrange(i + a.len(), i + a.len() + b.len() as int) =~= b);
}

proof fn lemma_at_lit(s: Seq<char>, i: int, lit: Seq<char>)
    requires
        at(s, i, lit),
    ensures
        p_lit(s, i, lit) == Some(i + lit.len() as int),
{
}

proof fn lemma_hex_of_digit(d: nat)
    requires
        d < 16,
    ensures
        is_hex(hex_digit(d)),
        hex_val(hex_digit(d)) == d,
{
}

proof fn lemma_p_str_round(s: Seq<char>, i: int, v: Seq<char>)
    requires
        at(s, i, esc(v) + seq!['"']),
    ensures
        p_str_body(s, i) == Some((v, i + esc(v).len() + 1)),
    decreases v.len(),
{
    if v.len() == 0 {
        assert(esc(v) == Seq::<char>::empty());
        assert(s[i] == '"') by {
            assert(s.subrange(i, i + 1)[0] == (esc(v) + seq!['"'])[0]);
        }
        assert(p_str_body(s, i) == Some((Seq::<char>::empty(), i + 1)));
        assert(v =~= Seq::<char>::empty());
    } else {
        let c = v[0];
        let v1 = v.drop_first();
        let e1 = esc(v1);
        assert(esc(v) == esc_char(c) + e1);
        assert((esc_char(c) + e1) + seq!['"'] =~= esc_char(c) + (e1 + seq!['"']));
        lemma_at_split(s, i, esc_char(c), e1 + seq!['"']);
        let m = i + esc_char(c).len() as int;
        lemma_p_str_round(s, m, v1);
        assert(seq![c] + v1 =~= v);
        if c == '"' {
            assert(s[i] == '\\' && s[i + 1] == '"');
            assert(p_str_body(s, i) == p_cons('"', p_str_body(s, i + 2)));
        } else if c == '\\' {
            assert(s[i] == '\\' && s[i + 1] == '\\');
            assert(p_str_body(s, i) == p_cons('\\', p_str_body(s, i + 2)));
        } else if (c as u32) < 32 {
            let cu = c as u32;
            let d1 = (cu / 16) as nat;
            let d2 = (cu % 16) as nat;
            assert(s[i] == '\\' && s[i + 1] == 'u' && s[i + 2] == '0' && s[i + 3] == '0');
            assert(s[i + 4] == hex_digit(d1) && s[i + 5] == hex_digit(d2));
            lemma_hex_of_digit(d1);
            lemma_hex_of_digit(d2);
            assert(hex_val(s[i + 4]) * 16 + hex_val(s[i + 5]) == cu) by {
                vstd::arithmetic::div_mod::lemma_fundamental_div_mod(cu as int, 16);
            }
            let ch = ((hex_val(s[i + 4]) * 16 + hex_val(s[i + 5])) as u8) as char;
            assert(ch == c) by {
                assert((cu as u8) as u32 == cu);
                vstd::utf8::char_u32_cast(c, cu);
                vstd::utf8::char_u32_cast(ch, ch as u32);
            }
            assert(s[i + 4] != '"' && s[i + 5] != '"');
            assert(p_str_body(s, i) == p_cons(c, p_str_body(s, i + 6)));
        } else {
            assert(s[i] == c);
            assert(p_str_body(s, i) == p_cons(c, p_str_body(s, i + 1)));
        }
    }
}

proof fn lemma_dre_exact(s: Seq<char>, i: int, e: int)
    requires
        0 <= i <= e <= s.len(),
        forall|k: int| i <= k < e ==> is_digit(#[trigger] s[k]),
        e == s.len() || !is_digit(s[e]),
    ensures
        digit_run_end(s, i) == e,
    decreases e - i,
{
    if i < e {
        lemma_dre_exact(s, i + 1, e);
    }
}

proof fn lemma_p_u64_round(s: Seq<char>, i: int, n: u64)
    requires
        at(s, i, dec_digits(n as nat)),
        i + dec_digits(n as nat).len() == s.len() || !is_digit(s[i + dec_digits(n as nat).len()]),
    ensures
        p_u64(s, i) == Some((n, i + dec_digits(n as nat).len())),
{
    let dd = dec_digits(n as nat);
    let e = i + dd.len() as int;
    lemma_dec_digits_shape(n as nat);
    lemma_dec_val_of_digits(n as nat);
    assert forall|k: int| i <= k < e implies is_digit(#[trigger] s[k]) by {
        assert(s.subrange(i, e)[k - i] == dd[k - i]);
    }
    lemma_dre_exact(s, i, e);
    let run = s.subrange(i, e);
    assert(run == dd);
    assert(dec_val(run) == n);
    if n == 0 {
        assert(dd.len() == 1);
    } else {
        assert(run[0] != '0');
    }
}

proof fn lemma_p_i64_round(s: Seq<char>, i: int, v: i64)
    requires
        at(s, i, dec_int(v as int)),
        i + dec_int(v as int).len() == s.len() || !is_digit(s[i + dec_int(v as int).len()]),
    ensures
        p_i64(s, i) == Some((v, i + dec_int(v as int).len())),
{
    if v >= 0 {
        assert(dec_int(v as int) == dec_digits(v as nat));
        lemma_p_u64_round(s, i, v as u64);
        lemma_dec_digits_shape(v as nat);
        assert(s[i] == dec_digits(v as nat)[0]) by {
            assert(s.subrange(i, i + dec_int(v as int).len() as int)[0] == dec_int(v as int)[0]);
        }
        assert(is_digit(s[i]));
        assert(s[i] != '-');
    } else {
        let mag = (-(v as int)) as nat;
        assert(dec_int(v as int) == seq!['-'] + dec_digits(mag));
        lemma_at_split(s, i, seq!['-'], dec_digits(mag));
        assert(s[i] == '-') by {
            assert(s[i + 0] == seq!['-'][0]);
        }
        let m64 = mag as u64;
        assert(mag <= 9223372036854775808);
        assert(at(s, i + 1, dec_digits(m64 as nat)));
        lemma_p_u64_round(s, i + 1, m64);
        assert((-(m64 as int)) as i64 == v);
    }
}

proof fn lemma_p_bool_round(s: Seq<char>, i: int, b: bool)
    requires
        at(s, i, ser_bool(b)),
    ensures
        p_bool(s, i) == Some((b, i + ser_bool(b).len())),
        s[i] == 't' || s[i] == 'f',
{
    reveal_strlit("true");
    reveal_strlit("false");
    if b {
        lemma_at_lit(s, i, "true"@);
        assert(s[i] == 't') by {
            assert(s.subrange(i, i + 4)[0] == "true"@[0]);
        }
    } else {
        lemma_at_lit(s, i, "false"@);
        assert(s[i] == 'f') by {
            assert(s.subrange(i, i + 5)[0] == "false"@[0]);
        }
        assert(p_lit(s, i, "true"@) is None) by {
            if p_lit(s, i, "true"@) is Some {
                assert(s.subrange(i, i + 4)[0] == "true"@[0]);
                assert(s[i] == 't');
            }
        }
    }
}

proof fn lemma_at_join(s: Seq<char>, i: int, a: Seq<char>, b: Seq<char>)
    requires
        at(s, i, a),
        at(s, i + a.len(), b),
    ensures
        at(s, i, a + b),
{
    assert forall|k: int| 0 <= k < a.len() + b.len() implies s.subrange(
        i,
        i + a.len() + b.len() as int,
    )[k] == (a + b)[k] by {
        if k < a.len() {
            assert(s.subrange(i, i + a.len() as int)[k] == a[k]);
        } else {
            assert(s.subrange(i + a.len(), i + a.len() + b.len() as int)[k - a.len()] == b[k
                - a.len()]);
        }
    }
    assert(s.subrange(i, i + (a + b).len() as int) =~= a + b);
}

proof fn lemma_join_front(parts: Seq<Seq<char>>, sep: Seq<char>)
    requires
        parts.len() >= 2,
    ensures
        spec_join(parts, sep) == parts[0] + sep + spec_join(parts.drop_first(), sep),
    decreases parts.len(),
{
    if parts.len() == 2 {
        assert(parts.drop_last().len() == 1);
        assert(parts.drop_last()[0] == parts[0]);
        assert(parts.drop_first().len() == 1);
        assert(parts.drop_first()[0] == parts[1]);
        assert(parts.last() == parts[1]);
        assert(spec_join(parts, sep) == spec_join(parts.drop_last(), sep) + sep + parts.last());
        assert(spec_join(parts.drop_last(), sep) == parts[0]);
        assert(spec_join(parts.drop_first(), sep) == parts[1]);
    } else {
        lemma_join_front(parts.drop_last(), sep);
        assert(parts.drop_last()[0] == parts[0]);
        assert(parts.drop_last().drop_first() =~= parts.drop_first().drop_last());
        assert(parts.drop_first().last() == parts.last());
        assert(spec_join(parts, sep) == spec_join(parts.drop_last(), sep) + sep + parts.last());
        assert(spec_join(parts.drop_last(), sep) == parts[0] + sep + spec_join(
            parts.drop_first().drop_last(),
            sep,
        ));
        assert(parts.drop_first().len() >= 2);
        assert(spec_join(parts.drop_first(), sep) == spec_join(
            parts.drop_first().drop_last(),
            sep,
        ) + sep + parts.drop_first().last());
        assert((parts[0] + sep + spec_join(parts.drop_first().drop_last(), sep)) + sep
            + parts.last() =~= parts[0] + sep + (spec_join(parts.drop_first().drop_last(), sep)
            + sep + parts.last()));
    }
}

proof fn lemma_p_opt_bool_round(s: Seq<char>, i: int, o: Option<bool>)
    requires
        at(
            s,
            i,
            match o {
                Some(b) => ser_bool(b),
                None => "null"@,
            },
        ),
    ensures
        p_opt_bool(s, i) == Some(
            (
                o,
                i + (match o {
                    Some(b) => ser_bool(b),
                    None => "null"@,
                }).len(),
            ),
        ),
{
    reveal_strlit("null");
    match o {
        Some(b) => {
            lemma_p_bool_round(s, i, b);
            assert(p_lit(s, i, "null"@) is None) by {
                if p_lit(s, i, "null"@) is Some {
                    assert(s.subrange(i, i + 4)[0] == "null"@[0]);
                    assert(s[i] == 'n');
                }
            }
        },
        None => {
            lemma_at_lit(s, i, "null"@);
        },
    }
}

proof fn lemma_p_prio_round(s: Seq<char>, i: int, o: Option<u8>)
    requires
        o matches Some(p) ==> 1 <= p <= 3,
        at(
            s,
            i,
            match o {
                Some(p) => dec_digits(p as nat),
                None => "null"@,
            },
        ),
        ({
            let e = i + (match o {
                Some(p) => dec_digits(p as nat),
                None => "null"@,
            }).len();
            e == s.len() || !is_digit(s[e])
        }),
    ensures
        p_prio(s, i) == Some(
            (
                o,
                i + (match o {
                    Some(p) => dec_digits(p as nat),
                    None => "null"@,
                }).len(),
            ),
        ),
{
    reveal_strlit("null");
    match o {
        Some(p) => {
            lemma_p_u64_round(s, i, p as u64);
            lemma_dec_digits_shape(p as nat);
            assert(s[i] == dec_digits(p as nat)[0]) by {
                assert(s.subrange(i, i + dec_digits(p as nat).len() as int)[0] == dec_digits(
                    p as nat,
                )[0]);
            }
            assert(is_digit(s[i]));
            assert(p_lit(s, i, "null"@) is None) by {
                if p_lit(s, i, "null"@) is Some {
                    assert(s.subrange(i, i + 4)[0] == "null"@[0]);
                    assert(s[i] == 'n');
                }
            }
        },
        None => {
            lemma_at_lit(s, i, "null"@);
        },
    }
}

proof fn lemma_p_boards_round(s: Seq<char>, i: int, bs: Seq<Seq<char>>)
    requires
        bs.len() >= 1,
        at(
            s,
            i,
            spec_join(bs.map_values(|b: Seq<char>| "      "@ + ser_string(b)), ",\n"@)
                + "\n    ]"@,
        ),
    ensures
        p_boards_items(s, i) == Some(
            (
                bs,
                i + spec_join(
                    bs.map_values(|b: Seq<char>| "      "@ + ser_string(b)),
                    ",\n"@,
                ).len() + "\n    ]"@.len(),
            ),
        ),
    decreases bs.len(),
{
    reveal_strlit("      \"");
    reveal_strlit("      ");
    reveal_strlit(",\n");
    reveal_strlit("\n    ]");
    let lines = bs.map_values(|b: Seq<char>| "      "@ + ser_string(b));
    let b0 = bs[0];
    assert(lines[0] == "      "@ + ser_string(b0));
    assert(lines[0] =~= "      \""@ + (esc(b0) + seq!['"']));
    if bs.len() == 1 {
        assert(spec_join(lines, ",\n"@) == lines[0]);
        assert(lines[0] + "\n    ]"@ =~= "      \""@ + ((esc(b0) + seq!['"']) + "\n    ]"@));
        lemma_at_split(s, i, "      \""@, (esc(b0) + seq!['"']) + "\n    ]"@);
        let m = i + "      \""@.len() as int;
        lemma_at_split(s, m, esc(b0) + seq!['"'], "\n    ]"@);
        lemma_at_lit(s, i, "      \""@);
        lemma_p_str_round(s, m, b0);
        let j2 = m + esc(b0).len() + 1;
        lemma_at_lit(s, j2, "\n    ]"@);
        assert(p_lit(s, j2, ",\n"@) is None) by {
            assert(s[j2] == '\n') by {
                assert(s.subrange(j2, j2 + "\n    ]"@.len() as int)[0] == "\n    ]"@[0]);
            }
            if p_lit(s, j2, ",\n"@) is Some {
                assert(s.subrange(j2, j2 + 2)[0] == ",\n"@[0]);
            }
        }
        assert(seq![b0] =~= bs);
    } else {
        lemma_join_front(lines, ",\n"@);
        let bs1 = bs.drop_first();
        let lines1 = bs1.map_values(|b: Seq<char>| "      "@ + ser_string(b));
        assert(lines.drop_first() =~= lines1);
        let rj = spec_join(lines1, ",\n"@);
        assert(spec_join(lines, ",\n"@) == lines[0] + ",\n"@ + rj);
        assert(((lines[0] + ",\n"@) + rj) + "\n    ]"@ =~= "      \""@ + ((esc(b0) + seq!['"'])
            + (",\n"@ + (rj + "\n    ]"@))));
        lemma_at_split(s, i, "      \""@, (esc(b0) + seq!['"']) + (",\n"@ + (rj + "\n    ]"@)));
        let m = i + "      \""@.len() as int;
        lemma_at_split(s, m, esc(b0) + seq!['"'], ",\n"@ + (rj + "\n    ]"@));
        let j2 = m + (esc(b0) + seq!['"']).len() as int;
        lemma_at_split(s, j2, ",\n"@, rj + "\n    ]"@);
        lemma_at_lit(s, i, "      \""@);
        lemma_p_str_round(s, m, b0);
        lemma_at_lit(s, j2, ",\n"@);
        let jn = j2 + 2;
        lemma_p_boards_round(s, jn, bs1);
        assert(jn > i && jn <= s.len());
        assert(seq![b0] + bs1 =~= bs);
    }
}

#[verifier::rlimit(100)]
proof fn lemma_p_task_round(s: Seq<char>, i: int, t: TaskV)
    requires
        task_wf(t),
        at(s, i, ser_task(t)),
    ensures
        p_task(s, i) == Some((t, i + ser_task(t).len())),
{
    reveal_strlit("{\n    \"_id\": ");
    reveal_strlit(",\n    \"_date\": ");
    reveal_strlit(",\n    \"_date\": \"");
    reveal_strlit(",\n    \"_timestamp\": ");
    reveal_strlit(",\n    \"description\": ");
    reveal_strlit(",\n    \"description\": \"");
    reveal_strlit(",\n    \"isStarred\": ");
    reveal_strlit(",\n    \"boards\": ");
    reveal_strlit(",\n    \"boards\": [\n");
    reveal_strlit("[\n");
    reveal_strlit("\n    ]");
    reveal_strlit(",\n    \"_isTask\": ");
    reveal_strlit(",\n    \"isComplete\": ");
    reveal_strlit(",\n    \"inProgress\": ");
    reveal_strlit(",\n    \"priority\": ");
    reveal_strlit("\n  }");
    let q1 = "{\n    \"_id\": "@;
    let q2 = dec_digits(t.id as nat);
    let q3 = ",\n    \"_date\": "@;
    let q4 = ser_string(t.date);
    let q5 = ",\n    \"_timestamp\": "@;
    let q6 = dec_int(t.timestamp as int);
    let q7 = ",\n    \"description\": "@;
    let q8 = ser_string(t.description);
    let q9 = ",\n    \"isStarred\": "@;
    let q10 = ser_bool(t.starred);
    let q11 = ",\n    \"boards\": "@;
    let q12 = ser_boards(t.boards);
    let q13 = ",\n    \"_isTask\": "@;
    let q14 = ser_bool(!(t.kind is Note));
    let q15 = ",\n    \"isComplete\": "@;
    let q16: Seq<char> = match t.kind {
        KindV::Todo { complete, .. } => ser_bool(complete),
        KindV::Note => "null"@,
    };
    let q17 = ",\n    \"inProgress\": "@;
    let q18: Seq<char> = match t.kind {
        KindV::Todo { in_progress, .. } => ser_bool(in_progress),
        KindV::Note => "null"@,
    };
    let q19 = ",\n    \"priority\": "@;
    let q20: Seq<char> = match t.kind {
        KindV::Todo { priority, .. } => dec_digits(priority as nat),
        KindV::Note => "null"@,
    };
    let q21 = "\n  }"@;
    let w = ser_task(t);
    let x1 = q1;
    let x2 = x1 + q2;
    let x3 = x2 + q3;
    let x4 = x3 + q4;
    let x5 = x4 + q5;
    let x6 = x5 + q6;
    let x7 = x6 + q7;
    let x8 = x7 + q8;
    let x9 = x8 + q9;
    let x10 = x9 + q10;
    let x11 = x10 + q11;
    let x12 = x11 + q12;
    let x13 = x12 + q13;
    let x14 = x13 + q14;
    let x15 = x14 + q15;
    let x16 = x15 + q16;
    let x17 = x16 + q17;
    let x18 = x17 + q18;
    let x19 = x18 + q19;
    let x20 = x19 + q20;
    assert(w == x20 + q21);
    lemma_at_split(s, i, x20, q21);
    lemma_at_split(s, i, x19, q20);
    lemma_at_split(s, i, x18, q19);
    lemma_at_split(s, i, x17, q18);
    lemma_at_split(s, i, x16, q17);
    lemma_at_split(s, i, x15, q16);
    lemma_at_split(s, i, x14, q15);
    lemma_at_split(s, i, x13, q14);
    lemma_at_split(s, i, x12, q13);
    lemma_at_split(s, i, x11, q12);
    lemma_at_split(s, i, x10, q11);
    lemma_at_split(s, i, x9, q10);
    lemma_at_split(s, i, x8, q9);
    lemma_at_split(s, i, x7, q8);
    lemma_at_split(s, i, x6, q7);
    lemma_at_split(s, i, x5, q6);
    lemma_at_split(s, i, x4, q5);
    lemma_at_split(s, i, x3, q4);
    lemma_at_split(s, i, x2, q3);
    lemma_at_split(s, i, x1, q2);
    let o2 = i + x1.len() as int;
    let o3 = i + x2.len() as int;
    let o4 = i + x3.len() as int;
    let o5 = i + x4.len() as int;
    let o6 = i + x5.len() as int;
    let o7 = i + x6.len() as int;
    let o8 = i + x7.len() as int;
    let o9 = i + x8.len() as int;
    let o10 = i + x9.len() as int;
    let o11 = i + x10.len() as int;
    let o12 = i + x11.len() as int;
    let o13 = i + x12.len() as int;
    let o14 = i + x13.len() as int;
    let o15 = i + x14.len() as int;
    let o16 = i + x15.len() as int;
    let o17 = i + x16.len() as int;
    let o18 = i + x17.len() as int;
    let o19 = i + x18.len() as int;
    let o20 = i + x19.len() as int;
    let o21 = i + x20.len() as int;
    let end = i + w.len() as int;
    // _id
    lemma_at_lit(s, i, q1);
    assert(s[o2 + q2.len()] == ',') by {
        assert(s.subrange(o3, o3 + q3.len() as int)[0] == q3[0]);
    }
    lemma_p_u64_round(s, o2, t.id);
    // _date
    assert(q4 =~= seq!['"'] + (esc(t.date) + seq!['"']));
    lemma_at_split(s, o4, seq!['"'], esc(t.date) + seq!['"']);
    lemma_at_join(s, o3, q3, seq!['"']);
    assert(",\n    \"_date\": \""@ =~= q3 + seq!['"']);
    lemma_at_lit(s, o3, q3 + seq!['"']);
    lemma_p_str_round(s, o4 + 1, t.date);
    assert(o4 + 1 + esc(t.date).len() + 1 == o5);
    // _timestamp
    lemma_at_lit(s, o5, q5);
    assert(s[o6 + q6.len()] == ',') by {
        assert(s.subrange(o7, o7 + q7.len() as int)[0] == q7[0]);
    }
    lemma_p_i64_round(s, o6, t.timestamp);
    // description
    assert(q8 =~= seq!['"'] + (esc(t.description) + seq!['"']));
    lemma_at_split(s, o8, seq!['"'], esc(t.description) + seq!['"']);
    lemma_at_join(s, o7, q7, seq!['"']);
    assert(",\n    \"description\": \""@ =~= q7 + seq!['"']);
    lemma_at_lit(s, o7, q7 + seq!['"']);
    lemma_p_str_round(s, o8 + 1, t.description);
    assert(o8 + 1 + esc(t.description).len() + 1 == o9);
    // isStarred
    lemma_at_lit(s, o9, q9);
    lemma_p_bool_round(s, o10, t.starred);
    // boards
    let bj = spec_join(
        t.boards.map_values(|b: Seq<char>| "      "@ + ser_string(b)),
        ",\n"@,
    );
    assert(q12 =~= "[\n"@ + (bj + "\n    ]"@));
    lemma_at_split(s, o12, "[\n"@, bj + "\n    ]"@);
    lemma_at_join(s, o11, q11, "[\n"@);
    assert(",\n    \"boards\": [\n"@ =~= q11 + "[\n"@);
    lemma_at_lit(s, o11, q11 + "[\n"@);
    lemma_p_boards_round(s, o12 + "[\n"@.len(), t.boards);
    assert(o12 + "[\n"@.len() + bj.len() + "\n    ]"@.len() == o13);
    // _isTask
    lemma_at_lit(s, o13, q13);
    lemma_p_bool_round(s, o14, !(t.kind is Note));
    // isComplete
    lemma_at_lit(s, o15, q15);
    let oc: Option<bool> = match t.kind {
        KindV::Todo { complete, .. } => Some(complete),
        KindV::Note => None,
    };
    lemma_p_opt_bool_round(s, o16, oc);
    // inProgress
    lemma_at_lit(s, o17, q17);
    let op: Option<bool> = match t.kind {
        KindV::Todo { in_progress, .. } => Some(in_progress),
        KindV::Note => None,
    };
    lemma_p_opt_bool_round(s, o18, op);
    // priority
    lemma_at_lit(s, o19, q19);
    let opr: Option<u8> = match t.kind {
        KindV::Todo { priority, .. } => Some(priority),
        KindV::Note => None,
    };
    assert(s[o20 + q20.len()] == '\n') by {
        assert(s.subrange(o21, o21 + q21.len() as int)[0] == q21[0]);
    }
    assert(!is_digit(s[o20 + q20.len()]));
    lemma_p_prio_round(s, o20, opr);
    // closing
    lemma_at_lit(s, o21, q21);
    // assemble
    assert(p_task(s, i) == p_task_rest(
        s,
        o11,
        t.id,
        t.date,
        t.timestamp,
        t.description,
        t.starred,
    ));
    match t.kind {
        KindV::Todo { complete, in_progress, priority } => {
            assert(p_task(s, i) == Some((t, end)));
        },
        KindV::Note => {
            assert(p_task(s, i) == Some((t, end)));
        },
    }
}

proof fn lemma_p_entry_round(s: Seq<char>, i: int, t: TaskV)
    requires
        task_wf(t),
        at(s, i, ser_entry(t)),
    ensures
        p_entry(s, i) == Some((t, i + ser_entry(t).len())),
{
    reveal_strlit("  \"");
    reveal_strlit("\": ");
    let q1 = "  \""@;
    let q2 = dec_digits(t.id as nat);
    let q3 = "\": "@;
    let x2 = q1 + q2;
    let x3 = x2 + q3;
    assert(ser_entry(t) == x3 + ser_task(t));
    lemma_at_split(s, i, x3, ser_task(t));
    lemma_at_split(s, i, x2, q3);
    lemma_at_split(s, i, q1, q2);
    let o2 = i + q1.len() as int;
    let o3 = i + x2.len() as int;
    let o4 = i + x3.len() as int;
    lemma_at_lit(s, i, q1);
    assert(s[o2 + q2.len()] == '"') by {
        assert(s.subrange(o3, o3 + q3.len() as int)[0] == q3[0]);
    }
    assert(!is_digit(s[o2 + q2.len()]));
    lemma_p_u64_round(s, o2, t.id);
    lemma_at_lit(s, o3, q3);
    lemma_p_task_round(s, o4, t);
}

#[verifier::rlimit(100)]
proof fn lemma_p_entries_round(s: Seq<char>, i: int, es: Seq<TaskV>)
    requires
        es.len() >= 1,
        forall|k: int| 0 <= k < es.len() ==> task_wf(#[trigger] es[k]),
        at(s, i, spec_join(es.map_values(|t: TaskV| ser_entry(t)), ",\n"@) + "\n}"@),
    ensures
        p_entries(s, i) == Some(
            (es, i + spec_join(es.map_values(|t: TaskV| ser_entry(t)), ",\n"@).len()
                + "\n}"@.len()),
        ),
    decreases es.len(),
{
    reveal_strlit(",\n");
    reveal_strlit("\n}");
    reveal_strlit("  \"");
    let parts = es.map_values(|t: TaskV| ser_entry(t));
    let e0 = es[0];
    assert(parts[0] == ser_entry(e0));
    crate::digits::lemma_dec_digits_shape(e0.id as nat);
    assert(ser_entry(e0).len() > 0);
    if es.len() == 1 {
        assert(spec_join(parts, ",\n"@) == parts[0]);
        lemma_at_split(s, i, ser_entry(e0), "\n}"@);
        lemma_p_entry_round(s, i, e0);
        let j = i + ser_entry(e0).len() as int;
        lemma_at_lit(s, j, "\n}"@);
        assert(p_lit(s, j, ",\n"@) is None) by {
            assert(s[j] == '\n') by {
                assert(s.subrange(j, j + "\n}"@.len() as int)[0] == "\n}"@[0]);
            }
            if p_lit(s, j, ",\n"@) is Some {
                assert(s.subrange(j, j + 2)[0] == ",\n"@[0]);
            }
        }
        assert(seq![e0] =~= es);
    } else {
        lemma_join_front(parts, ",\n"@);
        let es1 = es.drop_first();
        let parts1 = es1.map_values(|t: TaskV| ser_entry(t));
        assert(parts.drop_first() =~= parts1);
        let rj = spec_join(parts1, ",\n"@);
        assert(((parts[0] + ",\n"@) + rj) + "\n}"@ =~= ser_entry(e0) + (",\n"@ + (rj
            + "\n}"@)));
        lemma_at_split(s, i, ser_entry(e0), ",\n"@ + (rj + "\n}"@));
        let j = i + ser_entry(e0).len() as int;
        lemma_at_split(s, j, ",\n"@, rj + "\n}"@);
        lemma_p_entry_round(s, i, e0);
        lemma_at_lit(s, j, ",\n"@);
        let jn = j + 2;
        lemma_p_entries_round(s, jn, es1);
        assert(jn > i && jn <= s.len());
        assert(seq![e0] + es1 =~= es);
    }
}

/// Loading what was serialized restores the store exactly: the parser
/// reads the canonical text back to the same records under the same ids.
pub proof fn lemma_store_round_trip(m: Seq<TaskV>)
    requires
        crate::store::store_wf(m),
    ensures
        p_store(ser_store(m)) == Some(m),
{
    reveal_strlit("{}");
    reveal_strlit("{\n");
    reveal_strlit("\n}");
    let w = ser_store(m);
    if m.len() == 0 {
        assert(w == "{}"@);
        assert(w.len() == 2);
    } else {
        let parts = m.map_values(|t: TaskV| ser_entry(t));
        let j = spec_join(parts, ",\n"@);
        assert(w == ("{\n"@ + j) + "\n}"@);
        assert(at(w, 0, w)) by {
            assert(w.subrange(0, w.len() as int) =~= w);
        }
        lemma_at_split(w, 0, "{\n"@ + j, "\n}"@);
        lemma_at_split(w, 0, "{\n"@, j);
        lemma_at_join(w, "{\n"@.len() as int, j, "\n}"@);
        lemma_at_lit(w, 0, "{\n"@);
        lemma_p_entries_round(w, 2, m);
        assert(w.len() != 0);
        assert(w != "{}"@) by {
            assert(w[1] == '\n') by {
                assert(w.subrange(0, 2)[1] == "{\n"@[1]);
            }
            if w == "{}"@ {
                assert(w[1] == '}');
            }
        }
        assert(2 + j.len() + "\n}"@.len() == w.len());
        assert(p_entries(w, 2) == Some((m, w.len() as int)));
    }
}

/// The failure a malformed persisted store reports.
#[derive(Debug)]
pub struct ParseError;

proof fn lemma_chain_sorted(es: Seq<TaskV>, i: int, j: int)
    requires
        forall|k: int| 0 <= k < es.len() - 1 ==> (#[trigger] es[k]).id < es[k + 1].id,
        0 <= i < j < es.len(),
    ensures
        es[i].id < es[j].id,
    decreases j - i,
{
    if j > i + 1 {
        lemma_chain_sorted(es, i, j - 1);
        assert(es[j - 1].id < es[j].id);
    }
}

proof fn lemma_adjacent_sorted(es: Seq<TaskV>)
    requires
        forall|k: int| 0 <= k < es.len() - 1 ==> (#[trigger] es[k]).id < es[k + 1].id,
    ensures
        crate::store::store_sorted(es),
{
    assert forall|i: int, j: int| 0 <= i < j < es.len() implies es[i].id < es[j].id by {
        lemma_chain_sorted(es, i, j);
    }
}

impl crate::store::TaskList {
    /// Loads a store from its persisted text: empty input and the empty
    /// mapping give the empty store, anything not in the canonical form
    /// is refused.
    pub fn new(task_json: String) -> (r: Result<crate::store::TaskList, ParseError>)
        ensures
            match r {
                Ok(t) => t.wf() && p_store(task_json@) == Some(t@),
                Err(_) => p_store(task_json@) is None,
            },
    {
        proof {
            reveal_strlit("{}");
        }
        let s = task_json.as_str();
        let n = s.unicode_len();
        if n == 0 {
            let t = crate::store::TaskList::empty();
            return Ok(t);
        }
        if n == 2 {
            match lit_at(s, 0, "{}") {
                Some(_) => {
                    proof {
                        assert(s@ =~= "{}"@);
                    }
                    let t = crate::store::TaskList::empty();
                    return Ok(t);
                },
                None => {
                    proof {
                        assert(s@ != "{}"@) by {
                            if s@ == "{}"@ {
                                assert(s@.subrange(0, 2) =~= "{}"@);
                            }
                        }
                    }
                },
            }
        }
        proof {
            assert(s@ != "{}"@) by {
                if s@ == "{}"@ {
                    assert(s@.len() == 2);
                }
            }
        }
        let j = match lit_at(s, 0, "{\n") {
            Some(j) => j,
            None => {
                return Err(ParseError);
            },
        };
        let (tasks, j2) = match entries_exec(s, j) {
            Some(p) => p,
            None => {
                return Err(ParseError);
            },
        };
        if j2 != n {
            return Err(ParseError);
        }
        let ghost es = tasks@.map_values(|t: Task| t@);
        proof {
            assert(p_store(task_json@) == (if crate::store::store_sorted(es) {
                Some(es)
            } else {
                None::<Seq<TaskV>>
            }));
        }
        let mut k: usize = 1;
        while k < tasks.len()
            invariant
                1 <= k <= tasks@.len() || tasks@.len() == 0,
                es == tasks@.map_values(|t: Task| t@),
                es.len() == tasks@.len(),
                forall|q: int| 0 <= q < es.len() ==> es[q] == #[trigger] tasks@[q]@,
                forall|q: int| 0 <= q < es.len() ==> task_wf(#[trigger] es[q]),
                forall|q: int| 0 <= q < k - 1 ==> (#[trigger] es[q]).id < es[q + 1].id,
                p_store(task_json@) == (if crate::store::store_sorted(es) {
                    Some(es)
                } else {
                    None::<Seq<TaskV>>
                }),
            decreases tasks.len() - k,
        {
            if tasks[k - 1].get_id() >= tasks[k].get_id() {
                proof {
                    assert(es[k - 1].id >= es[k as int].id);
                    assert(!crate::store::store_sorted(es));
                }
                return Err(ParseError);
            }
            k += 1;
        }
        proof {
            lemma_adjacent_sorted(es);
        }
        let t = crate::store::TaskList::from_vec(tasks);
        proof {
            assert(t.wf());
        }
        Ok(t)
    }

    /// Renders the store in its canonical persisted form.
    pub fn serialize(&self) -> (r: String)
        ensures
            r@ == ser_store(self@),
    {
        let n = self.len();
        if n == 0 {
            return String::from_str("{}");
        }
        let mut entries: Vec<String> = Vec::new();
        let mut i: usize = 0;
        while i < n
            invariant
                i <= n,
                n == self@.len(),
                entries@.len() == i,
                forall|q: int| 0 <= q < i ==> #[trigger] entries@[q]@ == ser_entry(self@[q]),
            decreases n - i,
        {
            let e = ser_entry_exec(self.task_ref(i));
            entries.push(e);
            i += 1;
        }
        proof {
            assert(entries@.map_values(|e: String| e@) =~= self@.map_values(
                |t: TaskV| ser_entry(t),
            ));
        }
        let joined = join_with(&entries, ",\n");
        let mut r = String::from_str("{\n");
        r.append(joined.as_str());
        r.append("\n}");
        proof {
            assert(r@ =~= ser_store(self@));
        }
        r
    }
}

} // verus!
