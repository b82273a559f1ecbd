//! The mutation operations: flag flips, moves between stores, edits,
//! board changes, priorities, and new entries.
//!
//! Batch operations resolve and remove their targets one id at a time, so
//! a failure partway through a batch leaves the store with the earlier
//! ids already taken out. This matches the surrounding design, which
//! treats a batch as a sequence of single steps, and the contracts state
//! the partially mutated store exactly.
//!
//! Board names are stored exactly as the user's marked tokens, marker
//! included, while the default board is the bare name `My Board`; the two
//! spellings never collide, and the report renders each as stored.

use vstd::prelude::*;
use crate::digits::{dec_digits};
use crate::errors::{invalid_priority, invalid_priority_msg, no_id_error, no_id_msg, no_index,
    no_index_msg, too_many_ids_error, too_many_ids_msg};
use crate::store::{TaskList, contains_id, task_at, idx_of, remove_id, store_sorted, store_wf,
    lemma_remove_id, lemma_spec_insert, lemma_spec_insert_wf, is_least_free, least_free,
    spec_insert};
use crate::task::{KindV, Task, TaskFlag, TaskV, is_complete_v, is_note_v, spec_flip, task_wf};
use crate::text::{token_id, parse_id, spec_join, join_with, starts_at, starts_with_at, strip_at,
    strip_at_exec, u8_token_val, parse_u8_token};

verus! {

/// The outcome of resolving and removing a batch of id tokens, one at a
/// time: either every token named a record and the records are out, or
/// the first failing token, with the store as the earlier removals left
/// it.
pub enum BatchOutcome {
    Found { removed: Seq<TaskV>, rest: Seq<TaskV> },
    Missing { bad: Seq<char>, rest: Seq<TaskV> },
}

pub open spec fn remove_batch(s: Seq<TaskV>, ids: Seq<Seq<char>>) -> BatchOutcome
    decreases ids.len(),
{
    if ids.len() == 0 {
        BatchOutcome::Found { removed: Seq::empty(), rest: s }
    } else {
        match token_id(ids[0]) {
            Some(n) => if contains_id(s, n) {
                match remove_batch(remove_id(s, n), ids.drop_first()) {
                    BatchOutcome::Found { removed, rest } => BatchOutcome::Found {
                        removed: seq![task_at(s, n)] + removed,
                        rest,
                    },
                    BatchOutcome::Missing { bad, rest } => BatchOutcome::Missing { bad, rest },
                }
            } else {
                BatchOutcome::Missing { bad: ids[0], rest: s }
            },
            None => BatchOutcome::Missing { bad: ids[0], rest: s },
        }
    }
}

pub open spec fn in_removed(removed: Seq<TaskV>, id: u64) -> bool {
    exists|k: int| 0 <= k < removed.len() && removed[k].id == id
}

/// Prefixes already-removed records onto a later outcome.
pub open spec fn prepend_found(prefix: Seq<TaskV>, b: BatchOutcome) -> BatchOutcome {
    match b {
        BatchOutcome::Found { removed, rest } => BatchOutcome::Found {
            removed: prefix + removed,
            rest,
        },
        BatchOutcome::Missing { bad, rest } => BatchOutcome::Missing { bad, rest },
    }
}

/// What a successful batch removal guarantees: every token named a
/// distinct record of the store, the removed records are exactly those,
/// and the rest is the store without them, order kept.
pub proof fn lemma_remove_batch(s: Seq<TaskV>, ids: Seq<Seq<char>>)
    requires
        store_sorted(s),
    ensures
        match remove_batch(s, ids) {
            BatchOutcome::Found { removed, rest } => {
                &&& store_sorted(rest)
                &&& removed.len() == ids.len()
                &&& forall|k: int| 0 <= k < ids.len() ==> token_id(ids[k]) == Some(
                    (#[trigger] removed[k]).id,
                )
                &&& forall|k: int| 0 <= k < ids.len() ==> contains_id(s, (#[trigger] removed[k]).id)
                    && removed[k] == task_at(s, removed[k].id)
                &&& forall|k1: int, k2: int| 0 <= k1 < k2 < removed.len() ==> (
                #[trigger] removed[k1]).id != (#[trigger] removed[k2]).id
                &&& forall|id: u64| contains_id(rest, id) <==> (contains_id(s, id) && !in_removed(
                    removed,
                    id,
                ))
                &&& forall|id: u64| contains_id(rest, id) ==> task_at(rest, id) == task_at(s, id)
                &&& ((forall|i: int| 0 <= i < s.len() ==> task_wf(#[trigger] s[i])) ==> ((forall|
                    i: int,
                |
                    0 <= i < rest.len() ==> task_wf(#[trigger] rest[i])) && (forall|k: int|
                    0 <= k < removed.len() ==> task_wf(#[trigger] removed[k]))))
            },
            BatchOutcome::Missing { bad, rest } => {
                &&& store_sorted(rest)
                &&& ((forall|i: int| 0 <= i < s.len() ==> task_wf(#[trigger] s[i])) ==> (forall|
                    i: int,
                |
                    0 <= i < rest.len() ==> task_wf(#[trigger] rest[i])))
            },
        },
    decreases ids.len(),
{
    if ids.len() == 0 {
        let removed = Seq::<TaskV>::empty();
        assert(forall|id: u64| !in_removed(removed, id));
    } else {
        match token_id(ids[0]) {
            Some(n) => {
                if contains_id(s, n) {
                    let s2 = remove_id(s, n);
                    lemma_remove_id(s, n);
                    lemma_remove_batch(s2, ids.drop_first());
                    let t0 = task_at(s, n);
                    assert(t0.id == n) by {
                        let q = idx_of(s, n);
                    }
                    match remove_batch(s2, ids.drop_first()) {
                        BatchOutcome::Found { removed: removed2, rest } => {
                            let removed = seq![t0] + removed2;
                            assert(removed[0] == t0);
                            assert forall|k: int| 1 <= k < removed.len() implies removed[k]
                                == removed2[k - 1] by {}
                            assert forall|k: int|
                                0 <= k < removed2.len() implies removed2[k].id != n by {
                                assert(contains_id(s2, removed2[k].id));
                            }
                            assert forall|k: int| 0 <= k < ids.len() implies token_id(ids[k])
                                == Some((#[trigger] removed[k]).id) by {
                                if k >= 1 {
                                    assert(ids.drop_first()[k - 1] == ids[k]);
                                }
                            }
                            assert forall|k: int| 0 <= k < ids.len() implies contains_id(
                                s,
                                (#[trigger] removed[k]).id,
                            ) && removed[k] == task_at(s, removed[k].id) by {
                                if k >= 1 {
                                    assert(removed[k] == removed2[k - 1]);
                                    assert(contains_id(s2, removed2[k - 1].id));
                                    assert(removed2[k - 1].id != n);
                                    assert(task_at(s2, removed2[k - 1].id) == task_at(
                                        s,
                                        removed2[k - 1].id,
                                    ));
                                }
                            }
                            assert forall|id: u64| in_removed(removed, id) <==> (id == n
                                || in_removed(removed2, id)) by {
                                if in_removed(removed, id) {
                                    let k = choose|k: int|
                                        0 <= k < removed.len() && removed[k].id == id;
                                    if k >= 1 {
                                        assert(removed2[k - 1].id == id);
                                    }
                                }
                                if in_removed(removed2, id) {
                                    let k = choose|k: int|
                                        0 <= k < removed2.len() && removed2[k].id == id;
                                    assert(removed[k + 1].id == id);
                                }
                                if id == n {
                                    assert(removed[0].id == id);
                                }
                            }
                        },
                        BatchOutcome::Missing { .. } => {},
                    }
                }
            },
            None => {},
        }
    }
}

/// The ids a flip reports with a given outcome, in the order the batch is
/// worked off: last removed first.
pub open spec fn report_ids(removed: Seq<TaskV>, flag: TaskFlag, want: bool) -> Seq<Seq<char>>
    decreases removed.len(),
{
    if removed.len() == 0 {
        Seq::empty()
    } else {
        let t = removed.last();
        (if spec_flip(t, flag).1 == Some(want) {
            seq![dec_digits(t.id as nat)]
        } else {
            Seq::<Seq<char>>::empty()
        }) + report_ids(removed.drop_last(), flag, want)
    }
}

/// The message a successful flip reports: the ids that ended up on, then
/// the ids that ended up off, with flag-dependent wording; an empty side
/// is left out.
pub open spec fn flip_message(removed: Seq<TaskV>, flag: TaskFlag) -> Seq<char> {
    let som = spec_join(report_ids(removed, flag, true), ", "@);
    let sou = spec_join(report_ids(removed, flag, false), ", "@);
    let output = if report_ids(removed, flag, true).len() > 0 {
        match flag {
            TaskFlag::Begin => " \u{2713} Started task(s): "@ + som + "\n"@,
            TaskFlag::Check => " \u{2713} Checked task(s): "@ + som + "\n"@,
            TaskFlag::Star => " \u{2713} Star task(s): "@ + som + "\n"@,
        }
    } else {
        Seq::<char>::empty()
    };
    if report_ids(removed, flag, false).len() > 0 {
        match flag {
            TaskFlag::Begin => output + "\n \u{2713} Paused task(s) : "@ + sou,
            TaskFlag::Check => output + "\n \u{2713} Unchecked task(s): "@ + sou,
            TaskFlag::Star => output + "\n \u{2713} Unstarred task(s): "@ + sou + "\n"@,
        }
    } else {
        output
    }
}

/// Asking a note to begin or complete reports no id on either side, and
/// the whole message is empty.
pub proof fn lemma_flip_note_reports_nothing(t: TaskV, flag: TaskFlag)
    requires
        is_note_v(t),
        flag is Begin || flag is Check,
    ensures
        report_ids(seq![t], flag, true) == Seq::<Seq<char>>::empty(),
        report_ids(seq![t], flag, false) == Seq::<Seq<char>>::empty(),
        flip_message(seq![t], flag) == Seq::<char>::empty(),
{
    assert(seq![t].drop_last() =~= Seq::<TaskV>::empty());
    assert(seq![t].last() == t);
    assert(spec_flip(t, flag).1 is None);
    assert(report_ids(Seq::<TaskV>::empty(), flag, true) == Seq::<Seq<char>>::empty());
    assert(report_ids(Seq::<TaskV>::empty(), flag, false) == Seq::<Seq<char>>::empty());
    assert(Seq::<Seq<char>>::empty() + Seq::<Seq<char>>::empty() =~= Seq::<Seq<char>>::empty());
    assert(report_ids(seq![t], flag, true) =~= Seq::<Seq<char>>::empty());
    assert(report_ids(seq![t], flag, false) =~= Seq::<Seq<char>>::empty());
    assert(flip_message(seq![t], flag) =~= Seq::<char>::empty());
}

/// The store with every listed record flipped in place.
pub open spec fn flip_all(s: Seq<TaskV>, removed: Seq<TaskV>, flag: TaskFlag) -> Seq<TaskV> {
    s.map_values(
        |t: TaskV|
            if in_removed(removed, t.id) {
                spec_flip(t, flag).0
            } else {
                t
            },
    )
}


/// The id tokens of the completed tasks of a store, in store order: what
/// a move with no explicit ids addresses.
pub open spec fn complete_id_tokens(s: Seq<TaskV>) -> Seq<Seq<char>>
    decreases s.len(),
{
    if s.len() == 0 {
        Seq::empty()
    } else {
        complete_id_tokens(s.drop_last()) + (if is_complete_v(s.last()) {
            seq![dec_digits(s.last().id as nat)]
        } else {
            Seq::<Seq<char>>::empty()
        })
    }
}

/// Moved records entering a destination store, one at a time: each takes
/// the destination's smallest unused id at its turn.
pub open spec fn graft(dest: Seq<TaskV>, moved: Seq<TaskV>) -> Seq<TaskV>
    decreases moved.len(),
{
    if moved.len() == 0 {
        dest
    } else {
        graft(
            spec_insert(dest, (TaskV { id: least_free(dest), ..moved[0] })),
            moved.drop_first(),
        )
    }
}

/// The completed tasks of a store, in order.
pub open spec fn completes(s: Seq<TaskV>) -> Seq<TaskV>
    decreases s.len(),
{
    if s.len() == 0 {
        Seq::empty()
    } else {
        (if is_complete_v(s[0]) {
            seq![s[0]]
        } else {
            Seq::<TaskV>::empty()
        }) + completes(s.drop_first())
    }
}

/// The notes and unfinished tasks of a store, in order.
pub open spec fn incompletes(s: Seq<TaskV>) -> Seq<TaskV>
    decreases s.len(),
{
    if s.len() == 0 {
        Seq::empty()
    } else {
        (if is_complete_v(s[0]) {
            Seq::<TaskV>::empty()
        } else {
            seq![s[0]]
        }) + incompletes(s.drop_first())
    }
}

proof fn lemma_cid_front(s: Seq<TaskV>)
    requires
        s.len() > 0,
    ensures
        complete_id_tokens(s) == (if is_complete_v(s[0]) {
            seq![dec_digits(s[0].id as nat)]
        } else {
            Seq::<Seq<char>>::empty()
        }) + complete_id_tokens(s.drop_first()),
    decreases s.len(),
{
    let c0: Seq<Seq<char>> = if is_complete_v(s[0]) {
        seq![dec_digits(s[0].id as nat)]
    } else {
        Seq::empty()
    };
    if s.len() == 1 {
        assert(s.drop_last() =~= Seq::<TaskV>::empty());
        assert(s.drop_first() =~= Seq::<TaskV>::empty());
        assert(s.last() == s[0]);
        assert(complete_id_tokens(s) =~= c0 + complete_id_tokens(s.drop_first()));
    } else {
        lemma_cid_front(s.drop_last());
        assert(s.drop_last()[0] == s[0]);
        assert(s.drop_last().drop_first() =~= s.drop_first().drop_last());
        assert(s.drop_first().last() == s.last());
        let mid = complete_id_tokens(s.drop_first().drop_last());
        let cl: Seq<Seq<char>> = if is_complete_v(s.last()) {
            seq![dec_digits(s.last().id as nat)]
        } else {
            Seq::empty()
        };
        assert(complete_id_tokens(s) == (c0 + mid) + cl);
        assert(complete_id_tokens(s.drop_first()) == mid + cl);
        assert((c0 + mid) + cl =~= c0 + (mid + cl));
    }
}

proof fn lemma_clear_main(s: Seq<TaskV>, p: Seq<TaskV>)
    requires
        store_wf(p + s),
        forall|i: int| 0 <= i < p.len() ==> !is_complete_v(#[trigger] p[i]),
    ensures
        remove_batch(p + s, complete_id_tokens(s)) == (BatchOutcome::Found {
            removed: completes(s),
            rest: p + incompletes(s),
        }),
    decreases s.len(),
{
    let w = p + s;
    if s.len() == 0 {
        assert(complete_id_tokens(s) == Seq::<Seq<char>>::empty());
        assert(p + incompletes(s) =~= w);
        assert(completes(s) == Seq::<TaskV>::empty());
    } else {
        let t = s[0];
        let s1 = s.drop_first();
        lemma_cid_front(s);
        assert(w[p.len() as int] == t);
        if is_complete_v(t) {
            crate::text::lemma_token_id_of_digits(t.id);
            assert(contains_id(w, t.id));
            assert(idx_of(w, t.id) == p.len()) by {
                let q = idx_of(w, t.id);
                if q != p.len() {
                    assert(w[q].id == w[p.len() as int].id);
                }
            }
            assert(task_at(w, t.id) == t);
            lemma_remove_id(w, t.id);
            assert(remove_id(w, t.id) =~= p + s1) by {
                assert forall|j: int| 0 <= j < w.remove(p.len() as int).len() implies w.remove(
                    p.len() as int,
                )[j] == (p + s1)[j] by {}
            }
            lemma_clear_main(s1, p);
            let toks = complete_id_tokens(s);
            assert(toks[0] == dec_digits(t.id as nat));
            assert(toks.drop_first() =~= complete_id_tokens(s1));
            assert(remove_batch(remove_id(w, t.id), toks.drop_first()) == (BatchOutcome::Found {
                removed: completes(s1),
                rest: p + incompletes(s1),
            }));
            assert(seq![t] + completes(s1) =~= completes(s));
            assert(incompletes(s) =~= incompletes(s1));
            assert(remove_batch(w, toks) == (BatchOutcome::Found {
                removed: completes(s),
                rest: p + incompletes(s),
            }));
        } else {
            assert(complete_id_tokens(s) =~= complete_id_tokens(s1));
            assert(p.push(t) + s1 =~= w);
            assert(forall|i: int|
                0 <= i < p.push(t).len() ==> !is_complete_v(#[trigger] p.push(t)[i]));
            lemma_clear_main(s1, p.push(t));
            assert(completes(s) =~= completes(s1));
            assert(p + incompletes(s) =~= p.push(t) + incompletes(s1));
            assert(remove_batch(w, complete_id_tokens(s)) == (BatchOutcome::Found {
                removed: completes(s),
                rest: p + incompletes(s),
            }));
        }
    }
}

/// A move with no explicit ids resolves and removes exactly the
/// completed tasks of the source, in order, and leaves the notes and
/// unfinished tasks standing, in order.
pub proof fn lemma_clear_moves_exactly_completed(s: Seq<TaskV>)
    requires
        store_wf(s),
    ensures
        remove_batch(s, complete_id_tokens(s)) == (BatchOutcome::Found {
            removed: completes(s),
            rest: incompletes(s),
        }),
{
    assert(Seq::<TaskV>::empty() + s =~= s);
    lemma_clear_main(s, Seq::empty());
    assert(Seq::<TaskV>::empty() + incompletes(s) =~= incompletes(s));
}

proof fn lemma_find_free(s: Seq<TaskV>, k: int)
    requires
        store_sorted(s),
        s.len() <= u64::MAX,
        0 <= k <= s.len(),
        forall|j: int| 0 <= j < k ==> (#[trigger] s[j]).id == j,
    ensures
        exists|n: u64| is_least_free(s, n),
    decreases s.len() - k,
{
    if k == s.len() {
        let n = k as u64;
        assert(!contains_id(s, n)) by {
            if contains_id(s, n) {
                let q = idx_of(s, n);
                assert(s[q].id == q);
            }
        }
        assert forall|m: u64| m < n implies contains_id(s, m) by {
            assert(s[m as int].id == m);
        }
        assert(is_least_free(s, n));
    } else if s[k].id != k as u64 {
        assert(s[k].id > k) by {
            if k > 0 {
                assert(s[k - 1].id == k - 1);
                assert(s[k - 1].id < s[k].id);
            }
        }
        let n = k as u64;
        assert(!contains_id(s, n)) by {
            if contains_id(s, n) {
                let q = idx_of(s, n);
                if q < k {
                    assert(s[q].id == q);
                } else if q > k {
                    assert(s[k].id < s[q].id);
                }
            }
        }
        assert forall|m: u64| m < n implies contains_id(s, m) by {
            assert(s[m as int].id == m);
        }
        assert(is_least_free(s, n));
    } else {
        lemma_find_free(s, k + 1);
    }
}

/// Every moved record enters the destination under a fresh, store-local
/// id: the destination stays well formed and grows by exactly one record
/// per moved record.
pub proof fn lemma_graft_fresh(dest: Seq<TaskV>, moved: Seq<TaskV>)
    requires
        store_wf(dest),
        dest.len() + moved.len() <= u64::MAX,
        forall|k: int| 0 <= k < moved.len() ==> task_wf(#[trigger] moved[k]),
    ensures
        store_wf(graft(dest, moved)),
        graft(dest, moved).len() == dest.len() + moved.len(),
    decreases moved.len(),
{
    if moved.len() > 0 {
        lemma_find_free(dest, 0);
        let n = least_free(dest);
        assert(is_least_free(dest, n)) by {
            let m = choose|m: u64| is_least_free(dest, m);
        }
        let t = TaskV { id: n, ..moved[0] };
        assert(task_wf(t));
        lemma_spec_insert(dest, t);
        lemma_spec_insert_wf(dest, t);
        assert(!contains_id(dest, t.id));
        lemma_graft_fresh(spec_insert(dest, t), moved.drop_first());
    }
}

/// The message a successful move reports: the source-side ids moved.
pub open spec fn move_message(toks: Seq<Seq<char>>, restore: bool) -> Seq<char> {
    (if restore {
        " \u{2713} Deleted item(s): "@
    } else {
        " \u{2713} Restore item(s): "@
    }) + spec_join(toks, ", "@)
}


/// The views of a tokenized input.
pub open spec fn toks_of(input: Seq<&str>) -> Seq<Seq<char>> {
    input.map_values(|t: &str| t@)
}

/// The outcome of resolving one id token plus a sentence: the stripped id
/// token and the remaining words in order, or the reason there is none.
pub enum SplitOutcome {
    One { id: Seq<char>, words: Seq<Seq<char>> },
    NoToken,
    Extra,
}

pub open spec fn scan_single(
    input: Seq<Seq<char>>,
    found: Option<Seq<char>>,
    words: Seq<Seq<char>>,
) -> SplitOutcome
    decreases input.len(),
{
    if input.len() == 0 {
        match found {
            Some(tok) => SplitOutcome::One { id: strip_at(tok), words },
            None => SplitOutcome::NoToken,
        }
    } else if starts_at(input[0]) {
        if found is Some {
            SplitOutcome::Extra
        } else {
            scan_single(input.drop_first(), Some(input[0]), words)
        }
    } else {
        scan_single(input.drop_first(), found, words.push(input[0]))
    }
}

/// Splits an input into its one id token and its sentence: the first
/// marked token is the id, a second marked token is an error, and so is
/// none at all.
pub open spec fn split_single(input: Seq<Seq<char>>) -> SplitOutcome {
    scan_single(input, None, Seq::empty())
}

/// An id token resolved against a store.
pub open spec fn lookup_id(s: Seq<TaskV>, idtok: Seq<char>) -> Option<u64> {
    match token_id(idtok) {
        Some(n) => if contains_id(s, n) {
            Some(n)
        } else {
            None
        },
        None => None,
    }
}

/// The store with the record under an id replaced.
pub open spec fn update_at_id(s: Seq<TaskV>, n: u64, t: TaskV) -> Seq<TaskV>
    recommends
        contains_id(s, n),
{
    s.update(idx_of(s, n), t)
}

pub open spec fn edit_msg(id: Seq<char>) -> Seq<char> {
    " \u{2713} Updated description of item: "@ + id
}

pub open spec fn priority_word(p: u8) -> Seq<char> {
    if p == 1 {
        "normal"@
    } else if p == 2 {
        "medium"@
    } else {
        "high"@
    }
}

pub open spec fn priority_msg(id: Seq<char>, p: u8) -> Seq<char> {
    " \u{2713} Updated priority of task: "@ + id + " to "@ + priority_word(p)
}

/// A record with its priority set; a note carries no priority and stays
/// as it is.
pub open spec fn set_priority_v(t: TaskV, p: u8) -> TaskV {
    TaskV {
        kind: match t.kind {
            KindV::Todo { complete, in_progress, .. } => KindV::Todo {
                complete,
                in_progress,
                priority: p,
            },
            KindV::Note => KindV::Note,
        },
        ..t
    }
}

/// The board list a board move stores: each word with the marker put
/// back on; no words at all fall back to the default board, which keeps
/// the board list non-empty.
pub open spec fn board_list(words: Seq<Seq<char>>) -> Seq<Seq<char>> {
    if words.len() == 0 {
        seq!["My Board"@]
    } else {
        words.map_values(|w: Seq<char>| "@"@ + w)
    }
}

/// The marked tokens of a new entry's input, kept whole: its boards.
pub open spec fn board_tokens(input: Seq<Seq<char>>) -> Seq<Seq<char>>
    decreases input.len(),
{
    if input.len() == 0 {
        Seq::empty()
    } else {
        board_tokens(input.drop_last()) + (if starts_at(input.last()) {
            seq![input.last()]
        } else {
            Seq::<Seq<char>>::empty()
        })
    }
}

/// The unmarked tokens of a new entry's input, in order: its description.
pub open spec fn word_tokens(input: Seq<Seq<char>>) -> Seq<Seq<char>>
    decreases input.len(),
{
    if input.len() == 0 {
        Seq::empty()
    } else {
        word_tokens(input.drop_last()) + (if starts_at(input.last()) {
            Seq::<Seq<char>>::empty()
        } else {
            seq![input.last()]
        })
    }
}

/// The record a new entry creates, before date and timestamp are chosen.
pub open spec fn new_entry_task(
    input: Seq<Seq<char>>,
    is_note: bool,
    id: u64,
    date: Seq<char>,
    ts: i64,
) -> TaskV {
    TaskV {
        id,
        date,
        timestamp: ts,
        description: spec_join(word_tokens(input), " "@),
        starred: false,
        boards: if board_tokens(input).len() == 0 {
            seq!["My Board"@]
        } else {
            board_tokens(input)
        },
        kind: if is_note {
            KindV::Note
        } else {
            KindV::Todo { complete: false, in_progress: false, priority: 1 }
        },
    }
}

pub open spec fn created_msg(is_note: bool, id: u64) -> Seq<char> {
    (if is_note {
        " \u{2713} Created note: "@
    } else {
        " \u{2713} Created task: "@
    }) + dec_digits(id as nat)
}

impl TaskList {
    /// Resolves owned id tokens one at a time, removing each named
    /// record; stops at the first token that names nothing, with the
    /// earlier removals kept.
    fn take_by_tokens(&mut self, ids: &Vec<String>) -> (r: Result<Vec<Task>, String>)
        requires
            old(self).wf(),
        ensures
            final(self).wf(),
            match remove_batch(old(self)@, ids@.map_values(|t: String| t@)) {
                BatchOutcome::Found { removed, rest } => {
                    &&& r is Ok
                    &&& (r matches Ok(v) ==> v@.map_values(|t: Task| t@) == removed)
                    &&& final(self)@ == rest
                },
                BatchOutcome::Missing { bad, rest } => {
                    &&& r is Err
                    &&& (r matches Err(e) ==> e@ == no_index_msg(bad))
                    &&& final(self)@ == rest
                },
            },
    {
        let ghost orig = self@;
        let ghost idsv = ids@.map_values(|t: String| t@);
        let mut results: Vec<Task> = Vec::new();
        let mut k: usize = 0;
        proof {
            assert(idsv.skip(0) =~= idsv);
            match remove_batch(orig, idsv) {
                BatchOutcome::Found { removed, rest } => {
                    assert(Seq::<TaskV>::empty() + removed =~= removed);
                },
                BatchOutcome::Missing { .. } => {},
            }
        }
        while k < ids.len()
            invariant
                self.wf(),
                orig == old(self)@,
                k <= ids.len(),
                idsv == ids@.map_values(|t: String| t@),
                idsv.len() == ids@.len(),
                forall|j: int| 0 <= j < idsv.len() ==> idsv[j] == #[trigger] ids@[j]@,
                remove_batch(orig, idsv) == prepend_found(
                    results@.map_values(|t: Task| t@),
                    remove_batch(self@, idsv.skip(k as int)),
                ),
            decreases ids.len() - k,
        {
            let tok = ids[k].as_str();
            let ghost pre = self@;
            let ghost rem = idsv.skip(k as int);
            proof {
                assert(rem.len() > 0);
                assert(rem[0] == idsv[k as int]);
                assert(rem.drop_first() =~= idsv.skip(k as int + 1));
            }
            match parse_id(tok) {
                None => {
                    proof {
                        assert(remove_batch(pre, rem) == BatchOutcome::Missing {
                            bad: idsv[k as int],
                            rest: pre,
                        });
                    }
                    return Err(no_index(tok.to_owned()));
                },
                Some(n) => {
                    match self.find_index(n) {
                        None => {
                            proof {
                                assert(remove_batch(pre, rem) == BatchOutcome::Missing {
                                    bad: idsv[k as int],
                                    rest: pre,
                                });
                            }
                            return Err(no_index(tok.to_owned()));
                        },
                        Some(i) => {
                            let ghost rprev = results@;
                            let t = self.take_at(i);
                            proof {
                                assert(idx_of(pre, n) == i);
                                assert(t@ == task_at(pre, n));
                                assert(self@ == remove_id(pre, n));
                            }
                            results.push(t);
                            k += 1;
                            proof {
                                let rv = results@.map_values(|t: Task| t@);
                                let prev = rprev.map_values(|t: Task| t@);
                                assert(results@ == rprev.push(t));
                                assert(rv =~= prev.push(t@));
                                assert(remove_batch(pre, rem) == prepend_found(
                                    seq![task_at(pre, n)],
                                    remove_batch(self@, idsv.skip(k as int)),
                                ));
                                match remove_batch(self@, idsv.skip(k as int)) {
                                    BatchOutcome::Found { removed, rest } => {
                                        assert(prev + (seq![task_at(pre, n)] + removed) =~= rv
                                            + removed);
                                        assert(prepend_found(prev, remove_batch(pre, rem))
                                            == prepend_found(
                                            rv,
                                            remove_batch(self@, idsv.skip(k as int)),
                                        ));
                                    },
                                    BatchOutcome::Missing { .. } => {},
                                }
                            }
                        },
                    }
                },
            }
        }
        proof {
            assert(idsv.skip(ids.len() as int) =~= Seq::<Seq<char>>::empty());
            assert(remove_batch(self@, idsv.skip(ids.len() as int)) == BatchOutcome::Found {
                removed: Seq::empty(),
                rest: self@,
            });
            let rv = results@.map_values(|t: Task| t@);
            assert(rv + Seq::<TaskV>::empty() =~= rv);
        }
        Ok(results)
    }

    /// Resolves id tokens one at a time, removing each named record;
    /// stops at the first token that names nothing, with the earlier
    /// removals kept.
    pub fn get_tasks_by_ids(&mut self, ids: Vec<&str>) -> (r: Result<Vec<Task>, String>)
        requires
            old(self).wf(),
        ensures
            final(self).wf(),
            match remove_batch(old(self)@, ids@.map_values(|t: &str| t@)) {
                BatchOutcome::Found { removed, rest } => {
                    &&& r is Ok
                    &&& (r matches Ok(v) ==> v@.map_values(|t: Task| t@) == removed)
                    &&& final(self)@ == rest
                },
                BatchOutcome::Missing { bad, rest } => {
                    &&& r is Err
                    &&& (r matches Err(e) ==> e@ == no_index_msg(bad))
                    &&& final(self)@ == rest
                },
            },
    {
        let mut owned: Vec<String> = Vec::new();
        let mut i: usize = 0;
        while i < ids.len()
            invariant
                i <= ids.len(),
                owned@.len() == i,
                forall|j: int| 0 <= j < i ==> #[trigger] owned@[j]@ == ids@[j]@,
            decreases ids.len() - i,
        {
            owned.push(ids[i].to_owned());
            i += 1;
        }
        proof {
            assert(owned@.map_values(|t: String| t@) =~= ids@.map_values(|t: &str| t@));
        }
        self.take_by_tokens(&owned)
    }

    /// Flips one flag on every listed record. Each id token must name a
    /// record; at the first that does not, the batch stops with the
    /// earlier removals kept and nothing flipped. On success every listed
    /// record is flipped in place and the message lists the ids that
    /// ended up on and off.
    #[verifier::rlimit(100)]
    pub fn flip_task_flag(&mut self, ids: Vec<&str>, flag: TaskFlag) -> (r: Result<String, String>)
        requires
            old(self).wf(),
        ensures
            final(self).wf(),
            match remove_batch(old(self)@, ids@.map_values(|t: &str| t@)) {
                BatchOutcome::Found { removed, rest } => {
                    &&& r is Ok
                    &&& (r matches Ok(m) ==> m@ == flip_message(removed, flag))
                    &&& final(self)@ == flip_all(old(self)@, removed, flag)
                },
                BatchOutcome::Missing { bad, rest } => {
                    &&& r is Err
                    &&& (r matches Err(e) ==> e@ == no_index_msg(bad))
                    &&& final(self)@ == rest
                },
            },
    {
        let ghost orig = self@;
        let ghost idsv = ids@.map_values(|t: &str| t@);
        proof {
            lemma_remove_batch(orig, idsv);
        }
        let mut found_tasks: Vec<Task> = match self.get_tasks_by_ids(ids) {
            Ok(v) => v,
            Err(e) => {
                return Err(e);
            },
        };
        let ghost removed = found_tasks@.map_values(|t: Task| t@);
        let ghost rest = self@;
        proof {
            assert(remove_batch(orig, idsv) == BatchOutcome::Found { removed, rest });
        }
        let mut marked_tasks: Vec<String> = Vec::new();
        let mut unmarked_tasks: Vec<String> = Vec::new();
        proof {
            assert(removed.take(removed.len() as int) =~= removed);
            assert(Seq::<Seq<char>>::empty() + report_ids(removed, flag, true) =~= report_ids(
                removed,
                flag,
                true,
            ));
            assert(Seq::<Seq<char>>::empty() + report_ids(removed, flag, false) =~= report_ids(
                removed,
                flag,
                false,
            ));
        }
        while found_tasks.len() > 0
            invariant
                self.wf(),
                orig == old(self)@,
                store_wf(orig),
                idsv == ids@.map_values(|t: &str| t@),
                remove_batch(orig, idsv) == (BatchOutcome::Found { removed, rest }),
                found_tasks@.map_values(|t: Task| t@) == removed.take(found_tasks@.len() as int),
                found_tasks@.len() <= removed.len(),
                report_ids(removed, flag, true) == marked_tasks@.map_values(|m: String| m@)
                    + report_ids(removed.take(found_tasks@.len() as int), flag, true),
                report_ids(removed, flag, false) == unmarked_tasks@.map_values(|m: String| m@)
                    + report_ids(removed.take(found_tasks@.len() as int), flag, false),
                forall|id: u64| #[trigger] contains_id(self@, id) <==> (contains_id(rest, id)
                    || in_removed(removed.skip(found_tasks@.len() as int), id)),
                forall|id: u64| contains_id(rest, id) ==> task_at(self@, id) == task_at(rest, id),
                forall|k: int| found_tasks@.len() <= k < removed.len() ==> contains_id(
                    self@,
                    (#[trigger] removed[k]).id,
                ) && task_at(self@, removed[k].id) == spec_flip(removed[k], flag).0,
            decreases found_tasks.len(),
        {
            let ghost j = found_tasks@.len() as int;
            let ghost pre = self@;
            let ghost prev_found = found_tasks@;
            let ghost prev_marked = marked_tasks@;
            let ghost prev_unmarked = unmarked_tasks@;
            proof {
                lemma_remove_batch(orig, idsv);
                assert(removed.take(j).last() == removed[j - 1]);
                assert(removed.take(j).drop_last() =~= removed.take(j - 1));
            }
            let mut task = match found_tasks.pop() {
                Some(t) => t,
                None => {
                    proof {
                        assert(false);
                    }
                    unreached()
                },
            };
            proof {
                assert(found_tasks@ =~= prev_found.drop_last());
                assert(found_tasks@.map_values(|t: Task| t@) =~= removed.take(j).drop_last());
                assert(task@ == removed[j - 1]);
                assert(task_wf(task@));
            }
            let rep = task.flip_flag(flag);
            proof {
                assert(task@ == spec_flip(removed[j - 1], flag).0);
                assert(task@.id == removed[j - 1].id);
                assert(task_wf(task@));
            }
            let id_string = crate::digits::u64_to_string(task.get_id());
            match rep {
                Some(true) => {
                    marked_tasks.push(id_string);
                },
                Some(false) => {
                    unmarked_tasks.push(id_string);
                },
                None => {},
            }
            proof {
                let mt = marked_tasks@.map_values(|m: String| m@);
                let ut = unmarked_tasks@.map_values(|m: String| m@);
                let contrib_t: Seq<Seq<char>> = if spec_flip(removed[j - 1], flag).1 == Some(true) {
                    seq![dec_digits(removed[j - 1].id as nat)]
                } else {
                    Seq::empty()
                };
                let contrib_f: Seq<Seq<char>> = if spec_flip(removed[j - 1], flag).1 == Some(false) {
                    seq![dec_digits(removed[j - 1].id as nat)]
                } else {
                    Seq::empty()
                };
                assert(report_ids(removed.take(j), flag, true) == contrib_t + report_ids(
                    removed.take(j - 1),
                    flag,
                    true,
                ));
                assert(report_ids(removed.take(j), flag, false) == contrib_f + report_ids(
                    removed.take(j - 1),
                    flag,
                    false,
                ));
                match spec_flip(removed[j - 1], flag).1 {
                    Some(true) => {
                        assert(mt =~= prev_marked.map_values(|m: String| m@).push(
                            dec_digits(removed[j - 1].id as nat),
                        ));
                    },
                    Some(false) => {
                        assert(ut =~= prev_unmarked.map_values(|m: String| m@).push(
                            dec_digits(removed[j - 1].id as nat),
                        ));
                    },
                    None => {},
                }
                assert(report_ids(removed, flag, true) =~= mt + report_ids(
                    removed.take(j - 1),
                    flag,
                    true,
                ));
                assert(report_ids(removed, flag, false) =~= ut + report_ids(
                    removed.take(j - 1),
                    flag,
                    false,
                ));
            }
            let ghost before_ins = self@;
            self.insert(task);
            proof {
                crate::store::lemma_spec_insert(before_ins, task@);
                let tid = removed[j - 1].id;
                assert forall|id: u64| in_removed(removed.skip(j - 1), id) <==> (id == tid
                    || in_removed(removed.skip(j), id)) by {
                    if in_removed(removed.skip(j - 1), id) {
                        let k = choose|k: int|
                            0 <= k < removed.skip(j - 1).len() && (#[trigger] removed.skip(
                                j - 1,
                            )[k]).id == id;
                        if k >= 1 {
                            assert(removed.skip(j)[k - 1].id == id);
                        }
                    }
                    if in_removed(removed.skip(j), id) {
                        let k = choose|k: int|
                            0 <= k < removed.skip(j).len() && (#[trigger] removed.skip(j)[k]).id
                                == id;
                        assert(removed.skip(j - 1)[k + 1].id == id);
                    }
                    if id == tid {
                        assert(removed.skip(j - 1)[0].id == id);
                    }
                }
                assert(!contains_id(rest, tid)) by {
                    assert(in_removed(removed, tid));
                }
                assert forall|id: u64| #[trigger] contains_id(self@, id) <==> (contains_id(
                    rest,
                    id,
                ) || in_removed(removed.skip(j - 1), id)) by {
                    if id == tid {
                        assert(contains_id(self@, tid));
                        assert(removed.skip(j - 1)[0].id == tid);
                        assert(in_removed(removed.skip(j - 1), tid));
                    } else {
                        assert(contains_id(self@, id) <==> contains_id(before_ins, id));
                        assert(contains_id(before_ins, id) <==> (contains_id(pre, id)));
                        assert(contains_id(pre, id) <==> (contains_id(rest, id) || in_removed(
                            removed.skip(j),
                            id,
                        )));
                    }
                }
                assert forall|k: int|
                    found_tasks@.len() <= k < removed.len() implies contains_id(
                    self@,
                    (#[trigger] removed[k]).id,
                ) && task_at(self@, removed[k].id) == spec_flip(removed[k], flag).0 by {
                    if k == j - 1 {
                        assert(task_at(self@, tid) == task@);
                    } else {
                        assert(removed[k].id != tid);
                    }
                }
            }
        }
        proof {
            assert(removed.take(0) =~= Seq::<TaskV>::empty());
            assert(removed.skip(0) =~= removed);
            let mt = marked_tasks@.map_values(|m: String| m@);
            let ut = unmarked_tasks@.map_values(|m: String| m@);
            assert(mt + Seq::<Seq<char>>::empty() =~= mt);
            assert(ut + Seq::<Seq<char>>::empty() =~= ut);
            assert(report_ids(removed, flag, true) == mt);
            assert(report_ids(removed, flag, false) == ut);
            lemma_remove_batch(orig, idsv);
            let target = flip_all(orig, removed, flag);
            assert(target.len() == orig.len());
            assert forall|i: int| 0 <= i < target.len() implies #[trigger] target[i].id
                == orig[i].id && target[i] == (if in_removed(removed, orig[i].id) {
                spec_flip(orig[i], flag).0
            } else {
                orig[i]
            }) by {}
            assert(store_sorted(target));
            assert forall|id: u64| contains_id(target, id) <==> contains_id(orig, id) by {
                if contains_id(target, id) {
                    let q = idx_of(target, id);
                    assert(orig[q].id == id);
                }
                if contains_id(orig, id) {
                    let q = idx_of(orig, id);
                    assert(target[q].id == id);
                }
            }
            assert forall|id: u64| contains_id(self@, id) implies contains_id(target, id)
                && task_at(self@, id) == task_at(target, id) by {
                assert(contains_id(orig, id));
                let q = idx_of(orig, id);
                assert(orig[q].id == id);
                assert(idx_of(target, id) == q) by {
                    let w = idx_of(target, id);
                    assert(target[w].id == id);
                    if w != q {
                        assert(target[w].id == target[q].id);
                    }
                }
                assert(idx_of(orig, id) == q);
                assert(task_at(target, id) == target[q]);
                assert(task_at(orig, id) == orig[q]);
                if in_removed(removed, id) {
                    let k = choose|k: int| 0 <= k < removed.len() && removed[k].id == id;
                    assert(removed[k] == task_at(orig, id));
                    assert(task_at(self@, id) == spec_flip(removed[k], flag).0);
                } else {
                    assert(contains_id(rest, id));
                    assert(task_at(rest, id) == task_at(orig, id));
                }
            }
            assert forall|id: u64| contains_id(target, id) implies contains_id(self@, id) by {
                assert(contains_id(orig, id));
            }
            crate::store::lemma_sorted_unique(self@, target);
        }
        let string_of_marked = join_with(&marked_tasks, ", ");
        let string_of_unmarked = join_with(&unmarked_tasks, ", ");
        let mut output = String::new();
        if marked_tasks.len() > 0 {
            match flag {
                TaskFlag::Begin => output.append(" \u{2713} Started task(s): "),
                TaskFlag::Check => output.append(" \u{2713} Checked task(s): "),
                TaskFlag::Star => output.append(" \u{2713} Star task(s): "),
            }
            output.append(string_of_marked.as_str());
            output.append("\n");
        }
        if unmarked_tasks.len() > 0 {
            match flag {
                TaskFlag::Begin => output.append("\n \u{2713} Paused task(s) : "),
                TaskFlag::Check => output.append("\n \u{2713} Unchecked task(s): "),
                TaskFlag::Star => output.append("\n \u{2713} Unstarred task(s): "),
            }
            output.append(string_of_unmarked.as_str());
            match flag {
                TaskFlag::Star => output.append("\n"),
                _ => {},
            }
        }
        proof {
            assert(output@ =~= flip_message(removed, flag));
        }
        Ok(output)
    }

    /// Moves records into another store. With no explicit ids, exactly
    /// the completed tasks move; notes and unfinished tasks stay. Each
    /// moved record takes the destination's smallest unused id at its
    /// turn. A token that names nothing stops the batch with the earlier
    /// removals kept and the destination untouched.
    #[verifier::rlimit(100)]
    pub fn move_tasks_between_lists(
        &mut self,
        other_list: &mut TaskList,
        ids: Option<Vec<&str>>,
        restore: bool,
    ) -> (r: Result<String, String>)
        requires
            old(self).wf(),
            old(other_list).wf(),
        ensures
            final(self).wf(),
            final(other_list).wf(),
            ({
                let toks = match ids {
                    Some(v) => v@.map_values(|t: &str| t@),
                    None => complete_id_tokens(old(self)@),
                };
                match remove_batch(old(self)@, toks) {
                    BatchOutcome::Found { removed, rest } => {
                        &&& r is Ok
                        &&& (r matches Ok(m) ==> m@ == move_message(toks, restore))
                        &&& final(self)@ == rest
                        &&& final(other_list)@ == graft(old(other_list)@, removed)
                    },
                    BatchOutcome::Missing { bad, rest } => {
                        &&& r is Err
                        &&& (r matches Err(e) ==> e@ == no_index_msg(bad))
                        &&& final(self)@ == rest
                        &&& final(other_list)@ == old(other_list)@
                    },
                }
            }),
    {
        let ghost orig = self@;
        let ghost odest = other_list@;
        let mut id_strings: Vec<String> = Vec::new();
        match ids {
            Some(v) => {
                let mut i: usize = 0;
                while i < v.len()
                    invariant
                        i <= v.len(),
                        id_strings@.len() == i,
                        forall|j: int| 0 <= j < i ==> #[trigger] id_strings@[j]@ == v@[j]@,
                    decreases v.len() - i,
                {
                    id_strings.push(v[i].to_owned());
                    i += 1;
                }
                proof {
                    assert(id_strings@.map_values(|t: String| t@) =~= v@.map_values(
                        |t: &str| t@,
                    ));
                }
            },
            None => {
                let mut i: usize = 0;
                let n = self.len();
                while i < n
                    invariant
                        self.wf(),
                        self@ == orig,
                        n == self@.len(),
                        i <= n,
                        id_strings@.map_values(|t: String| t@) == complete_id_tokens(
                            self@.take(i as int),
                        ),
                    decreases n - i,
                {
                    let ghost prev = id_strings@;
                    let t = self.task_ref(i);
                    if t.is_complete() {
                        id_strings.push(crate::digits::u64_to_string(t.get_id()));
                    }
                    i += 1;
                    proof {
                        assert(self@.take(i as int).drop_last() =~= self@.take(i - 1));
                        assert(self@.take(i as int).last() == self@[i - 1]);
                        if is_complete_v(self@[i - 1]) {
                            assert(id_strings@.map_values(|t: String| t@) =~= prev.map_values(
                                |t: String| t@,
                            ).push(dec_digits(self@[i - 1].id as nat)));
                            assert(prev.map_values(|t: String| t@).push(
                                dec_digits(self@[i - 1].id as nat),
                            ) =~= complete_id_tokens(self@.take(i - 1)) + seq![
                                dec_digits(self@[i - 1].id as nat),
                            ]);
                        }
                    }
                }
                proof {
                    assert(self@.take(n as int) =~= self@);
                }
            },
        }
        let ghost toks = id_strings@.map_values(|t: String| t@);
        proof {
            lemma_remove_batch(orig, toks);
        }
        let found_tasks: Vec<Task> = match self.take_by_tokens(&id_strings) {
            Ok(v) => v,
            Err(e) => {
                return Err(e);
            },
        };
        let ghost removed = found_tasks@.map_values(|t: Task| t@);
        let ghost rest = self@;
        proof {
            assert(remove_batch(orig, toks) == BatchOutcome::Found { removed, rest });
            assert(graft(odest, removed.skip(0)) == graft(odest, removed)) by {
                assert(removed.skip(0) =~= removed);
            }
        }
        let mut k: usize = 0;
        while k < found_tasks.len()
            invariant
                other_list.wf(),
                k <= found_tasks@.len(),
                found_tasks@.map_values(|t: Task| t@) == removed,
                removed.len() == found_tasks@.len(),
                forall|j: int| 0 <= j < removed.len() ==> task_wf(#[trigger] removed[j]),
                graft(odest, removed) == graft(other_list@, removed.skip(k as int)),
            decreases found_tasks.len() - k,
        {
            let ghost dpre = other_list@;
            let new_id = other_list.get_new_id();
            let mut task = found_tasks[k].duplicate();
            task.set_id(new_id);
            proof {
                assert(task@ == (TaskV { id: least_free(dpre), ..removed[k as int] }));
                assert(task_wf(task@));
                assert(removed.skip(k as int)[0] == removed[k as int]);
                assert(removed.skip(k as int).drop_first() =~= removed.skip(k as int + 1));
            }
            other_list.insert(task);
            k += 1;
            proof {
                assert(graft(dpre, removed.skip(k - 1)) == graft(
                    other_list@,
                    removed.skip(k as int),
                ));
            }
        }
        proof {
            assert(removed.skip(found_tasks@.len() as int) =~= Seq::<TaskV>::empty());
            assert(graft(other_list@, Seq::<TaskV>::empty()) == other_list@);
        }
        let moved_ids = join_with(&id_strings, ", ");
        let mut output: String = if restore {
            String::from_str(" \u{2713} Deleted item(s): ")
        } else {
            String::from_str(" \u{2713} Restore item(s): ")
        };
        output.append(moved_ids.as_str());
        Ok(output)
    }

    /// Splits an input into its one id token (the marker stripped) and
    /// the remaining words: no marked token, or a second one, is an
    /// error.
    pub fn get_task_id_from_input(&self, input: Vec<&str>) -> (r: Result<
        (String, Vec<String>),
        String,
    >)
        ensures
            match split_single(input@.map_values(|t: &str| t@)) {
                SplitOutcome::One { id, words } => {
                    &&& r is Ok
                    &&& (r matches Ok(p) ==> p.0@ == id && p.1@.map_values(|w: String| w@)
                        == words)
                },
                SplitOutcome::NoToken => r matches Err(e) && e@ == no_id_msg(),
                SplitOutcome::Extra => r matches Err(e) && e@ == too_many_ids_msg(),
            },
    {
        let ghost inputv = input@.map_values(|t: &str| t@);
        let mut special_id = String::new();
        let mut have_id = false;
        let mut new_sentence: Vec<String> = Vec::new();
        let mut i: usize = 0;
        proof {
            assert(inputv.skip(0) =~= inputv);
            assert(new_sentence@.map_values(|w: String| w@) =~= Seq::<Seq<char>>::empty());
        }
        while i < input.len()
            invariant
                i <= input.len(),
                inputv == input@.map_values(|t: &str| t@),
                inputv.len() == input@.len(),
                forall|j: int| 0 <= j < inputv.len() ==> inputv[j] == #[trigger] input@[j]@,
                split_single(inputv) == scan_single(
                    inputv.skip(i as int),
                    if have_id {
                        Some(special_id@)
                    } else {
                        None
                    },
                    new_sentence@.map_values(|w: String| w@),
                ),
            decreases input.len() - i,
        {
            let ghost rem = inputv.skip(i as int);
            proof {
                assert(rem[0] == inputv[i as int]);
                assert(rem.drop_first() =~= inputv.skip(i as int + 1));
            }
            let word = input[i];
            if starts_with_at(word) {
                if have_id {
                    return Err(too_many_ids_error());
                }
                special_id = word.to_owned();
                have_id = true;
            } else {
                let ghost wprev = new_sentence@;
                new_sentence.push(word.to_owned());
                proof {
                    assert(new_sentence@.map_values(|w: String| w@) =~= wprev.map_values(
                        |w: String| w@,
                    ).push(inputv[i as int]));
                }
            }
            i += 1;
        }
        proof {
            assert(inputv.skip(input.len() as int) =~= Seq::<Seq<char>>::empty());
        }
        if !have_id {
            return Err(no_id_error());
        }
        let id = strip_at_exec(special_id.as_str());
        Ok((id, new_sentence))
    }

    /// Sets the description of the record named by the one id token to
    /// the remaining words, joined with single spaces.
    pub fn edit(&mut self, input: Vec<&str>) -> (r: Result<String, String>)
        requires
            old(self).wf(),
        ensures
            final(self).wf(),
            match split_single(input@.map_values(|t: &str| t@)) {
                SplitOutcome::One { id, words } => match lookup_id(old(self)@, id) {
                    Some(n) => {
                        &&& (r matches Ok(m) ==> m@ == edit_msg(id))
                        &&& r is Ok
                        &&& final(self)@ == update_at_id(
                            old(self)@,
                            n,
                            (TaskV { description: spec_join(words, " "@), ..task_at(old(self)@, n) }),
                        )
                    },
                    None => {
                        &&& (r matches Err(e) ==> e@ == no_index_msg(id))
                        &&& r is Err
                        &&& final(self)@ == old(self)@
                    },
                },
                SplitOutcome::NoToken => r matches Err(e) && e@ == no_id_msg() && final(self)@
                    == old(self)@,
                SplitOutcome::Extra => r matches Err(e) && e@ == too_many_ids_msg() && final(self)@
                    == old(self)@,
            },
    {
        let (id, words) = match self.get_task_id_from_input(input) {
            Ok(p) => p,
            Err(e) => {
                return Err(e);
            },
        };
        let sentence = join_with(&words, " ");
        match parse_id(id.as_str()) {
            Some(n) => {
                match self.find_index(n) {
                    Some(i) => {
                        let mut t = self.task_ref(i).duplicate();
                        t.set_description(sentence);
                        proof {
                            assert(task_wf(t@));
                            assert(task_at(self@, n) == self@[i as int]);
                        }
                        self.replace_at(i, t);
                        let mut m = String::from_str(" \u{2713} Updated description of item: ");
                        m.append(id.as_str());
                        Ok(m)
                    },
                    None => Err(no_index(id)),
                }
            },
            None => Err(no_index(id)),
        }
    }

    /// Replaces the board list of the record named by the one id token
    /// with the remaining words, each with the marker put back on. With
    /// no words at all the record returns to the default board, which
    /// keeps the board list non-empty.
    pub fn move_to_board(&mut self, input: Vec<&str>) -> (r: Result<String, String>)
        requires
            old(self).wf(),
        ensures
            final(self).wf(),
            match split_single(input@.map_values(|t: &str| t@)) {
                SplitOutcome::One { id, words } => match lookup_id(old(self)@, id) {
                    Some(n) => {
                        &&& (r matches Ok(m) ==> m@ == edit_msg(id))
                        &&& r is Ok
                        &&& final(self)@ == update_at_id(
                            old(self)@,
                            n,
                            (TaskV { boards: board_list(words), ..task_at(old(self)@, n) }),
                        )
                    },
                    None => {
                        &&& (r matches Err(e) ==> e@ == no_index_msg(id))
                        &&& r is Err
                        &&& final(self)@ == old(self)@
                    },
                },
                SplitOutcome::NoToken => r matches Err(e) && e@ == no_id_msg() && final(self)@
                    == old(self)@,
                SplitOutcome::Extra => r matches Err(e) && e@ == too_many_ids_msg() && final(self)@
                    == old(self)@,
            },
    {
        let (id, words) = match self.get_task_id_from_input(input) {
            Ok(p) => p,
            Err(e) => {
                return Err(e);
            },
        };
        let ghost wordsv = words@.map_values(|w: String| w@);
        let mut new_boards: Vec<String> = Vec::new();
        let mut i: usize = 0;
        while i < words.len()
            invariant
                i <= words.len(),
                wordsv == words@.map_values(|w: String| w@),
                wordsv.len() == words@.len(),
                forall|j: int| 0 <= j < wordsv.len() ==> wordsv[j] == #[trigger] words@[j]@,
                new_boards@.len() == i,
                forall|j: int| 0 <= j < i ==> #[trigger] new_boards@[j]@ == "@"@ + wordsv[j],
            decreases words.len() - i,
        {
            let mut b = String::from_str("@");
            b.append(words[i].as_str());
            new_boards.push(b);
            i += 1;
        }
        if new_boards.len() == 0 {
            new_boards.push(String::from_str("My Board"));
        }
        proof {
            assert(new_boards@.map_values(|b: String| b@) =~= board_list(wordsv));
        }
        match parse_id(id.as_str()) {
            Some(n) => {
                match self.find_index(n) {
                    Some(i) => {
                        let mut t = self.task_ref(i).duplicate();
                        t.set_boards(new_boards);
                        proof {
                            assert(task_wf(t@));
                            assert(task_at(self@, n) == self@[i as int]);
                        }
                        self.replace_at(i, t);
                        let mut m = String::from_str(" \u{2713} Updated description of item: ");
                        m.append(id.as_str());
                        Ok(m)
                    },
                    None => Err(no_index(id)),
                }
            },
            None => Err(no_index(id)),
        }
    }

    /// Sets the priority of the record named by the one id token. The
    /// remainder must be exactly one token among 1, 2, and 3. A note
    /// carries no priority and stays as it is.
    pub fn priority(&mut self, input: Vec<&str>) -> (r: Result<String, String>)
        requires
            old(self).wf(),
        ensures
            final(self).wf(),
            match split_single(input@.map_values(|t: &str| t@)) {
                SplitOutcome::One { id, words } => {
                    if words.len() != 1 {
                        r matches Err(e) && e@ == invalid_priority_msg() && final(self)@ == old(
                            self,
                        )@
                    } else {
                        match u8_token_val(words[0]) {
                            Some(p) => if 1 <= p <= 3 {
                                match lookup_id(old(self)@, id) {
                                    Some(n) => {
                                        &&& (r matches Ok(m) ==> m@ == priority_msg(id, p))
                                        &&& r is Ok
                                        &&& final(self)@ == update_at_id(
                                            old(self)@,
                                            n,
                                            set_priority_v(task_at(old(self)@, n), p),
                                        )
                                    },
                                    None => {
                                        &&& (r matches Err(e) ==> e@ == no_index_msg(id))
                                        &&& r is Err
                                        &&& final(self)@ == old(self)@
                                    },
                                }
                            } else {
                                r matches Err(e) && e@ == invalid_priority_msg() && final(self)@
                                    == old(self)@
                            },
                            None => r matches Err(e) && e@ == invalid_priority_msg()
                                && final(self)@ == old(self)@,
                        }
                    }
                },
                SplitOutcome::NoToken => r matches Err(e) && e@ == no_id_msg() && final(self)@
                    == old(self)@,
                SplitOutcome::Extra => r matches Err(e) && e@ == too_many_ids_msg() && final(self)@
                    == old(self)@,
            },
    {
        let (id, words) = match self.get_task_id_from_input(input) {
            Ok(p) => p,
            Err(e) => {
                return Err(e);
            },
        };
        if words.len() != 1 {
            return Err(invalid_priority());
        }
        proof {
            assert(words@.map_values(|w: String| w@)[0] == words@[0]@);
        }
        let p = match parse_u8_token(words[0].as_str()) {
            Some(p) => p,
            None => {
                return Err(invalid_priority());
            },
        };
        let word = match p {
            1 => "normal",
            2 => "medium",
            3 => "high",
            _ => {
                return Err(invalid_priority());
            },
        };
        proof {
            assert(word@ == priority_word(p));
        }
        match parse_id(id.as_str()) {
            Some(n) => {
                match self.find_index(n) {
                    Some(i) => {
                        let mut t = self.task_ref(i).duplicate();
                        t.set_priority(p);
                        proof {
                            assert(task_wf(t@));
                            assert(task_at(self@, n) == self@[i as int]);
                            assert(t@ == set_priority_v(task_at(self@, n), p));
                        }
                        self.replace_at(i, t);
                        let mut m = String::from_str(" \u{2713} Updated priority of task: ");
                        m.append(id.as_str());
                        m.append(" to ");
                        m.append(word);
                        Ok(m)
                    },
                    None => Err(no_index(id)),
                }
            },
            None => Err(no_index(id)),
        }
    }

    /// Splits a new entry's input into its marked board tokens, kept
    /// whole, and its remaining words joined into the description.
    pub fn get_special_ids_from_args(&self, input: Vec<&str>) -> (r: (Vec<String>, String))
        ensures
            r.0@.map_values(|b: String| b@) == board_tokens(input@.map_values(|t: &str| t@)),
            r.1@ == spec_join(word_tokens(input@.map_values(|t: &str| t@)), " "@),
    {
        let ghost inputv = input@.map_values(|t: &str| t@);
        let mut special_ids: Vec<String> = Vec::new();
        let mut new_sentence: Vec<String> = Vec::new();
        let mut i: usize = 0;
        while i < input.len()
            invariant
                i <= input.len(),
                inputv == input@.map_values(|t: &str| t@),
                inputv.len() == input@.len(),
                forall|j: int| 0 <= j < inputv.len() ==> inputv[j] == #[trigger] input@[j]@,
                special_ids@.map_values(|b: String| b@) == board_tokens(inputv.take(i as int)),
                new_sentence@.map_values(|w: String| w@) == word_tokens(inputv.take(i as int)),
            decreases input.len() - i,
        {
            let ghost bprev = special_ids@;
            let ghost wprev = new_sentence@;
            let word = input[i];
            if starts_with_at(word) {
                special_ids.push(word.to_owned());
            } else {
                new_sentence.push(word.to_owned());
            }
            i += 1;
            proof {
                assert(inputv.take(i as int).drop_last() =~= inputv.take(i - 1));
                assert(inputv.take(i as int).last() == inputv[i - 1]);
                if starts_at(inputv[i - 1]) {
                    assert(special_ids@.map_values(|b: String| b@) =~= bprev.map_values(
                        |b: String| b@,
                    ).push(inputv[i - 1]));
                    assert(bprev.map_values(|b: String| b@).push(inputv[i - 1]) =~= board_tokens(
                        inputv.take(i - 1),
                    ) + seq![inputv[i - 1]]);
                } else {
                    assert(new_sentence@.map_values(|w: String| w@) =~= wprev.map_values(
                        |w: String| w@,
                    ).push(inputv[i - 1]));
                    assert(wprev.map_values(|w: String| w@).push(inputv[i - 1]) =~= word_tokens(
                        inputv.take(i - 1),
                    ) + seq![inputv[i - 1]]);
                }
            }
        }
        proof {
            assert(inputv.take(input.len() as int) =~= inputv);
        }
        let sentence = join_with(&new_sentence, " ");
        (special_ids, sentence)
    }

    /// Creates a task or note from an input whose marked tokens name its
    /// boards, at the smallest unused id, dated as given.
    pub fn new_entry_at(
        &mut self,
        input: Vec<&str>,
        is_note: bool,
        date: String,
        timestamp: i64,
    ) -> (r: String)
        requires
            old(self).wf(),
        ensures
            final(self).wf(),
            final(self)@ == spec_insert(
                old(self)@,
                new_entry_task(
                    input@.map_values(|t: &str| t@),
                    is_note,
                    least_free(old(self)@),
                    date@,
                    timestamp,
                ),
            ),
            r@ == created_msg(is_note, least_free(old(self)@)),
    {
        let ghost inputv = input@.map_values(|t: &str| t@);
        let (boards, sentence) = self.get_special_ids_from_args(input);
        let id = self.get_new_id();
        let id_string = crate::digits::u64_to_string(id);
        let task = Task::new_at(sentence, boards, id, is_note, date, timestamp);
        proof {
            assert(task@ == new_entry_task(inputv, is_note, id, date@, timestamp));
        }
        self.insert(task);
        let mut m: String = if is_note {
            String::from_str(" \u{2713} Created note: ")
        } else {
            String::from_str(" \u{2713} Created task: ")
        };
        m.append(id_string.as_str());
        m
    }

    /// Creates a task or note dated now: as `new_entry_at`, with the
    /// clock choosing the date and timestamp fields.
    pub fn new_entry(&mut self, input: Vec<&str>, is_note: bool) -> (r: String)
        requires
            old(self).wf(),
        ensures
            final(self).wf(),
            exists|d: Seq<char>, ts: i64|
                final(self)@ == spec_insert(
                    old(self)@,
                    #[trigger] new_entry_task(
                        toks_of(input@),
                        is_note,
                        least_free(old(self)@),
                        d,
                        ts,
                    ),
                ),
            r@ == created_msg(is_note, least_free(old(self)@)),
    {
        let date = crate::clock::today_date_string();
        let timestamp = crate::clock::now_timestamp_millis();
        let ghost d = date@;
        let r = self.new_entry_at(input, is_note, date, timestamp);
        proof {
            assert(toks_of(input@) == input@.map_values(|t: &str| t@));
            assert(self@ == spec_insert(
                old(self)@,
                new_entry_task(
                    toks_of(input@),
                    is_note,
                    least_free(old(self)@),
                    d,
                    timestamp,
                ),
            ));
        }
        r
    }
}

} // verus!
