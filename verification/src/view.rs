//! The board report: tasks grouped by board membership, the default
//! board first, the rest in ascending name order, each section headed by
//! its completed-out-of-total counter.

use vstd::prelude::*;
use crate::digits::{dec_digits, u64_to_string};
use crate::store::TaskList;
use crate::task::{KindV, TaskV, is_complete_v, is_note_v};

verus! {

/// Name order: by code point, position by position.
pub open spec fn name_lt(a: Seq<char>, b: Seq<char>) -> bool
    decreases a.len(),
{
    if b.len() == 0 {
        false
    } else if a.len() == 0 {
        true
    } else if (a[0] as u32) < (b[0] as u32) {
        true
    } else if (a[0] as u32) > (b[0] as u32) {
        false
    } else {
        name_lt(a.drop_first(), b.drop_first())
    }
}

/// Compares two names.
fn name_lt_exec(a: &str, b: &str) -> (r: bool)
    ensures
        r == name_lt(a@, b@),
    decreases a@.len(),
{
    let an = a.unicode_len();
    let bn = b.unicode_len();
    if bn == 0 {
        false
    } else if an == 0 {
        true
    } else {
        let ca = a.get_char(0) as u32;
        let cb = b.get_char(0) as u32;
        if ca < cb {
            true
        } else if ca > cb {
            false
        } else {
            let a2 = a.substring_char(1, an);
            let b2 = b.substring_char(1, bn);
            proof {
                assert(a2@ =~= a@.drop_first());
                assert(b2@ =~= b@.drop_first());
            }
            name_lt_exec(a2, b2)
        }
    }
}

/// Whether two names are the same.
fn name_eq_exec(a: &str, b: &str) -> (r: bool)
    ensures
        r == (a@ == b@),
{
    let an = a.unicode_len();
    let bn = b.unicode_len();
    if an != bn {
        return false;
    }
    let mut i: usize = 0;
    while i < an
        invariant
            i <= an,
            an == a@.len(),
            an == b@.len(),
            forall|j: int| 0 <= j < i ==> a@[j] == b@[j],
        decreases an - i,
    {
        if a.get_char(i) != b.get_char(i) {
            return false;
        }
        i += 1;
    }
    proof {
        assert(a@ =~= b@);
    }
    true
}

/// A name entering an ordered list of distinct names.
pub open spec fn ins_board(list: Seq<Seq<char>>, name: Seq<char>) -> Seq<Seq<char>>
    decreases list.len(),
{
    if list.len() == 0 {
        seq![name]
    } else if name == list[0] {
        list
    } else if name_lt(name, list[0]) {
        seq![name] + list
    } else {
        seq![list[0]] + ins_board(list.drop_first(), name)
    }
}

/// A record's board names entering the list, one after the other.
pub open spec fn add_boards(list: Seq<Seq<char>>, boards: Seq<Seq<char>>) -> Seq<Seq<char>>
    decreases boards.len(),
{
    if boards.len() == 0 {
        list
    } else {
        add_boards(ins_board(list, boards[0]), boards.drop_first())
    }
}

/// The boards of a store, collected over the records in order.
pub open spec fn collect_from(list: Seq<Seq<char>>, s: Seq<TaskV>) -> Seq<Seq<char>>
    decreases s.len(),
{
    if s.len() == 0 {
        list
    } else {
        collect_from(add_boards(list, s[0].boards), s.drop_first())
    }
}

pub open spec fn collect_boards(s: Seq<TaskV>) -> Seq<Seq<char>> {
    collect_from(Seq::empty(), s)
}

/// How many records of a store belong to a board.
pub open spec fn total_on(s: Seq<TaskV>, name: Seq<char>) -> nat
    decreases s.len(),
{
    if s.len() == 0 {
        0
    } else {
        total_on(s.drop_last(), name) + (if s.last().boards.contains(name) {
            1nat
        } else {
            0nat
        })
    }
}

/// How many of them are completed tasks.
pub open spec fn completed_on(s: Seq<TaskV>, name: Seq<char>) -> nat
    decreases s.len(),
{
    if s.len() == 0 {
        0
    } else {
        completed_on(s.drop_last(), name) + (if s.last().boards.contains(name) && is_complete_v(
            s.last(),
        ) {
            1nat
        } else {
            0nat
        })
    }
}

/// The age annotation: whole days since creation, left out under one day.
pub open spec fn age_mark(t: TaskV, now: i64) -> Seq<char> {
    if now - t.timestamp >= 86400000 {
        dec_digits(((now - t.timestamp) / 86400000) as nat) + "d "@
    } else {
        Seq::empty()
    }
}

/// One record's display line.
pub open spec fn render_task(t: TaskV, now: i64) -> Seq<char> {
    let desc = t.description + (match t.kind {
        KindV::Todo { priority, .. } => if priority == 2 {
            " (!)"@
        } else if priority == 3 {
            " (!!)"@
        } else {
            Seq::<char>::empty()
        },
        KindV::Note => Seq::<char>::empty(),
    });
    let status: Seq<char> = if is_note_v(t) {
        "\u{25cf}"@
    } else if is_complete_v(t) {
        "\u{2713}"@
    } else if (t.kind matches KindV::Todo { in_progress: true, .. }) {
        "\u{2234}"@
    } else {
        "\u{2610}"@
    };
    let star: Seq<char> = if t.starred {
        "\u{066d}"@
    } else {
        Seq::empty()
    };
    dec_digits(t.id as nat) + ". "@ + status + " "@ + desc + " "@ + age_mark(t, now) + star
}

/// The member lines of one board's section, in store order.
pub open spec fn board_lines(s: Seq<TaskV>, name: Seq<char>, now: i64) -> Seq<char>
    decreases s.len(),
{
    if s.len() == 0 {
        Seq::empty()
    } else {
        board_lines(s.drop_last(), name, now) + (if s.last().boards.contains(name) {
            "\n    "@ + render_task(s.last(), now)
        } else {
            Seq::<char>::empty()
        })
    }
}

/// One board's section: header with counter, then the member lines.
pub open spec fn board_section(s: Seq<TaskV>, name: Seq<char>, now: i64) -> Seq<char> {
    " "@ + name + " ["@ + dec_digits(completed_on(s, name)) + "/"@ + dec_digits(total_on(s, name))
        + "]"@ + board_lines(s, name, now) + "\n"@
}

/// The sections of every board but the default one, in list order.
pub open spec fn render_rest(s: Seq<TaskV>, bs: Seq<Seq<char>>, now: i64) -> Seq<char>
    decreases bs.len(),
{
    if bs.len() == 0 {
        Seq::empty()
    } else {
        render_rest(s, bs.drop_last(), now) + (if bs.last() == "My Board"@ {
            Seq::<char>::empty()
        } else {
            board_section(s, bs.last(), now)
        })
    }
}

/// The whole report: the default board first when present, then the
/// remaining boards in ascending name order.
pub open spec fn render_store(s: Seq<TaskV>, now: i64) -> Seq<char> {
    let bs = collect_boards(s);
    (if bs.contains("My Board"@) {
        board_section(s, "My Board"@, now)
    } else {
        Seq::<char>::empty()
    }) + render_rest(s, bs, now)
}

/// One record's display line.
fn render_task_exec(t: &crate::task::Task, now: i64) -> (r: String)
    ensures
        r@ == render_task(t@, now),
{
    let mut r = u64_to_string(t.get_id());
    r.append(". ");
    if t.is_note() {
        r.append("\u{25cf}");
    } else if t.is_complete() {
        r.append("\u{2713}");
    } else if t.is_in_progress() {
        r.append("\u{2234}");
    } else {
        r.append("\u{2610}");
    }
    r.append(" ");
    r.append(t.get_description().as_str());
    match t.get_priority() {
        Some(p) => {
            if p == 2 {
                r.append(" (!)");
            } else if p == 3 {
                r.append(" (!!)");
            }
        },
        None => {},
    }
    r.append(" ");
    let ts = t.get_timestamp();
    let diff: i128 = (now as i128) - (ts as i128);
    if diff >= 86400000i128 {
        let du = diff as u64;
        proof {
            assert(du == now - ts);
            assert(du / 86400000u64 == ((now - ts) / 86400000) as u64);
        }
        let days = du / 86400000u64;
        let ds = u64_to_string(days);
        r.append(ds.as_str());
        r.append("d ");
    }
    if t.is_starred() {
        r.append("\u{066d}");
    }
    proof {
        assert(r@ =~= render_task(t@, now));
    }
    r
}

impl TaskList {
    /// One board's section of the report.
    fn board_section_exec(&self, name: &str, now: i64) -> (r: String)
        requires
            self.wf(),
        ensures
            r@ == board_section(self@, name@, now),
    {
        let n = self.len();
        let mut completed: u64 = 0;
        let mut total: u64 = 0;
        let mut lines = String::new();
        let mut i: usize = 0;
        while i < n
            invariant
                self.wf(),
                i <= n,
                n == self@.len(),
                completed == completed_on(self@.take(i as int), name@),
                total == total_on(self@.take(i as int), name@),
                completed <= i,
                total <= i,
                lines@ == board_lines(self@.take(i as int), name@, now),
            decreases n - i,
        {
            let t = self.task_ref(i);
            let boards = t.get_boards();
            let mut member = false;
            let mut k: usize = 0;
            while k < boards.len()
                invariant
                    k <= boards@.len(),
                    boards@.map_values(|b: String| b@) == t@.boards,
                    boards@.len() == t@.boards.len(),
                    forall|q: int| 0 <= q < boards@.len() ==> #[trigger] boards@[q]@
                        == t@.boards[q],
                    member == exists|q: int| 0 <= q < k && t@.boards[q] == name@,
                decreases boards@.len() - k,
            {
                if name_eq_exec(boards[k].as_str(), name) {
                    proof {
                        assert(t@.boards[k as int] == name@);
                    }
                    member = true;
                }
                k += 1;
            }
            proof {
                assert(member == t@.boards.contains(name@));
                assert(self@.take(i + 1).drop_last() =~= self@.take(i as int));
                assert(self@.take(i + 1).last() == self@[i as int]);
            }
            if member {
                total = total + 1;
                if t.is_complete() {
                    completed = completed + 1;
                }
                lines.append("\n    ");
                let line = render_task_exec(t, now);
                lines.append(line.as_str());
            }
            i += 1;
        }
        proof {
            assert(self@.take(n as int) =~= self@);
        }
        let mut r = String::from_str(" ");
        r.append(name);
        r.append(" [");
        let cs = u64_to_string(completed);
        r.append(cs.as_str());
        r.append("/");
        let tts = u64_to_string(total);
        r.append(tts.as_str());
        r.append("]");
        r.append(lines.as_str());
        r.append("\n");
        proof {
            assert(r@ =~= board_section(self@, name@, now));
        }
        r
    }

    /// The whole report for a given instant.
    pub fn board_view_at(&self, now: i64) -> (r: String)
        requires
            self.wf(),
        ensures
            r@ == render_store(self@, now),
    {
        proof {
            reveal_strlit("My Board");
        }
        let n = self.len();
        let mut boards: Vec<String> = Vec::new();
        let mut i: usize = 0;
        proof {
            assert(boards@.map_values(|b: String| b@) =~= Seq::<Seq<char>>::empty());
            assert(collect_from(boards@.map_values(|b: String| b@), self@.skip(0))
                == collect_boards(self@)) by {
                assert(self@.skip(0) =~= self@);
            }
        }
        while i < n
            invariant
                self.wf(),
                i <= n,
                n == self@.len(),
                collect_boards(self@) == collect_from(
                    boards@.map_values(|b: String| b@),
                    self@.skip(i as int),
                ),
            decreases n - i,
        {
            let t = self.task_ref(i);
            let tb = t.get_boards();
            let ghost rem = self@.skip(i as int);
            proof {
                assert(rem[0] == self@[i as int]);
                assert(rem.drop_first() =~= self@.skip(i as int + 1));
            }
            let ghost b0 = boards@.map_values(|b: String| b@);
            proof {
                assert(self@[i as int].boards.skip(0) =~= self@[i as int].boards);
            }
            let mut k: usize = 0;
            while k < tb.len()
                invariant
                    k <= tb@.len(),
                    tb@.map_values(|b: String| b@) == self@[i as int].boards,
                    tb@.len() == self@[i as int].boards.len(),
                    forall|q: int|
                        0 <= q < tb@.len() ==> #[trigger] tb@[q]@ == self@[i as int].boards[q],
                    i < n == self@.len(),
                    add_boards(
                        boards@.map_values(|b: String| b@),
                        self@[i as int].boards.skip(k as int),
                    ) == add_boards(b0, self@[i as int].boards),
                decreases tb@.len() - k,
            {
                let ghost bl = boards@.map_values(|b: String| b@);
                let ghost brem = self@[i as int].boards.skip(k as int);
                proof {
                    assert(brem[0] == self@[i as int].boards[k as int]);
                    assert(brem.drop_first() =~= self@[i as int].boards.skip(k as int + 1));
                }
                let name = &tb[k];
                let mut pos: usize = 0;
                let mut dup = false;
                let mut ins: usize = boards.len();
                let mut found = false;
                while pos < boards.len()
                    invariant
                        pos <= boards@.len(),
                        bl == boards@.map_values(|b: String| b@),
                        bl.len() == boards@.len(),
                        forall|q: int| 0 <= q < bl.len() ==> #[trigger] boards@[q]@ == bl[q],
                        name@ == self@[i as int].boards[k as int],
                        !found ==> forall|q: int| 0 <= q < pos ==> bl[q] != name@ && !name_lt(
                            name@,
                            #[trigger] bl[q],
                        ),
                        found ==> ins < bl.len() && (forall|q: int|
                            0 <= q < ins ==> #[trigger] bl[q] != name@ && !name_lt(name@, bl[q]))
                            && (dup ==> bl[ins as int] == name@) && (!dup ==> name_lt(
                            name@,
                            bl[ins as int],
                        ) && bl[ins as int] != name@),
                        found ==> pos >= boards@.len(),
                        !found ==> ins == boards@.len() && !dup,
                    decreases boards@.len() - pos,
                {
                    if name_eq_exec(name.as_str(), boards[pos].as_str()) {
                        dup = true;
                        ins = pos;
                        found = true;
                        proof {
                            assert(bl[pos as int] == name@);
                        }
                        pos = boards.len();
                    } else if name_lt_exec(name.as_str(), boards[pos].as_str()) {
                        ins = pos;
                        found = true;
                        pos = boards.len();
                    } else {
                        pos += 1;
                    }
                }
                if !dup {
                    boards.insert(ins, name.clone());
                }
                proof {
                    let bl2 = boards@.map_values(|b: String| b@);
                    assert(bl2 =~= spec_ins_result(bl, name@, ins as int, dup));
                    lemma_ins_board_at(bl, name@, ins as int, dup);
                    assert(bl2 == ins_board(bl, name@));
                }
                k += 1;
            }
            i += 1;
            proof {
                assert(add_boards(
                    boards@.map_values(|b: String| b@),
                    self@[i - 1].boards.skip(self@[i - 1].boards.len() as int),
                ) == boards@.map_values(|b: String| b@)) by {
                    assert(self@[i - 1].boards.skip(self@[i - 1].boards.len() as int)
                        =~= Seq::<Seq<char>>::empty());
                }
            }
        }
        proof {
            assert(self@.skip(n as int) =~= Seq::<TaskV>::empty());
            assert(collect_boards(self@) == boards@.map_values(|b: String| b@));
        }
        let ghost bs = collect_boards(self@);
        let mut output = String::new();
        let mut has_mb = false;
        let mut m: usize = 0;
        while m < boards.len()
            invariant
                bs == boards@.map_values(|b: String| b@),
                bs.len() == boards@.len(),
                forall|q: int| 0 <= q < bs.len() ==> #[trigger] boards@[q]@ == bs[q],
                m <= boards@.len(),
                has_mb == exists|q: int| 0 <= q < m && bs[q] == "My Board"@,
            decreases boards@.len() - m,
        {
            if name_eq_exec(boards[m].as_str(), "My Board") {
                proof {
                    assert(bs[m as int] == "My Board"@);
                }
                has_mb = true;
            }
            m += 1;
        }
        proof {
            assert(has_mb == bs.contains("My Board"@));
        }
        if has_mb {
            let sec = self.board_section_exec("My Board", now);
            output.append(sec.as_str());
        }
        let mut w: usize = 0;
        while w < boards.len()
            invariant
                self.wf(),
                bs == boards@.map_values(|b: String| b@),
                bs.len() == boards@.len(),
                forall|q: int| 0 <= q < bs.len() ==> #[trigger] boards@[q]@ == bs[q],
                w <= boards@.len(),
                output@ == (if bs.contains("My Board"@) {
                    board_section(self@, "My Board"@, now)
                } else {
                    Seq::<char>::empty()
                }) + render_rest(self@, bs.take(w as int), now),
            decreases boards@.len() - w,
        {
            proof {
                reveal_strlit("My Board");
                assert(bs.take(w + 1).drop_last() =~= bs.take(w as int));
                assert(bs.take(w + 1).last() == bs[w as int]);
            }
            if !name_eq_exec(boards[w].as_str(), "My Board") {
                let sec = self.board_section_exec(boards[w].as_str(), now);
                output.append(sec.as_str());
            }
            w += 1;
        }
        proof {
            assert(bs.take(boards@.len() as int) =~= bs);
        }
        output
    }

    /// The whole report, for the instant the clock reports.
    pub fn board_view(&self) -> (r: String)
        requires
            self.wf(),
        ensures
            exists|now: i64| r@ == render_store(self@, now),
    {
        let now = crate::clock::now_timestamp_millis();
        let r = self.board_view_at(now);
        proof {
            assert(r@ == render_store(self@, now));
        }
        r
    }
}

/// The list after one scan-based insertion.
pub open spec fn spec_ins_result(bl: Seq<Seq<char>>, name: Seq<char>, ins: int, dup: bool) -> Seq<
    Seq<char>,
> {
    if dup {
        bl
    } else {
        bl.insert(ins, name)
    }
}

proof fn lemma_ins_board_at(bl: Seq<Seq<char>>, name: Seq<char>, ins: int, dup: bool)
    requires
        0 <= ins <= bl.len(),
        forall|q: int| 0 <= q < ins ==> #[trigger] bl[q] != name && !name_lt(name, bl[q]),
        dup ==> ins < bl.len() && bl[ins] == name,
        !dup && ins < bl.len() ==> name_lt(name, bl[ins]) && bl[ins] != name,
    ensures
        spec_ins_result(bl, name, ins, dup) == ins_board(bl, name),
    decreases bl.len(),
{
    if bl.len() == 0 {
        assert(bl.insert(0, name) =~= seq![name]);
    } else {
        if ins == 0 {
            if dup {
                assert(bl[0] == name);
                assert(ins_board(bl, name) == bl);
            } else {
                assert(name_lt(name, bl[0]));
                assert(bl.insert(0, name) =~= seq![name] + bl);
            }
        } else {
            assert(bl[0] != name && !name_lt(name, bl[0]));
            let bl1 = bl.drop_first();
            assert forall|q: int| 0 <= q < ins - 1 implies #[trigger] bl1[q] != name && !name_lt(
                name,
                bl1[q],
            ) by {
                assert(bl1[q] == bl[q + 1]);
            }
            if dup {
                assert(bl1[ins - 1] == bl[ins]);
            }
            if !dup && ins - 1 < bl1.len() {
                assert(bl1[ins - 1] == bl[ins]);
            }
            lemma_ins_board_at(bl1, name, ins - 1, dup);
            if dup {
                assert(ins_board(bl, name) == seq![bl[0]] + ins_board(bl1, name));
                assert(seq![bl[0]] + bl1 =~= bl);
            } else {
                assert(ins_board(bl, name) == seq![bl[0]] + ins_board(bl1, name));
                assert(seq![bl[0]] + bl1.insert(ins - 1, name) =~= bl.insert(ins, name));
            }
        }
    }
}

} // verus!
