//! The record type: a task or a note, with its boards, flags, and the
//! flag-flip transition.

use vstd::prelude::*;

verus! {

/// The flag a flip addresses: Begin toggles in-progress, Check toggles
/// completion, Star toggles the star marker.
#[derive(Clone, Copy)]
pub enum TaskFlag {
    Begin,
    Check,
    Star,
}

/// What distinguishes a task from a note: a task carries completion,
/// progress, and a priority; a note carries none of the three.
pub enum KindV {
    Todo { complete: bool, in_progress: bool, priority: u8 },
    Note,
}

/// The mathematical model of one record.
pub struct TaskV {
    pub id: u64,
    pub date: Seq<char>,
    pub timestamp: i64,
    pub description: Seq<char>,
    pub starred: bool,
    pub boards: Seq<Seq<char>>,
    pub kind: KindV,
}

/// A record: an actionable task or a plain note, kept in a store under its
/// id. The task-versus-note distinction is a tagged variant, so a task has
/// completion, progress, and priority all present and a note has none.
pub struct Task {
    id: u64,
    date: String,
    timestamp: i64,
    description: String,
    starred: bool,
    boards: Vec<String>,
    kind: Kind,
}

/// The stored form of the task-versus-note split.
pub enum Kind {
    Todo { complete: bool, in_progress: bool, priority: u8 },
    Note,
}

impl View for Task {
    type V = TaskV;

    closed spec fn view(&self) -> TaskV {
        TaskV {
            id: self.id,
            date: self.date@,
            timestamp: self.timestamp,
            description: self.description@,
            starred: self.starred,
            boards: self.boards@.map_values(|b: String| b@),
            kind: match self.kind {
                Kind::Todo { complete, in_progress, priority } => KindV::Todo {
                    complete,
                    in_progress,
                    priority,
                },
                Kind::Note => KindV::Note,
            },
        }
    }
}

/// Well-formedness of one record: the board list is never empty, and a
/// task's priority is one of 1, 2, 3.
pub open spec fn task_wf(t: TaskV) -> bool {
    &&& t.boards.len() >= 1
    &&& match t.kind {
        KindV::Todo { priority, .. } => 1 <= priority <= 3,
        KindV::Note => true,
    }
}

pub open spec fn is_note_v(t: TaskV) -> bool {
    t.kind is Note
}

pub open spec fn is_complete_v(t: TaskV) -> bool {
    match t.kind {
        KindV::Todo { complete, .. } => complete,
        KindV::Note => false,
    }
}

/// The flag-flip transition on the model: the record after the flip, and
/// the reported outcome (the new flag value, or nothing for a flag a note
/// does not carry).
pub open spec fn spec_flip(t: TaskV, flag: TaskFlag) -> (TaskV, Option<bool>) {
    match flag {
        TaskFlag::Begin => match t.kind {
            KindV::Todo { complete, in_progress, priority } => {
                if in_progress {
                    (
                        TaskV {
                            kind: KindV::Todo { complete, in_progress: false, priority },
                            ..t
                        },
                        Some(false),
                    )
                } else {
                    (
                        TaskV {
                            kind: KindV::Todo { complete: false, in_progress: true, priority },
                            ..t
                        },
                        Some(true),
                    )
                }
            },
            KindV::Note => (t, None),
        },
        TaskFlag::Check => match t.kind {
            KindV::Todo { complete, in_progress, priority } => {
                if complete {
                    (
                        TaskV {
                            kind: KindV::Todo { complete: false, in_progress, priority },
                            ..t
                        },
                        Some(false),
                    )
                } else {
                    (
                        TaskV {
                            kind: KindV::Todo { complete: true, in_progress: false, priority },
                            ..t
                        },
                        Some(true),
                    )
                }
            },
            KindV::Note => (t, None),
        },
        TaskFlag::Star => (TaskV { starred: !t.starred, ..t }, Some(!t.starred)),
    }
}

/// Two flips of the same flag restore the record, provided the flag being
/// turned on does not force the other flag off: Begin twice requires the
/// record not to be complete, and Check twice requires it not to be in
/// progress. (Begin twice on a complete task ends with completion cleared.)
pub proof fn lemma_flip_twice_restores(t: TaskV, flag: TaskFlag)
    requires
        flag is Begin ==> !is_complete_v(t),
        flag is Check ==> match t.kind {
            KindV::Todo { in_progress, .. } => !in_progress,
            KindV::Note => true,
        },
    ensures
        spec_flip(spec_flip(t, flag).0, flag).0 == t,
{
}

/// Flipping any flag on a note leaves the note unchanged and reports
/// nothing.
pub proof fn lemma_flip_note_noop(t: TaskV, flag: TaskFlag)
    requires
        is_note_v(t),
        flag is Begin || flag is Check,
    ensures
        spec_flip(t, flag) == (t, Option::<bool>::None),
{
}

impl Task {
    /// Builds a record from its parts; an empty board list falls back to
    /// the default board. The caller supplies the creation date and
    /// timestamp.
    pub fn new_at(
        description: String,
        boards: Vec<String>,
        id: u64,
        is_note: bool,
        date: String,
        timestamp: i64,
    ) -> (r: Task)
        ensures
            task_wf(r@),
            r@.id == id,
            r@.description == description@,
            r@.date == date@,
            r@.timestamp == timestamp,
            !r@.starred,
            is_note ==> r@.kind == KindV::Note,
            !is_note ==> r@.kind == (KindV::Todo { complete: false, in_progress: false, priority: 1 }),
            boards@.len() >= 1 ==> r@.boards == boards@.map_values(|b: String| b@),
            boards@.len() == 0 ==> r@.boards == seq!["My Board"@],
    {
        let mut boards = boards;
        if boards.len() == 0 {
            proof {
                reveal_strlit("My Board");
            }
            boards.push(String::from_str("My Board"));
            proof {
                assert(boards@.map_values(|b: String| b@) =~= seq!["My Board"@]);
            }
        }
        let kind = if is_note {
            Kind::Note
        } else {
            Kind::Todo { complete: false, in_progress: false, priority: 1 }
        };
        Task { id, date, timestamp, description, starred: false, boards, kind }
    }

    /// Builds a record dated now. The clock decides the date and timestamp
    /// fields; everything else is as `new_at` states.
    pub fn new(description: String, boards: Vec<String>, id: u64, is_note: bool) -> (r: Task)
        ensures
            task_wf(r@),
            r@.id == id,
            r@.description == description@,
            !r@.starred,
            is_note ==> r@.kind == KindV::Note,
            !is_note ==> r@.kind == (KindV::Todo { complete: false, in_progress: false, priority: 1 }),
            boards@.len() >= 1 ==> r@.boards == boards@.map_values(|b: String| b@),
            boards@.len() == 0 ==> r@.boards == seq!["My Board"@],
    {
        let date = crate::clock::today_date_string();
        let timestamp = crate::clock::now_timestamp_millis();
        Task::new_at(description, boards, id, is_note, date, timestamp)
    }

    pub fn get_boards(&self) -> (r: Vec<String>)
        ensures
            r@.map_values(|b: String| b@) == self@.boards,
    {
        let mut r: Vec<String> = Vec::new();
        let mut i: usize = 0;
        while i < self.boards.len()
            invariant
                i <= self.boards.len(),
                r@.len() == i,
                forall|j: int| 0 <= j < i ==> #[trigger] r@[j]@ == self.boards@[j]@,
            decreases self.boards.len() - i,
        {
            let b = self.boards[i].clone();
            r.push(b);
            i += 1;
        }
        proof {
            assert(r@.map_values(|b: String| b@) =~= self@.boards);
        }
        r
    }

    pub fn set_boards(&mut self, boards: Vec<String>)
        ensures
            final(self)@ == (TaskV { boards: boards@.map_values(|b: String| b@), ..old(self)@ }),
    {
        self.boards = boards;
    }

    pub fn get_id(&self) -> (r: u64)
        ensures
            r == self@.id,
    {
        self.id
    }

    pub fn set_id(&mut self, id: u64)
        ensures
            final(self)@ == (TaskV { id, ..old(self)@ }),
    {
        self.id = id;
    }

    pub fn get_description(&self) -> (r: &String)
        ensures
            r@ == self@.description,
    {
        &self.description
    }

    pub fn set_description(&mut self, description: String)
        ensures
            final(self)@ == (TaskV { description: description@, ..old(self)@ }),
    {
        self.description = description;
    }

    pub fn is_note(&self) -> (r: bool)
        ensures
            r == is_note_v(self@),
    {
        match self.kind {
            Kind::Note => true,
            Kind::Todo { .. } => false,
        }
    }

    pub fn is_complete(&self) -> (r: bool)
        ensures
            r == is_complete_v(self@),
    {
        match self.kind {
            Kind::Todo { complete, .. } => complete,
            Kind::Note => false,
        }
    }

    pub fn is_in_progress(&self) -> (r: bool)
        ensures
            r == match self@.kind {
                KindV::Todo { in_progress, .. } => in_progress,
                KindV::Note => false,
            },
    {
        match self.kind {
            Kind::Todo { in_progress, .. } => in_progress,
            Kind::Note => false,
        }
    }

    pub fn is_starred(&self) -> (r: bool)
        ensures
            r == self@.starred,
    {
        self.starred
    }

    pub fn get_priority(&self) -> (r: Option<u8>)
        ensures
            r == match self@.kind {
                KindV::Todo { priority, .. } => Some(priority),
                KindV::Note => None::<u8>,
            },
    {
        match self.kind {
            Kind::Todo { priority, .. } => Some(priority),
            Kind::Note => None,
        }
    }

    pub fn get_date(&self) -> (r: &String)
        ensures
            r@ == self@.date,
    {
        &self.date
    }

    pub fn get_timestamp(&self) -> (r: i64)
        ensures
            r == self@.timestamp,
    {
        self.timestamp
    }

    /// Applies one flag flip and reports the resulting flag value, or
    /// nothing when a note is asked to begin or complete.
    pub fn flip_flag(&mut self, flag: TaskFlag) -> (r: Option<bool>)
        ensures
            final(self)@ == spec_flip(old(self)@, flag).0,
            r == spec_flip(old(self)@, flag).1,
    {
        match flag {
            TaskFlag::Begin => {
                match self.kind {
                    Kind::Todo { complete, in_progress, priority } => {
                        if in_progress {
                            self.kind = Kind::Todo { complete, in_progress: false, priority };
                            Some(false)
                        } else {
                            self.kind = Kind::Todo { complete: false, in_progress: true, priority };
                            Some(true)
                        }
                    },
                    Kind::Note => None,
                }
            },
            TaskFlag::Check => {
                match self.kind {
                    Kind::Todo { complete, in_progress, priority } => {
                        if complete {
                            self.kind = Kind::Todo { complete: false, in_progress, priority };
                            Some(false)
                        } else {
                            self.kind = Kind::Todo { complete: true, in_progress: false, priority };
                            Some(true)
                        }
                    },
                    Kind::Note => None,
                }
            },
            TaskFlag::Star => {
                self.starred = !self.starred;
                Some(self.starred)
            },
        }
    }

    pub fn set_priority(&mut self, priority: u8)
        ensures
            final(self)@ == (TaskV {
                kind: match old(self)@.kind {
                    KindV::Todo { complete, in_progress, .. } => KindV::Todo {
                        complete,
                        in_progress,
                        priority,
                    },
                    KindV::Note => KindV::Note,
                },
                ..old(self)@
            }),
    {
        match self.kind {
            Kind::Todo { complete, in_progress, .. } => {
                self.kind = Kind::Todo { complete, in_progress, priority };
            },
            Kind::Note => {},
        }
    }

    /// Assembles a record from every field, as read back from storage.
    pub(crate) fn from_parts(
        id: u64,
        date: String,
        timestamp: i64,
        description: String,
        starred: bool,
        boards: Vec<String>,
        is_task: bool,
        complete: bool,
        in_progress: bool,
        priority: u8,
    ) -> (r: Task)
        ensures
            r@ == (TaskV {
                id,
                date: date@,
                timestamp,
                description: description@,
                starred,
                boards: boards@.map_values(|b: String| b@),
                kind: if is_task {
                    KindV::Todo { complete, in_progress, priority }
                } else {
                    KindV::Note
                },
            }),
    {
        let kind = if is_task {
            Kind::Todo { complete, in_progress, priority }
        } else {
            Kind::Note
        };
        Task { id, date, timestamp, description, starred, boards, kind }
    }

    /// A field-for-field copy of the record.
    pub fn duplicate(&self) -> (r: Task)
        ensures
            r@ == self@,
    {
        Task {
            id: self.id,
            date: self.date.clone(),
            timestamp: self.timestamp,
            description: self.description.clone(),
            starred: self.starred,
            boards: self.get_boards(),
            kind: match self.kind {
                Kind::Todo { complete, in_progress, priority } => Kind::Todo {
                    complete,
                    in_progress,
                    priority,
                },
                Kind::Note => Kind::Note,
            },
        }
    }
}

} // verus!
