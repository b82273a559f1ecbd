//! The task store: a list of records kept in strictly ascending id order,
//! with id allocation, lookup, insertion, and batch removal.
//!
//! Ids are compared numerically. Within one store ids are unique, which
//! the ascending order enforces structurally.

use vstd::prelude::*;
use crate::task::{Task, TaskV, task_wf};

verus! {

/// The records stand in strictly ascending id order, so ids are unique.
pub open spec fn store_sorted(s: Seq<TaskV>) -> bool {
    forall|i: int, j: int| 0 <= i < j < s.len() ==> s[i].id < s[j].id
}

/// A well-formed store: sorted, and every record well formed.
pub open spec fn store_wf(s: Seq<TaskV>) -> bool {
    &&& store_sorted(s)
    &&& forall|i: int| 0 <= i < s.len() ==> task_wf(#[trigger] s[i])
}

/// Whether some record carries an id.
pub open spec fn contains_id(s: Seq<TaskV>, id: u64) -> bool {
    exists|i: int| 0 <= i < s.len() && s[i].id == id
}

/// The position of the record carrying an id.
pub open spec fn idx_of(s: Seq<TaskV>, id: u64) -> int {
    choose|i: int| 0 <= i < s.len() && s[i].id == id
}

/// The record under an id.
pub open spec fn task_at(s: Seq<TaskV>, id: u64) -> TaskV
    recommends
        contains_id(s, id),
{
    s[idx_of(s, id)]
}

/// The store without the record under an id.
pub open spec fn remove_id(s: Seq<TaskV>, id: u64) -> Seq<TaskV>
    recommends
        contains_id(s, id),
{
    s.remove(idx_of(s, id))
}

/// The smallest id that is not in use.
pub open spec fn is_least_free(s: Seq<TaskV>, n: u64) -> bool {
    &&& !contains_id(s, n)
    &&& forall|k: u64| k < n ==> contains_id(s, k)
}

/// The id the store hands out next.
pub open spec fn least_free(s: Seq<TaskV>) -> u64 {
    choose|n: u64| is_least_free(s, n)
}

/// The position a record with this id takes in a sorted store: the count
/// of leading records with smaller ids.
pub open spec fn ins_pos(s: Seq<TaskV>, id: u64) -> int
    decreases s.len(),
{
    if s.len() == 0 {
        0
    } else if s[0].id < id {
        1 + ins_pos(s.drop_first(), id)
    } else {
        0
    }
}

/// Insertion into a sorted store: a record with the same id is replaced,
/// otherwise the record takes its ordered position.
pub open spec fn spec_insert(s: Seq<TaskV>, t: TaskV) -> Seq<TaskV> {
    let p = ins_pos(s, t.id);
    if p < s.len() && s[p].id == t.id {
        s.update(p, t)
    } else {
        s.insert(p, t)
    }
}

pub proof fn lemma_ins_pos(s: Seq<TaskV>, id: u64)
    requires
        store_sorted(s),
    ensures
        0 <= ins_pos(s, id) <= s.len(),
        forall|i: int| 0 <= i < ins_pos(s, id) ==> s[i].id < id,
        forall|i: int| ins_pos(s, id) <= i < s.len() ==> s[i].id >= id,
    decreases s.len(),
{
    if s.len() > 0 && s[0].id < id {
        let s2 = s.drop_first();
        assert(store_sorted(s2)) by {
            assert forall|i: int, j: int| 0 <= i < j < s2.len() implies s2[i].id < s2[j].id by {
                assert(s2[i] == s[i + 1]);
                assert(s2[j] == s[j + 1]);
            }
        }
        lemma_ins_pos(s2, id);
        assert forall|i: int| 0 <= i < ins_pos(s, id) implies s[i].id < id by {
            if i > 0 {
                assert(s2[i - 1] == s[i]);
            }
        }
        assert forall|i: int| ins_pos(s, id) <= i < s.len() implies s[i].id >= id by {
            assert(s2[i - 1] == s[i]);
        }
    } else if s.len() > 0 {
        assert forall|i: int| 0 <= i < s.len() implies s[i].id >= id by {
            if i > 0 {
                assert(s[0].id < s[i].id);
            }
        }
    }
}

pub proof fn lemma_spec_insert(s: Seq<TaskV>, t: TaskV)
    requires
        store_sorted(s),
    ensures
        store_sorted(spec_insert(s, t)),
        contains_id(spec_insert(s, t), t.id),
        task_at(spec_insert(s, t), t.id) == t,
        forall|id: u64| id != t.id ==> (contains_id(spec_insert(s, t), id) <==> contains_id(
            s,
            id,
        )),
        forall|id: u64| id != t.id && contains_id(s, id) ==> task_at(spec_insert(s, t), id)
            == task_at(s, id),
        spec_insert(s, t).len() == if contains_id(s, t.id) {
            s.len()
        } else {
            s.len() + 1
        },
{
    lemma_ins_pos(s, t.id);
    let p = ins_pos(s, t.id);
    let r = spec_insert(s, t);
    if p < s.len() && s[p].id == t.id {
        assert forall|i: int, j: int| 0 <= i < j < r.len() implies r[i].id < r[j].id by {}
        assert(r[p] == t);
        assert(contains_id(r, t.id));
        assert(idx_of(r, t.id) == p) by {
            let q = idx_of(r, t.id);
            if q != p {
                assert(r[q].id == r[p].id);
            }
        }
        assert(contains_id(s, t.id));
        assert forall|id: u64| id != t.id && contains_id(s, id) implies contains_id(r, id)
            && task_at(r, id) == task_at(s, id) by {
            let q = idx_of(s, id);
            assert(r[q] == s[q]);
            assert(contains_id(r, id));
            let q2 = idx_of(r, id);
            if q2 != q {
                assert(r[q2].id == r[q].id);
            }
        }
        assert forall|id: u64| id != t.id && contains_id(r, id) implies contains_id(s, id) by {
            let q = idx_of(r, id);
            assert(s[q] == r[q]);
        }
    } else {
        assert(!contains_id(s, t.id)) by {
            if contains_id(s, t.id) {
                let q = idx_of(s, t.id);
            }
        }
        assert forall|i: int, j: int| 0 <= i < j < r.len() implies r[i].id < r[j].id by {
            assert(r[p] == t);
        }
        assert(r[p] == t);
        assert(contains_id(r, t.id));
        assert(idx_of(r, t.id) == p) by {
            let q = idx_of(r, t.id);
            if q != p {
                assert(r[q].id == r[p].id);
            }
        }
        assert forall|id: u64| id != t.id && contains_id(s, id) implies contains_id(r, id)
            && task_at(r, id) == task_at(s, id) by {
            let q = idx_of(s, id);
            let q2: int = if q < p {
                q
            } else {
                q + 1
            };
            assert(r[q2] == s[q]);
            assert(contains_id(r, id));
            let q3 = idx_of(r, id);
            if q3 != q2 {
                assert(r[q3].id == r[q2].id);
            }
        }
        assert forall|id: u64| id != t.id && contains_id(r, id) implies contains_id(s, id) by {
            let q = idx_of(r, id);
            if q < p {
                assert(s[q] == r[q]);
            } else {
                assert(q != p);
                assert(s[q - 1] == r[q]);
            }
        }
    }
}

pub proof fn lemma_spec_insert_wf(s: Seq<TaskV>, t: TaskV)
    requires
        store_wf(s),
        task_wf(t),
    ensures
        store_wf(spec_insert(s, t)),
{
    lemma_ins_pos(s, t.id);
    lemma_spec_insert(s, t);
    let p = ins_pos(s, t.id);
    let r = spec_insert(s, t);
    assert forall|i: int| 0 <= i < r.len() implies task_wf(r[i]) by {
        if p < s.len() && s[p].id == t.id {
            assert(i == p || r[i] == s[i]);
        } else {
            if i < p {
                assert(r[i] == s[i]);
            } else if i > p {
                assert(r[i] == s[i - 1]);
            }
        }
    }
}

pub proof fn lemma_remove_id(s: Seq<TaskV>, id: u64)
    requires
        store_sorted(s),
        contains_id(s, id),
    ensures
        store_sorted(remove_id(s, id)),
        remove_id(s, id).len() == s.len() - 1,
        !contains_id(remove_id(s, id), id),
        forall|x: u64| x != id ==> (contains_id(remove_id(s, id), x) <==> contains_id(s, x)),
        forall|x: u64| x != id && contains_id(s, x) ==> task_at(remove_id(s, id), x) == task_at(
            s,
            x,
        ),
        (forall|i: int| 0 <= i < s.len() ==> task_wf(#[trigger] s[i])) ==> (forall|i: int|
            0 <= i < remove_id(s, id).len() ==> task_wf(#[trigger] remove_id(s, id)[i])),
{
    let q = idx_of(s, id);
    let r = remove_id(s, id);
    assert(0 <= q < s.len() && s[q].id == id);
    assert forall|i: int| 0 <= i < r.len() implies r[i] == (if i < q {
        s[i]
    } else {
        s[i + 1]
    }) by {}
    if contains_id(r, id) {
        let w = idx_of(r, id);
        assert(r[w].id == id);
        if w < q {
            assert(s[w].id == s[q].id);
        } else {
            assert(s[w + 1].id == s[q].id);
        }
    }
    assert forall|x: u64| x != id && contains_id(s, x) implies contains_id(r, x) && task_at(
        r,
        x,
    ) == task_at(s, x) by {
        let w = idx_of(s, x);
        let w2: int = if w < q {
            w
        } else {
            w - 1
        };
        assert(r[w2] == s[w]);
        assert(contains_id(r, x));
        let w3 = idx_of(r, x);
        if w3 != w2 {
            assert(r[w3].id == r[w2].id);
        }
    }
    assert forall|x: u64| x != id && contains_id(r, x) implies contains_id(s, x) by {
        let w = idx_of(r, x);
        if w < q {
            assert(s[w] == r[w]);
        } else {
            assert(s[w + 1] == r[w]);
        }
    }
}

/// Two sorted stores holding the same records under the same ids are the
/// same store.
pub proof fn lemma_sorted_unique(a: Seq<TaskV>, b: Seq<TaskV>)
    requires
        store_sorted(a),
        store_sorted(b),
        forall|id: u64| contains_id(a, id) <==> contains_id(b, id),
        forall|id: u64| contains_id(a, id) ==> task_at(a, id) == task_at(b, id),
    ensures
        a == b,
    decreases a.len(),
{
    if a.len() == 0 {
        if b.len() > 0 {
            assert(contains_id(b, b[0].id));
            assert(contains_id(a, b[0].id));
            let q = idx_of(a, b[0].id);
            assert(false);
        }
        assert(a =~= b);
    } else {
        assert(contains_id(a, a[0].id));
        assert(contains_id(b, b[0].id));
        let i = idx_of(b, a[0].id);
        let j = idx_of(a, b[0].id);
        assert(b[i].id == a[0].id);
        assert(a[j].id == b[0].id);
        assert(b[0].id <= a[0].id);
        assert(a[0].id <= b[0].id);
        assert(a[0].id == b[0].id);
        assert(idx_of(a, a[0].id) == 0) by {
            let q = idx_of(a, a[0].id);
            if q != 0 {
                assert(a[q].id == a[0].id);
            }
        }
        assert(idx_of(b, a[0].id) == 0) by {
            let q = idx_of(b, a[0].id);
            if q != 0 {
                assert(b[q].id == b[0].id);
            }
        }
        assert(a[0] == task_at(a, a[0].id));
        assert(b[0] == task_at(b, a[0].id));
        assert(a[0] == b[0]);
        let a2 = a.drop_first();
        let b2 = b.drop_first();
        assert(store_sorted(a2));
        assert(store_sorted(b2));
        assert forall|id: u64| contains_id(a2, id) implies contains_id(b2, id) && task_at(
            a2,
            id,
        ) == task_at(b2, id) by {
            lemma_drop_first_contains(a, id);
            lemma_drop_first_contains(b, id);
        }
        assert forall|id: u64| contains_id(b2, id) implies contains_id(a2, id) by {
            lemma_drop_first_contains(b, id);
            lemma_drop_first_contains(a, id);
        }
        lemma_sorted_unique(a2, b2);
        assert forall|j: int| 0 <= j < a.len() implies a[j] == b[j] by {
            if j > 0 {
                assert(a2[j - 1] == a[j]);
                assert(b2[j - 1] == b[j]);
            }
        }
        assert(a =~= b);
    }
}

/// In a sorted store, membership and lookup restricted to the tail.
pub proof fn lemma_drop_first_contains(s: Seq<TaskV>, id: u64)
    requires
        store_sorted(s),
        s.len() > 0,
    ensures
        contains_id(s.drop_first(), id) <==> (contains_id(s, id) && id != s[0].id),
        contains_id(s.drop_first(), id) ==> task_at(s.drop_first(), id) == task_at(s, id),
{
    let s2 = s.drop_first();
    if contains_id(s2, id) {
        let q = idx_of(s2, id);
        assert(s2[q] == s[q + 1]);
        assert(contains_id(s, id));
        assert(s[q + 1].id == id);
        assert(s[0].id < s[q + 1].id);
        let w = idx_of(s, id);
        if w != q + 1 {
            assert(s[w].id == s[q + 1].id);
        }
        assert(task_at(s, id) == s[q + 1]);
        assert(task_at(s2, id) == s2[q]);
    }
    if contains_id(s, id) && id != s[0].id {
        let w = idx_of(s, id);
        assert(s[w].id == id);
        assert(w != 0);
        assert(s2[w - 1] == s[w]);
        assert(contains_id(s2, id));
    }
}

/// The store itself: records in strictly ascending id order.
pub struct TaskList {
    tasks: Vec<Task>,
}

impl View for TaskList {
    type V = Seq<TaskV>;

    closed spec fn view(&self) -> Seq<TaskV> {
        self.tasks@.map_values(|t: Task| t@)
    }
}

impl TaskList {
    /// The empty store.
    pub fn empty() -> (r: TaskList)
        ensures
            r@ =~= Seq::<TaskV>::empty(),
            store_wf(r@),
    {
        TaskList { tasks: Vec::new() }
    }

    pub open spec fn wf(&self) -> bool {
        store_wf(self@)
    }

    /// Wraps an already-ordered list of records.
    pub(crate) fn from_vec(tasks: Vec<Task>) -> (r: TaskList)
        ensures
            r@ == tasks@.map_values(|t: Task| t@),
    {
        TaskList { tasks }
    }

    pub fn len(&self) -> (r: usize)
        ensures
            r == self@.len(),
    {
        self.tasks.len()
    }

    /// The position of an id, found by scanning in order.
    pub(crate) fn find_index(&self, id: u64) -> (r: Option<usize>)
        requires
            self.wf(),
        ensures
            match r {
                Some(i) => i < self@.len() && self@[i as int].id == id && contains_id(self@, id)
                    && idx_of(self@, id) == i,
                None => !contains_id(self@, id),
            },
    {
        let mut i: usize = 0;
        while i < self.tasks.len()
            invariant
                self.wf(),
                i <= self@.len(),
                forall|j: int| 0 <= j < i ==> self@[j].id != id,
            decreases self@.len() - i,
        {
            if self.tasks[i].get_id() == id {
                proof {
                    assert(self@[i as int].id == id);
                    assert(contains_id(self@, id));
                    let q = idx_of(self@, id);
                    if q != i {
                        assert(self@[q].id == self@[i as int].id);
                    }
                }
                return Some(i);
            }
            i += 1;
        }
        proof {
            if contains_id(self@, id) {
                let q = idx_of(self@, id);
            }
        }
        None
    }

    /// A borrowed view of the record under an id, when present.
    pub fn get(&self, id: u64) -> (r: Option<&Task>)
        requires
            self.wf(),
        ensures
            match r {
                Some(t) => contains_id(self@, id) && t@ == task_at(self@, id),
                None => !contains_id(self@, id),
            },
    {
        match self.find_index(id) {
            Some(i) => Some(&self.tasks[i]),
            None => None,
        }
    }

    /// The smallest unused id: the first non-negative integer that is not
    /// an id of this store.
    pub fn get_new_id(&self) -> (r: u64)
        requires
            self.wf(),
        ensures
            is_least_free(self@, r),
            r == least_free(self@),
            r <= self@.len(),
    {
        let mut i: usize = 0;
        while i < self.tasks.len()
            invariant
                self.wf(),
                i <= self@.len(),
                forall|j: int| 0 <= j < i ==> self@[j].id == j,
            decreases self@.len() - i,
        {
            let id = self.tasks[i].get_id();
            proof {
                assert(self@[i as int].id == id);
                assert(i <= id) by {
                    if i > 0 {
                        assert(self@[i - 1].id < self@[i as int].id);
                    }
                    let k: int = i as int;
                    assert forall|j: int| 0 <= j < k implies self@[j].id < self@[k].id by {}
                    if id < i {
                        assert(self@[id as int].id == id);
                        assert(self@[id as int].id < self@[i as int].id);
                    }
                }
            }
            if id != i as u64 {
                proof {
                    assert(id > i as u64);
                    assert(!contains_id(self@, i as u64)) by {
                        if contains_id(self@, i as u64) {
                            let q = idx_of(self@, i as u64);
                            assert(self@[q].id == i as u64);
                            if q < i {
                                assert(self@[q].id == q);
                            } else {
                                assert(self@[i as int].id <= self@[q].id);
                            }
                        }
                    }
                    assert forall|k: u64| k < i as u64 implies contains_id(self@, k) by {
                        assert(self@[k as int].id == k);
                    }
                    lemma_least_free_unique(self@, i as u64);
                }
                return i as u64;
            }
            i += 1;
        }
        proof {
            assert(!contains_id(self@, i as u64)) by {
                if contains_id(self@, i as u64) {
                    let q = idx_of(self@, i as u64);
                    assert(self@[q].id == q);
                }
            }
            assert forall|k: u64| k < i as u64 implies contains_id(self@, k) by {
                assert(self@[k as int].id == k);
            }
            lemma_least_free_unique(self@, i as u64);
        }
        i as u64
    }

    /// Stores a record under its id, replacing any record already there.
    pub fn insert(&mut self, t: Task)
        requires
            old(self).wf(),
            task_wf(t@),
        ensures
            final(self).wf(),
            final(self)@ == spec_insert(old(self)@, t@),
    {
        proof {
            lemma_ins_pos(self@, t@.id);
            lemma_spec_insert(self@, t@);
            lemma_spec_insert_wf(self@, t@);
        }
        let ghost orig = self@;
        let ghost otasks = self.tasks@;
        let id = t.get_id();
        let mut i: usize = 0;
        while i < self.tasks.len()
            invariant
                self.wf(),
                self@ == orig,
                orig == old(self)@,
                self.tasks@ == otasks,
                t@.id == id,
                task_wf(t@),
                i <= self@.len(),
                forall|j: int| 0 <= j < i ==> self@[j].id < id,
            decreases self@.len() - i,
        {
            let cur = self.tasks[i].get_id();
            if cur == id {
                proof {
                    lemma_ins_pos(orig, id);
                    lemma_spec_insert(orig, t@);
                    lemma_spec_insert_wf(orig, t@);
                    assert(orig[i as int].id == id);
                    assert(ins_pos(orig, id) == i) by {
                        let p = ins_pos(orig, id);
                        if p < i {
                            assert(orig[p].id < id);
                            assert(orig[p].id >= id);
                        }
                        if p > i {
                            assert(orig[i as int].id < id);
                        }
                    }
                }
                self.tasks.remove(i);
                self.tasks.insert(i, t);
                proof {
                    assert(self.tasks@ =~= otasks.update(i as int, t));
                    assert forall|j: int| 0 <= j < self@.len() implies self@[j] == spec_insert(
                        orig,
                        t@,
                    )[j] by {
                        assert(spec_insert(orig, t@) == orig.update(i as int, t@));
                        assert(self@[j] == self.tasks@[j]@);
                    }
                    assert(self@ =~= spec_insert(orig, t@));
                }
                return ;
            } else if cur > id {
                proof {
                    lemma_ins_pos(orig, id);
                    lemma_spec_insert(orig, t@);
                    lemma_spec_insert_wf(orig, t@);
                    assert(orig[i as int].id > id);
                    assert(ins_pos(orig, id) == i) by {
                        let p = ins_pos(orig, id);
                        if p < i {
                            assert(orig[p].id < id);
                            assert(orig[p].id >= id);
                        }
                        if p > i {
                            assert(orig[i as int].id < id);
                        }
                    }
                    assert(!(ins_pos(orig, id) < orig.len() && orig[ins_pos(orig, id)].id == id));
                }
                self.tasks.insert(i, t);
                proof {
                    assert forall|j: int| 0 <= j < self@.len() implies self@[j] == spec_insert(
                        orig,
                        t@,
                    )[j] by {
                        assert(spec_insert(orig, t@) == orig.insert(i as int, t@));
                        assert(self@[j] == self.tasks@[j]@);
                        assert(self.tasks@ == otasks.insert(i as int, t));
                        if j < i {
                            assert(self.tasks@[j] == otasks[j]);
                            assert(orig.insert(i as int, t@)[j] == orig[j]);
                        } else if j == i {
                            assert(self.tasks@[j] == t);
                        } else {
                            assert(self.tasks@[j] == otasks[j - 1]);
                            assert(orig.insert(i as int, t@)[j] == orig[j - 1]);
                        }
                    }
                    assert(self@ =~= spec_insert(orig, t@));
                }
                return ;
            }
            i += 1;
        }
        proof {
            lemma_ins_pos(orig, id);
            lemma_spec_insert(orig, t@);
            lemma_spec_insert_wf(orig, t@);
            assert(ins_pos(orig, id) == orig.len()) by {
                let p = ins_pos(orig, id);
                if p < orig.len() {
                    assert(orig[p].id >= id);
                    assert(orig[p].id < id);
                }
            }
        }
        self.tasks.push(t);
        proof {
            assert forall|j: int| 0 <= j < self@.len() implies self@[j] == spec_insert(orig, t@)[j]
                by {
                assert(spec_insert(orig, t@) == orig.insert(orig.len() as int, t@));
                assert(self@[j] == self.tasks@[j]@);
                assert(self.tasks@ == otasks.push(t));
                if j < otasks.len() {
                    assert(self.tasks@[j] == otasks[j]);
                } else {
                    assert(self.tasks@[j] == t);
                }
                assert(orig.insert(orig.len() as int, t@) =~= orig.push(t@));
            }
            assert(self@ =~= spec_insert(orig, t@));
        }
    }

    /// Replaces the record at a position with one carrying the same id.
    pub(crate) fn replace_at(&mut self, i: usize, t: Task)
        requires
            old(self).wf(),
            i < old(self)@.len(),
            t@.id == old(self)@[i as int].id,
            task_wf(t@),
        ensures
            final(self).wf(),
            final(self)@ == old(self)@.update(i as int, t@),
    {
        let ghost otasks = self.tasks@;
        let ghost orig = self@;
        self.tasks.remove(i);
        self.tasks.insert(i, t);
        proof {
            assert(self.tasks@ =~= otasks.update(i as int, t));
            assert forall|j: int| 0 <= j < self@.len() implies self@[j] == orig.update(
                i as int,
                t@,
            )[j] by {
                assert(self@[j] == self.tasks@[j]@);
            }
            assert(self@ =~= orig.update(i as int, t@));
            assert forall|a: int, b: int|
                0 <= a < b < self@.len() implies self@[a].id < self@[b].id by {
                assert(self@[a].id == orig[a].id);
                assert(self@[b].id == orig[b].id);
            }
        }
    }

    /// A borrowed view of the record at a position.
    pub(crate) fn task_ref(&self, i: usize) -> (r: &Task)
        requires
            i < self@.len(),
        ensures
            r@ == self@[i as int],
    {
        &self.tasks[i]
    }

    /// Removes the record at a known position and hands it out.
    pub(crate) fn take_at(&mut self, i: usize) -> (r: Task)
        requires
            old(self).wf(),
            i < old(self)@.len(),
        ensures
            final(self).wf(),
            r@ == old(self)@[i as int],
            final(self)@ == old(self)@.remove(i as int),
    {
        let ghost otasks = self.tasks@;
        let t = self.tasks.remove(i);
        proof {
            assert forall|j: int| 0 <= j < self@.len() implies self@[j] == old(self)@.remove(
                i as int,
            )[j] by {
                assert(self@[j] == self.tasks@[j]@);
                if j < i {
                    assert(self.tasks@[j] == otasks[j]);
                } else {
                    assert(self.tasks@[j] == otasks[j + 1]);
                }
            }
            assert(self@ =~= old(self)@.remove(i as int));
            assert forall|a: int, b: int|
                0 <= a < b < self@.len() implies self@[a].id < self@[b].id by {
                let o = old(self)@;
                assert(self@[a] == if a < i {
                    o[a]
                } else {
                    o[a + 1]
                });
                assert(self@[b] == if b < i {
                    o[b]
                } else {
                    o[b + 1]
                });
            }
        }
        t
    }
}

pub proof fn lemma_least_free_unique(s: Seq<TaskV>, n: u64)
    requires
        is_least_free(s, n),
    ensures
        least_free(s) == n,
{
    let m = least_free(s);
    assert(is_least_free(s, m));
    if m < n {
        assert(contains_id(s, m));
    }
    if n < m {
        assert(contains_id(s, n));
    }
}

} // verus!
