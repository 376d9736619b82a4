//! The task data model and the manager that owns the task collection.

use vstd::prelude::*;

verus! {

/// One of three ordered priority classes; `High` is the most urgent.
#[derive(Clone, Copy, PartialEq, Eq, Structural, Debug)]
pub enum Priority {
    High,
    Medium,
    Low,
}

/// The numeric rank a class sorts by: `High` before `Medium` before `Low`.
pub open spec fn rank(p: Priority) -> int {
    match p {
        Priority::High => 0,
        Priority::Medium => 1,
        Priority::Low => 2,
    }
}

/// One unit of work.  `id` and the timestamp are fixed at creation;
/// only `completed` ever changes, and only from `false` to `true`.
pub struct Task {
    pub id: u32,
    pub description: String,
    pub completed: bool,
    pub priority: Priority,
    pub creation_time: String,
}

/// The mathematical image of a [`Task`]: text fields as character sequences.
#[verifier::ext_equal]
pub ghost struct TaskV {
    pub id: u32,
    pub description: Seq<char>,
    pub completed: bool,
    pub priority: Priority,
    pub creation_time: Seq<char>,
}

impl View for Task {
    type V = TaskV;

    open spec fn view(&self) -> TaskV {
        TaskV {
            id: self.id,
            description: self.description@,
            completed: self.completed,
            priority: self.priority,
            creation_time: self.creation_time@,
        }
    }
}

/// The views of a sequence of tasks.
pub open spec fn views(s: Seq<Task>) -> Seq<TaskV> {
    s.map_values(|t: Task| t@)
}

/// Strict order on tasks: by priority rank, ties broken by ascending id.
pub open spec fn task_lt(a: TaskV, b: TaskV) -> bool {
    rank(a.priority) < rank(b.priority)
        || (rank(a.priority) == rank(b.priority) && a.id < b.id)
}

/// `a` may stand at or before `b` in the canonical order.
pub open spec fn task_le(a: TaskV, b: TaskV) -> bool {
    !task_lt(b, a)
}

/// The collection is in canonical order: priority rank ascending,
/// ids ascending within one class.
pub open spec fn sorted(s: Seq<TaskV>) -> bool {
    forall|i: int, j: int| 0 <= i < j < s.len() ==> task_le(s[i], s[j])
}

/// Position of the first element of `s` that must stand strictly after `t`;
/// `s.len()` when no element must.  Inserting `t` there keeps a sorted
/// sequence sorted and places `t` after every element it ties with.
pub open spec fn insert_pos(s: Seq<TaskV>, t: TaskV) -> int
    decreases s.len(),
{
    if s.len() == 0 {
        0
    } else if task_lt(t, s[0]) {
        0
    } else {
        1 + insert_pos(s.drop_first(), t)
    }
}

/// `s` with `t` inserted at its canonical position.
pub open spec fn insert_sorted(s: Seq<TaskV>, t: TaskV) -> Seq<TaskV> {
    s.insert(insert_pos(s, t), t)
}

/// The canonical reordering of `s`: each element in turn inserted at its
/// position, so equal keys keep their relative order (a stable sort).
pub open spec fn sort_model(s: Seq<TaskV>) -> Seq<TaskV>
    decreases s.len(),
{
    if s.len() == 0 {
        Seq::empty()
    } else {
        insert_sorted(sort_model(s.drop_last()), s.last())
    }
}

pub proof fn lemma_insert_pos(s: Seq<TaskV>, t: TaskV)
    ensures
        0 <= insert_pos(s, t) <= s.len(),
        forall|j: int| 0 <= j < insert_pos(s, t) ==> !task_lt(t, s[j]),
        insert_pos(s, t) < s.len() ==> task_lt(t, s[insert_pos(s, t)]),
    decreases s.len(),
{
    if s.len() == 0 {
    } else if task_lt(t, s[0]) {
    } else {
        lemma_insert_pos(s.drop_first(), t);
        let p = insert_pos(s, t);
        assert forall|j: int| 0 <= j < p implies !task_lt(t, s[j]) by {
            if j > 0 {
                assert(s.drop_first()[j - 1] == s[j]);
                assert(!task_lt(t, s.drop_first()[j - 1]));
            }
        }
        if p < s.len() {
            assert(s.drop_first()[p - 1] == s[p]);
        }
    }
}

pub proof fn lemma_insert_sorted(s: Seq<TaskV>, t: TaskV)
    requires
        sorted(s),
    ensures
        sorted(insert_sorted(s, t)),
        insert_sorted(s, t).len() == s.len() + 1,
        insert_sorted(s, t).to_multiset() == s.to_multiset().insert(t),
{
    lemma_insert_pos(s, t);
    let p = insert_pos(s, t);
    let r = s.insert(p, t);
    s.insert_ensures(p, t);
    assert forall|i: int, j: int| 0 <= i < j < r.len() implies task_le(r[i], r[j]) by {
        if i < p && j < p {
            assert(r[i] == s[i] && r[j] == s[j]);
            assert(task_le(s[i], s[j]));
        } else if i < p && j == p {
            assert(r[i] == s[i] && r[j] == t);
            assert(!task_lt(t, s[i]));
        } else if i < p && j > p {
            assert(r[i] == s[i] && r[j] == s[j - 1]);
            assert(task_le(s[i], s[j - 1]));
        } else if i == p && j > p {
            assert(r[i] == t && r[j] == s[j - 1]);
            assert(task_lt(t, s[p]));
            if p < j - 1 {
                assert(task_le(s[p], s[j - 1]));
            }
        } else {
            assert(r[i] == s[i - 1] && r[j] == s[j - 1]);
            assert(task_le(s[i - 1], s[j - 1]));
        }
    }
    vstd::seq_lib::to_multiset_insert(s, p, t);
}

pub proof fn lemma_sort_model(s: Seq<TaskV>)
    ensures
        sorted(sort_model(s)),
        sort_model(s).len() == s.len(),
        sort_model(s).to_multiset() == s.to_multiset(),
    decreases s.len(),
{
    broadcast use vstd::seq_lib::group_to_multiset_ensures;

    if s.len() == 0 {
        assert(sort_model(s).to_multiset() =~= s.to_multiset()) by {
            assert(s.to_multiset().len() == 0);
        }
    } else {
        let butlast = s.drop_last();
        lemma_sort_model(butlast);
        lemma_insert_sorted(sort_model(butlast), s.last());
        assert(s =~= butlast.push(s.last()));
        assert(butlast.push(s.last()).to_multiset() =~= butlast.to_multiset().insert(s.last()));
    }
}

pub proof fn lemma_views_push(s: Seq<Task>, t: Task)
    ensures
        views(s.push(t)) =~= views(s).push(t@),
{
}

pub proof fn lemma_views_insert(s: Seq<Task>, i: int, t: Task)
    requires
        0 <= i <= s.len(),
    ensures
        views(s.insert(i, t)) =~= views(s).insert(i, t@),
{
}

pub proof fn lemma_views_remove(s: Seq<Task>, i: int)
    requires
        0 <= i < s.len(),
    ensures
        views(s.remove(i)) =~= views(s).remove(i),
{
}

/// The manager owns the task collection and is its sole mutator.
pub struct TaskManager {
    pub tasks: Vec<Task>,
}

impl View for TaskManager {
    type V = Seq<TaskV>;

    open spec fn view(&self) -> Seq<TaskV> {
        views(self.tasks@)
    }
}

impl TaskManager {
    /// A fresh manager holds no tasks.
    pub fn new() -> (m: TaskManager)
        ensures
            m@ == Seq::<TaskV>::empty(),
    {
        let m = TaskManager { tasks: Vec::new() };
        proof {
            assert(m@ =~= Seq::<TaskV>::empty());
        }
        m
    }

    /// Re-sorts the whole collection into canonical order, whatever order it
    /// was in: a full, stable re-sort, not a single insertion step.
    fn sort_task_by_priority(&mut self)
        ensures
            final(self)@ == sort_model(old(self)@),
    {
        let ghost orig = old(self)@;
        let mut out: Vec<Task> = Vec::new();
        proof {
            assert(views(out@) =~= Seq::<TaskV>::empty());
            assert(orig.take(0) =~= Seq::<TaskV>::empty());
        }
        while self.tasks.len() > 0
            invariant
                self.tasks@.len() <= orig.len(),
                views(self.tasks@) == orig.skip(orig.len() - self.tasks@.len()),
                views(out@) == sort_model(orig.take(orig.len() - self.tasks@.len())),
            decreases self.tasks@.len(),
        {
            let ghost k = orig.len() - self.tasks@.len();
            let ghost before = self.tasks@;
            let t = self.tasks.remove(0);
            proof {
                lemma_views_remove(before, 0);
                assert(views(before).remove(0) =~= orig.skip(k + 1));
                assert(t@ == views(before)[0]);
                assert(t@ == orig[k]);
            }
            let p = find_insert_pos(&out, &t);
            let ghost out_before = out@;
            out.insert(p, t);
            proof {
                lemma_views_insert(out_before, p as int, t);
                assert(views(out@) == insert_sorted(views(out_before), t@));
                let pre = orig.take(k + 1);
                assert(pre.drop_last() =~= orig.take(k));
                assert(pre.last() == orig[k]);
                assert(views(out@) == sort_model(orig.take(k + 1)));
            }
        }
        proof {
            assert(orig.take(orig.len() as int) =~= orig);
        }
        self.tasks = out;
    }

    /// Adds a task with the given creation timestamp: it receives the next
    /// id, starts pending, and the whole collection is re-sorted.
    pub fn add_task_at(&mut self, description: String, priority: Priority, creation_time: String)
        requires
            old(self)@.len() + 1 <= u32::MAX,
        ensures
            final(self)@ == add_model(
                old(self)@,
                description@,
                priority,
                creation_time@,
            ),
            sorted(final(self)@),
            final(self)@.len() == old(self)@.len() + 1,
            final(self)@.to_multiset() == old(self)@.to_multiset().insert(
                new_task_v(old(self)@, description@, priority, creation_time@),
            ),
    {
        let ghost pre = self@;
        let ghost d = description@;
        let ghost ts = creation_time@;
        let id = self.tasks.len() as u32 + 1;
        let task = Task { id, description, completed: false, priority, creation_time };
        proof {
            assert(task@ == new_task_v(pre, d, priority, ts));
        }
        let ghost before = self.tasks@;
        self.tasks.push(task);
        proof {
            lemma_views_push(before, task);
            assert(self@ == pre.push(new_task_v(pre, d, priority, ts)));
        }
        self.sort_task_by_priority();
        proof {
            lemma_sort_model(pre.push(new_task_v(pre, d, priority, ts)));
            broadcast use vstd::seq_lib::group_to_multiset_ensures;

            assert(pre.push(new_task_v(pre, d, priority, ts)).to_multiset() =~= pre.to_multiset()
                .insert(new_task_v(pre, d, priority, ts)));
        }
    }

    /// Adds a task stamped with the clock's present reading.  The timestamp
    /// is whatever the clock returned; everything else is as in
    /// [`Self::add_task_at`].
    pub fn add_task(&mut self, description: String, priority: Priority)
        requires
            old(self)@.len() + 1 <= u32::MAX,
        ensures
            exists|ts: Seq<char>|
                final(self)@ == add_model(old(self)@, description@, priority, ts),
            sorted(final(self)@),
            final(self)@.len() == old(self)@.len() + 1,
    {
        let ghost pre = self@;
        let ghost d = description@;
        let stamp = now_rfc3339();
        let ghost ts = stamp@;
        self.add_task_at(description, priority, stamp);
        proof {
            assert(self@ == add_model(pre, d, priority, ts));
        }
    }

    /// The current collection in stored order, read-only.
    pub fn list_task(&self) -> (r: &Vec<Task>)
        ensures
            r@ == self.tasks@,
            views(r@) == self@,
    {
        &self.tasks
    }

    /// Completes the first task carrying this id and reports whether one was
    /// found; an absent id is a normal outcome and changes nothing.
    pub fn mark_task_completed(&mut self, task_id: u32) -> (found: bool)
        ensures
            found == has_id(old(self)@, task_id),
            final(self)@ == mark_model(old(self)@, task_id),
            !found ==> final(self)@ == old(self)@,
    {
        let ghost pre = self@;
        let mut i: usize = 0;
        while i < self.tasks.len()
            invariant
                i <= self.tasks@.len(),
                self@ == pre,
                self.tasks@ == old(self).tasks@,
                forall|j: int| 0 <= j < i ==> pre[j].id != task_id,
            decreases self.tasks@.len() - i,
        {
            if self.tasks[i].id == task_id {
                proof {
                    assert(pre[i as int] == self.tasks@[i as int]@);
                    lemma_first_id(pre, task_id);
                    assert(has_id(pre, task_id));
                    assert(first_id(pre, task_id) == i as int);
                }
                let ghost before = self.tasks@;
                let mut t = self.tasks.remove(i);
                t.completed = true;
                self.tasks.insert(i, t);
                proof {
                    lemma_views_remove(before, i as int);
                    lemma_views_insert(before.remove(i as int), i as int, t);
                    assert(self@ =~= pre.update(i as int, completed_task(pre[i as int])));
                }
                return true;
            }
            assert(pre[i as int] == self.tasks@[i as int]@);
            i += 1;
        }
        proof {
            if has_id(pre, task_id) {
                let w = choose|k: int| 0 <= k < pre.len() && pre[k].id == task_id;
                assert(pre[w].id != task_id);
            }
        }
        false
    }

    /// Completes the first pending task of the given class, in stored order,
    /// and returns its description; with none pending, returns nothing and
    /// changes nothing.
    pub fn consume_task(&mut self, priority: Priority) -> (r: Option<String>)
        ensures
            final(self)@ == consume_model(old(self)@, priority),
            r is Some <==> has_pending(old(self)@, priority),
            r is Some ==> r.unwrap()@ == old(self)@[first_pending(
                old(self)@,
                priority,
            )].description,
    {
        let ghost pre = self@;
        let mut i: usize = 0;
        while i < self.tasks.len()
            invariant
                i <= self.tasks@.len(),
                self@ == pre,
                self.tasks@ == old(self).tasks@,
                forall|j: int| 0 <= j < i ==> !is_pending(pre[j], priority),
            decreases self.tasks@.len() - i,
        {
            let matches_class = self.tasks[i].priority == priority;
            if matches_class && !self.tasks[i].completed {
                proof {
                    assert(pre[i as int] == self.tasks@[i as int]@);
                    lemma_first_pending(pre, priority);
                    assert(is_pending(pre[i as int], priority));
                    assert(first_pending(pre, priority) == i as int);
                }
                let description = self.tasks[i].description.clone();
                let ghost before = self.tasks@;
                let mut t = self.tasks.remove(i);
                t.completed = true;
                self.tasks.insert(i, t);
                proof {
                    lemma_views_remove(before, i as int);
                    lemma_views_insert(before.remove(i as int), i as int, t);
                    assert(self@ =~= pre.update(
                        i as int,
                        completed_task(pre[i as int]),
                    ));
                }
                return Some(description);
            }
            assert(pre[i as int] == self.tasks@[i as int]@);
            i += 1;
        }
        proof {
            if has_pending(pre, priority) {
                let w = choose|k: int| 0 <= k < pre.len() && is_pending(pre[k], priority);
                assert(!is_pending(pre[w], priority));
            }
        }
        None
    }
}

/// A completion never uncompletes anything: completing the task at `i`
/// keeps every completed task value in the collection, as often as before.
proof fn lemma_complete_at_keeps_completed(s: Seq<TaskV>, i: int, t: TaskV)
    requires
        t.completed,
        0 <= i < s.len(),
    ensures
        s.update(i, completed_task(s[i])).to_multiset().count(t) >= s.to_multiset().count(t),
{
    broadcast use vstd::seq_lib::group_to_multiset_ensures;

    vstd::seq_lib::to_multiset_update(s, i, completed_task(s[i]));
    if s[i].completed {
        assert(completed_task(s[i]) =~= s[i]);
        assert(s.update(i, completed_task(s[i])) =~= s);
    } else {
        assert(s[i] != t);
        assert(s.to_multiset().contains(s[i]));
    }
}

/// Completion monotonicity under an add: a completed task value survives
/// the append and the re-sort, as often as it occurred before.
pub proof fn lemma_add_keeps_completed(
    s: Seq<TaskV>,
    d: Seq<char>,
    p: Priority,
    ts: Seq<char>,
    t: TaskV,
)
    requires
        t.completed,
    ensures
        add_model(s, d, p, ts).to_multiset().count(t) >= s.to_multiset().count(t),
{
    broadcast use vstd::seq_lib::group_to_multiset_ensures;

    let nt = new_task_v(s, d, p, ts);
    lemma_sort_model(s.push(nt));
    assert(s.push(nt).to_multiset() =~= s.to_multiset().insert(nt));
}

/// Completion monotonicity under a completion by id.
pub proof fn lemma_mark_keeps_completed(s: Seq<TaskV>, id: u32, t: TaskV)
    requires
        t.completed,
    ensures
        mark_model(s, id).to_multiset().count(t) >= s.to_multiset().count(t),
{
    if has_id(s, id) {
        lemma_first_id(s, id);
        lemma_complete_at_keeps_completed(s, first_id(s, id), t);
    }
}

/// Completion monotonicity under a consume.
pub proof fn lemma_consume_keeps_completed(s: Seq<TaskV>, p: Priority, t: TaskV)
    requires
        t.completed,
    ensures
        consume_model(s, p).to_multiset().count(t) >= s.to_multiset().count(t),
{
    if has_pending(s, p) {
        lemma_first_pending(s, p);
        lemma_complete_at_keeps_completed(s, first_pending(s, p), t);
    }
}

/// One request handed to an add: what the caller chose, plus the timestamp
/// the clock supplied.
#[verifier::ext_equal]
pub ghost struct AddReq {
    pub description: Seq<char>,
    pub priority: Priority,
    pub creation_time: Seq<char>,
}

/// The collection a fresh manager holds after this sequence of adds.
pub open spec fn adds_model(reqs: Seq<AddReq>) -> Seq<TaskV>
    decreases reqs.len(),
{
    if reqs.len() == 0 {
        Seq::empty()
    } else {
        let prev = adds_model(reqs.drop_last());
        let r = reqs.last();
        add_model(prev, r.description, r.priority, r.creation_time)
    }
}

pub proof fn lemma_adds_model_len(reqs: Seq<AddReq>)
    ensures
        adds_model(reqs).len() == reqs.len(),
    decreases reqs.len(),
{
    if reqs.len() > 0 {
        lemma_adds_model_len(reqs.drop_last());
        let prev = adds_model(reqs.drop_last());
        let r = reqs.last();
        lemma_sort_model(prev.push(new_task_v(prev, r.description, r.priority, r.creation_time)));
    }
}

/// Ordering invariant: after any nonempty run of adds on a fresh manager,
/// the collection is sorted by priority, ties by ascending id.
pub proof fn lemma_adds_model_sorted(reqs: Seq<AddReq>)
    requires
        reqs.len() > 0,
    ensures
        sorted(adds_model(reqs)),
{
    let prev = adds_model(reqs.drop_last());
    let r = reqs.last();
    lemma_sort_model(prev.push(new_task_v(prev, r.description, r.priority, r.creation_time)));
}

/// Id monotonicity: in any run of adds on a fresh manager, the n-th add
/// (n counted from 1) creates the task with id n, and that task — under
/// that id — is still in the collection after all later adds.
pub proof fn lemma_id_monotonic(reqs: Seq<AddReq>, n: int)
    requires
        1 <= n <= reqs.len(),
        n <= u32::MAX,
    ensures
        ({
            let prev = adds_model(reqs.take(n - 1));
            let r = reqs[n - 1];
            let added = new_task_v(prev, r.description, r.priority, r.creation_time);
            added.id == n && adds_model(reqs).to_multiset().count(added) >= 1
        }),
    decreases reqs.len(),
{
    broadcast use vstd::seq_lib::group_to_multiset_ensures;

    lemma_adds_model_len(reqs.take(n - 1));
    let prev = adds_model(reqs.take(n - 1));
    let r = reqs[n - 1];
    let added = new_task_v(prev, r.description, r.priority, r.creation_time);
    assert(reqs.take(n - 1).len() == n - 1);
    if n == reqs.len() {
        assert(reqs.take(n - 1) =~= reqs.drop_last());
        assert(reqs.last() == r);
        lemma_sort_model(prev.push(added));
        assert(prev.push(added).to_multiset() =~= prev.to_multiset().insert(added));
        assert(adds_model(reqs).to_multiset().count(added) >= 1);
    } else {
        let shorter = reqs.drop_last();
        assert(shorter.take(n - 1) =~= reqs.take(n - 1));
        assert(shorter[n - 1] == reqs[n - 1]);
        lemma_id_monotonic(shorter, n);
        let prev2 = adds_model(shorter);
        let last = reqs.last();
        let nt = new_task_v(prev2, last.description, last.priority, last.creation_time);
        lemma_sort_model(prev2.push(nt));
        assert(prev2.push(nt).to_multiset() =~= prev2.to_multiset().insert(nt));
        assert(adds_model(reqs).to_multiset().count(added) >= adds_model(
            shorter,
        ).to_multiset().count(added));
    }
}

/// Relies on chrono's `Utc::now` and `DateTime::to_rfc3339`: the clock's
/// present reading rendered as RFC 3339 text.  Nothing is promised of the
/// value, since it depends on when the call runs.
#[verifier::external_body]
fn now_rfc3339() -> (r: String) {
    chrono::Utc::now().to_rfc3339()
}

/// The canonical position at which `t` is inserted into the already placed
/// prefix `out`: before the first strictly greater element, after any ties.
fn find_insert_pos(out: &Vec<Task>, t: &Task) -> (p: usize)
    ensures
        p as int == insert_pos(views(out@), t@),
        p <= out@.len(),
{
    let mut p: usize = 0;
    while p < out.len()
        invariant
            p <= out.len(),
            forall|j: int| 0 <= j < p ==> !task_lt(t@, views(out@)[j]),
        decreases out.len() - p,
    {
        if task_lt_exec(t, &out[p]) {
            proof {
                lemma_insert_pos(views(out@), t@);
                assert(views(out@)[p as int] == out@[p as int]@);
            }
            return p;
        }
        assert(views(out@)[p as int] == out@[p as int]@);
        p += 1;
    }
    proof {
        lemma_insert_pos(views(out@), t@);
    }
    p
}

/// The task a collection of `s.len()` tasks gains from an add: the next id
/// is the current task count plus one, and the task starts pending.
pub open spec fn new_task_v(s: Seq<TaskV>, d: Seq<char>, p: Priority, ts: Seq<char>) -> TaskV {
    TaskV {
        id: (s.len() + 1) as u32,
        description: d,
        completed: false,
        priority: p,
        creation_time: ts,
    }
}

/// The collection after an add: the fresh task appended, then a full re-sort.
pub open spec fn add_model(s: Seq<TaskV>, d: Seq<char>, p: Priority, ts: Seq<char>) -> Seq<TaskV> {
    sort_model(s.push(new_task_v(s, d, p, ts)))
}

/// `t` as it stands once completed; every other field is untouched.
pub open spec fn completed_task(t: TaskV) -> TaskV {
    TaskV { completed: true, ..t }
}

/// Some task in `s` carries this id.
pub open spec fn has_id(s: Seq<TaskV>, id: u32) -> bool {
    exists|i: int| 0 <= i < s.len() && s[i].id == id
}

/// Index of the first task with this id; `s.len()` when there is none.
pub open spec fn first_id(s: Seq<TaskV>, id: u32) -> int
    decreases s.len(),
{
    if s.len() == 0 {
        0
    } else if s[0].id == id {
        0
    } else {
        1 + first_id(s.drop_first(), id)
    }
}

pub proof fn lemma_first_id(s: Seq<TaskV>, id: u32)
    ensures
        0 <= first_id(s, id) <= s.len(),
        first_id(s, id) < s.len() <==> has_id(s, id),
        forall|j: int| 0 <= j < first_id(s, id) ==> s[j].id != id,
        first_id(s, id) < s.len() ==> s[first_id(s, id)].id == id,
    decreases s.len(),
{
    if s.len() == 0 {
    } else if s[0].id == id {
    } else {
        lemma_first_id(s.drop_first(), id);
        let p = first_id(s, id);
        assert forall|j: int| 0 <= j < p implies s[j].id != id by {
            if j > 0 {
                assert(s.drop_first()[j - 1] == s[j]);
            }
        }
        if p < s.len() {
            assert(s.drop_first()[p - 1] == s[p]);
        }
        if has_id(s, id) {
            let w = choose|i: int| 0 <= i < s.len() && s[i].id == id;
            assert(w != 0);
            assert(s.drop_first()[w - 1] == s[w]);
            assert(has_id(s.drop_first(), id));
        }
        if has_id(s.drop_first(), id) {
            let w = choose|i: int| 0 <= i < s.drop_first().len() && s.drop_first()[i].id == id;
            assert(s[w + 1] == s.drop_first()[w]);
            assert(has_id(s, id));
        }
    }
}

/// The collection after a completion by id: the first task carrying the id
/// is completed; an absent id leaves the collection untouched.
pub open spec fn mark_model(s: Seq<TaskV>, id: u32) -> Seq<TaskV> {
    if has_id(s, id) {
        s.update(first_id(s, id), completed_task(s[first_id(s, id)]))
    } else {
        s
    }
}

/// `t` still awaits work of the class `p`.
pub open spec fn is_pending(t: TaskV, p: Priority) -> bool {
    t.priority == p && !t.completed
}

/// Some task of class `p` is still pending.
pub open spec fn has_pending(s: Seq<TaskV>, p: Priority) -> bool {
    exists|i: int| 0 <= i < s.len() && is_pending(s[i], p)
}

/// Index of the first pending task of class `p`; `s.len()` when none is.
pub open spec fn first_pending(s: Seq<TaskV>, p: Priority) -> int
    decreases s.len(),
{
    if s.len() == 0 {
        0
    } else if is_pending(s[0], p) {
        0
    } else {
        1 + first_pending(s.drop_first(), p)
    }
}

pub proof fn lemma_first_pending(s: Seq<TaskV>, p: Priority)
    ensures
        0 <= first_pending(s, p) <= s.len(),
        first_pending(s, p) < s.len() <==> has_pending(s, p),
        forall|j: int| 0 <= j < first_pending(s, p) ==> !is_pending(s[j], p),
        first_pending(s, p) < s.len() ==> is_pending(s[first_pending(s, p)], p),
    decreases s.len(),
{
    if s.len() == 0 {
    } else if is_pending(s[0], p) {
    } else {
        lemma_first_pending(s.drop_first(), p);
        let k = first_pending(s, p);
        assert forall|j: int| 0 <= j < k implies !is_pending(s[j], p) by {
            if j > 0 {
                assert(s.drop_first()[j - 1] == s[j]);
            }
        }
        if k < s.len() {
            assert(s.drop_first()[k - 1] == s[k]);
        }
        if has_pending(s, p) {
            let w = choose|i: int| 0 <= i < s.len() && is_pending(s[i], p);
            assert(w != 0);
            assert(s.drop_first()[w - 1] == s[w]);
            assert(has_pending(s.drop_first(), p));
        }
        if has_pending(s.drop_first(), p) {
            let w = choose|i: int|
                0 <= i < s.drop_first().len() && is_pending(s.drop_first()[i], p);
            assert(s[w + 1] == s.drop_first()[w]);
            assert(has_pending(s, p));
        }
    }
}

/// The collection after a consume of class `p`: the first pending task of
/// that class is completed; with none pending, nothing changes.
pub open spec fn consume_model(s: Seq<TaskV>, p: Priority) -> Seq<TaskV> {
    if has_pending(s, p) {
        s.update(first_pending(s, p), completed_task(s[first_pending(s, p)]))
    } else {
        s
    }
}

/// The executable image of [`task_lt`].
pub fn task_lt_exec(a: &Task, b: &Task) -> (r: bool)
    ensures
        r == task_lt(a@, b@),
{
    let ra = rank_of(a.priority);
    let rb = rank_of(b.priority);
    ra < rb || (ra == rb && a.id < b.id)
}

/// The executable image of [`rank`].
pub fn rank_of(p: Priority) -> (r: u8)
    ensures
        r as int == rank(p),
{
    match p {
        Priority::High => 0,
        Priority::Medium => 1,
        Priority::Low => 2,
    }
}


} // verus!
