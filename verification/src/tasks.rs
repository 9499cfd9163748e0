use vstd::prelude::*;

verus! {

/// Number of task slots.
pub const MAX_TASKS: usize = 8;

/// Entry number of the logging task in the caller's table of task entry
/// points.
pub const LOG_TASK_ENTRY: usize = 0;

/// A cooperative kernel task: `entry` names its entry point in the
/// caller's table of entry points; a finished task is not run again.
pub struct Task {
    pub entry: usize,
    pub name: String,
    pub finished: bool,
}

/// Name the logging task runs under; a task of that name never finishes.
pub open spec fn log_task_name() -> Seq<char> {
    "log_task"@
}

/// Slot `i` holds a task that has not finished.
pub open spec fn runnable(s: Seq<Option<Task>>, i: int) -> bool {
    &&& 0 <= i < s.len()
    &&& s[i] is Some
    &&& !s[i]->0.finished
}

/// `i` is the first slot at or after `from` with a runnable task.
pub open spec fn is_next_runnable(s: Seq<Option<Task>>, from: int, i: int) -> bool {
    &&& from <= i
    &&& runnable(s, i)
    &&& forall|j: int| from <= j < i ==> !runnable(s, j)
}

/// `i` is the first empty slot.
pub open spec fn is_first_empty(s: Seq<Option<Task>>, i: int) -> bool {
    &&& 0 <= i < s.len()
    &&& s[i] is None
    &&& forall|j: int| 0 <= j < i ==> s[j] is Some
}

/// The slots after the task in slot `i` has run: it is marked finished,
/// unless it is the logging task.
pub open spec fn ended(s: Seq<Option<Task>>, i: int) -> Seq<Option<Task>> {
    match s[i] {
        Some(t) => if t.name@ == log_task_name() {
            s
        } else {
            s.update(i, Some(Task { entry: t.entry, name: t.name, finished: true }))
        },
        None => s,
    }
}

/// The table of task slots and the number of the task that runs.
pub struct Scheduler {
    tasks: Vec<Option<Task>>,
    current: usize,
    log_task_spawned: bool,
}

impl Scheduler {
    /// Well-formedness: `MAX_TASKS` slots.
    pub open spec fn wf(&self) -> bool {
        self.slots().len() == MAX_TASKS
    }

    /// The task slots.
    pub closed spec fn slots(&self) -> Seq<Option<Task>> {
        self.tasks@
    }

    /// Slot of the task that runs (or ran last).
    pub closed spec fn current_slot(&self) -> usize {
        self.current
    }

    /// Whether the logging task has been spawned.
    pub closed spec fn log_spawned(&self) -> bool {
        self.log_task_spawned
    }

    /// Empty slots; no task ran yet.
    pub fn new() -> (s: Self)
        ensures
            s.wf(),
            s.slots() == Seq::new(MAX_TASKS as nat, |i: int| None::<Task>),
            s.current_slot() == 0,
            !s.log_spawned(),
    {
        let mut tasks: Vec<Option<Task>> = Vec::new();
        let mut i: usize = 0;
        while i < MAX_TASKS
            invariant
                i <= MAX_TASKS,
                tasks@ == Seq::new(i as nat, |k: int| None::<Task>),
            decreases MAX_TASKS - i,
        {
            tasks.push(None);
            i = i + 1;
        }
        Scheduler { tasks, current: 0, log_task_spawned: false }
    }

    /// Entry number and finished flag of the task in slot `i`, if any.
    pub fn task_at(&self, i: usize) -> (r: Option<(usize, bool)>)
        requires
            self.wf(),
            i < MAX_TASKS,
        ensures
            r == (match self.slots()[i as int] {
                Some(t) => Some((t.entry, t.finished)),
                None => None::<(usize, bool)>,
            }),
    {
        match &self.tasks[i] {
            Some(t) => Some((t.entry, t.finished)),
            None => None,
        }
    }

    /// Slot of the task that runs (or ran last).
    pub fn current(&self) -> (c: usize)
        ensures
            c == self.current_slot(),
    {
        self.current
    }
}

/// Puts a new, unfinished task in the first empty slot; with every slot
/// taken the task is dropped.
pub fn spawn(sched: &mut Scheduler, entry: usize, name: String)
    requires
        old(sched).wf(),
    ensures
        final(sched).wf(),
        final(sched).current_slot() == old(sched).current_slot(),
        final(sched).log_spawned() == old(sched).log_spawned(),
        forall|i: int|
            is_first_empty(old(sched).slots(), i) ==> final(sched).slots() == old(sched).slots().update(i, Some(Task { entry, name, finished: false })),
        (forall|i: int| 0 <= i < MAX_TASKS ==> old(sched).slots()[i] is Some) ==> final(sched).slots() == old(sched).slots(),
{
    let mut i: usize = 0;
    while i < MAX_TASKS
        invariant
            sched.wf(),
            sched.slots() == old(sched).slots(),
            sched.current == old(sched).current,
            sched.log_task_spawned == old(sched).log_task_spawned,
            i <= MAX_TASKS,
            forall|j: int| 0 <= j < i ==> sched.slots()[j] is Some,
        decreases MAX_TASKS - i,
    {
        if sched.tasks[i].is_none() {
            sched.tasks.set(i, Some(Task { entry, name, finished: false }));
            proof {
                assert forall|k: int| is_first_empty(old(sched).slots(), k) implies k == i by {
                    if k < i {
                        assert(old(sched).slots()[k] is Some);
                    } else if k > i {
                        assert(old(sched).slots()[i as int] is None);
                    }
                }
            }
            return ;
        }
        i = i + 1;
    }
}

/// The slots after the logging task is spawned into `s0`: the first empty
/// slot (if any) holds the unfinished logging task, every other slot is as
/// it was.
pub open spec fn log_task_spawned(s0: Seq<Option<Task>>, s1: Seq<Option<Task>>) -> bool {
    &&& s1.len() == s0.len()
    &&& forall|j: int| 0 <= j < s0.len() && !is_first_empty(s0, j) ==> s1[j] == s0[j]
    &&& forall|i: int|
        is_first_empty(s0, i) ==> s1[i] is Some && s1[i]->0.entry == LOG_TASK_ENTRY
            && s1[i]->0.name@ == log_task_name() && !s1[i]->0.finished
}

/// When some slot is empty, a first empty slot exists.
proof fn lemma_first_empty_exists(s: Seq<Option<Task>>, j: int)
    requires
        0 <= j < s.len(),
        s[j] is None,
    ensures
        exists|i: int| is_first_empty(s, i),
    decreases j,
{
    if forall|k: int| 0 <= k < j ==> s[k] is Some {
        assert(is_first_empty(s, j));
    } else {
        let k = choose|k: int| 0 <= k < j && s[k] is None;
        lemma_first_empty_exists(s, k);
    }
}

/// Spawning the logging task changes one slot only, the first empty one, to
/// the unfinished logging task; with every slot taken it changes nothing,
/// and the other empty slots stay empty.
pub proof fn lemma_log_task_spawn_one_slot(s0: Seq<Option<Task>>, s1: Seq<Option<Task>>)
    requires
        log_task_spawned(s0, s1),
    ensures
        (forall|j: int| 0 <= j < s0.len() ==> s0[j] is Some) ==> s1 == s0,
        forall|i: int| is_first_empty(s0, i) ==> s1 == s0.update(i, s1[i]),
        forall|j: int| 0 <= j < s0.len() && s0[j] is None && !is_first_empty(s0, j) ==> s1[j] is None,
        forall|j: int| 0 <= j < s0.len() && s0[j] is Some ==> s1[j] == s0[j],
{
    if forall|j: int| 0 <= j < s0.len() ==> s0[j] is Some {
        assert(s1 =~= s0);
    }
    assert forall|i: int| is_first_empty(s0, i) implies s1 == s0.update(i, s1[i]) by {
        assert(s1 =~= s0.update(i, s1[i]));
    }
}

/// Spawns the logging task the first time it is called; later calls change
/// nothing.
pub fn spawn_log_task(sched: &mut Scheduler)
    requires
        old(sched).wf(),
    ensures
        final(sched).wf(),
        final(sched).log_spawned(),
        final(sched).current_slot() == old(sched).current_slot(),
        old(sched).log_spawned() ==> final(sched).slots() == old(sched).slots(),
        !old(sched).log_spawned() ==> log_task_spawned(old(sched).slots(), final(sched).slots()),
        !old(sched).log_spawned() ==> forall|i: int|
            is_first_empty(old(sched).slots(), i) ==> final(sched).slots()[i] is Some
                && final(sched).slots()[i]->0.entry == LOG_TASK_ENTRY
                && final(sched).slots()[i]->0.name@ == log_task_name()
                && !final(sched).slots()[i]->0.finished,
{
    if !sched.log_task_spawned {
        let ghost s0 = sched.slots();
        let name = "log_task".to_owned();
        spawn(sched, LOG_TASK_ENTRY, name);
        sched.log_task_spawned = true;
        proof {
            let s1 = sched.slots();
            if exists|j: int| 0 <= j < s0.len() && s0[j] is None {
                let j = choose|j: int| 0 <= j < s0.len() && s0[j] is None;
                lemma_first_empty_exists(s0, j);
                let i = choose|i: int| is_first_empty(s0, i);
                assert forall|k: int| 0 <= k < s0.len() && !is_first_empty(s0, k) implies s1[k]
                    == s0[k] by {
                    assert(k != i);
                }
            } else {
                assert(s1 == s0);
                assert forall|i: int| !is_first_empty(s0, i) by {}
            }
        }
    }
}

/// The first slot at or after `from` whose task has not finished.
pub fn next_task(sched: &Scheduler, from: usize) -> (r: Option<usize>)
    requires
        sched.wf(),
    ensures
        match r {
            Some(i) => is_next_runnable(sched.slots(), from as int, i as int),
            None => forall|j: int| from <= j < MAX_TASKS ==> !runnable(sched.slots(), j),
        },
{
    let mut i = from;
    while i < MAX_TASKS
        invariant
            sched.wf(),
            from <= i,
            forall|j: int| from <= j < i ==> !runnable(sched.slots(), j),
        decreases MAX_TASKS - i,
    {
        match &sched.tasks[i] {
            Some(t) => {
                if !t.finished {
                    return Some(i);
                }
            },
            None => {},
        }
        i = i + 1;
    }
    None
}

/// Marks slot `i` as the running task and returns its entry number.
pub fn begin_task(sched: &mut Scheduler, i: usize) -> (entry: usize)
    requires
        old(sched).wf(),
        i < MAX_TASKS,
        old(sched).slots()[i as int] is Some,
    ensures
        final(sched).wf(),
        entry == old(sched).slots()[i as int]->0.entry,
        final(sched).current_slot() == i,
        final(sched).slots() == old(sched).slots(),
        final(sched).log_spawned() == old(sched).log_spawned(),
{
    sched.current = i;
    match &sched.tasks[i] {
        Some(t) => t.entry,
        None => 0,
    }
}

/// After the task in slot `i` has run: it is marked finished, unless it is
/// the logging task, which runs in every round.
pub fn end_task(sched: &mut Scheduler, i: usize)
    requires
        old(sched).wf(),
        i < MAX_TASKS,
    ensures
        final(sched).wf(),
        final(sched).current_slot() == old(sched).current_slot(),
        final(sched).log_spawned() == old(sched).log_spawned(),
        final(sched).slots() == ended(old(sched).slots(), i as int),
{
    let log_name = "log_task".to_owned();
    let mut slot: Option<Task> = None;
    std::mem::swap(&mut slot, &mut sched.tasks[i]);
    let ghost s = old(sched).slots();
    let new_slot = match slot {
        Some(t) => {
            if t.name == log_name {
                Some(t)
            } else {
                Some(Task { entry: t.entry, name: t.name, finished: true })
            }
        },
        None => None,
    };
    sched.tasks.set(i, new_slot);
    proof {
        assert(sched.slots() =~= s.update(i as int, sched.slots()[i as int]));
    }
}

/// The logging task, once in a slot, stays runnable: `end_task` never
/// finishes a task named `log_task`.
pub proof fn lemma_log_task_never_finishes(s: Seq<Option<Task>>, i: int)
    requires
        runnable(s, i),
        s[i]->0.name@ == log_task_name(),
    ensures
        runnable(ended(s, i), i),
        ended(s, i) == s,
{
}

/// A task other than the logging task runs once: after `end_task` marks it
/// finished, `next_task` passes over its slot.
pub proof fn lemma_finished_task_not_rerun(s: Seq<Option<Task>>, i: int, from: int, k: int)
    requires
        0 <= i < s.len(),
        s[i] is Some,
        s[i]->0.name@ != log_task_name(),
        is_next_runnable(ended(s, i), from, k),
    ensures
        k != i,
{
}

/// One scheduler call on the task slots: `next_task` or `begin_task`
/// (slots unchanged), `end_task` on some slot, or `spawn` putting an
/// unfinished task in the first empty slot (or dropping it when every slot
/// is taken).
pub open spec fn sched_step(s0: Seq<Option<Task>>, s1: Seq<Option<Task>>) -> bool {
    ||| s1 == s0
    ||| exists|i: int| 0 <= i < s0.len() && s1 == ended(s0, i)
    ||| exists|i: int, t: Task| is_first_empty(s0, i) && !t.finished && s1 == s0.update(i, Some(t))
}

/// Along a run of scheduler calls, a finished task at slot `i` stays there
/// unchanged from step `k` on.
proof fn lemma_finished_stays(run: Seq<Seq<Option<Task>>>, i: int, k: int, m: int)
    requires
        0 <= k <= m < run.len(),
        0 <= i < run[k].len(),
        run[k][i] is Some,
        run[k][i]->0.finished,
        forall|n: int| 0 <= n < run.len() - 1 ==> sched_step(#[trigger] run[n], run[n + 1]),
    ensures
        run[m].len() == run[k].len(),
        run[m][i] == run[k][i],
    decreases m - k,
{
    if m > k {
        lemma_finished_stays(run, i, k, m - 1);
        let s0 = run[m - 1];
        let s1 = run[m];
        assert(sched_step(s0, s1));
        if exists|j: int| 0 <= j < s0.len() && s1 == ended(s0, j) {
            let j = choose|j: int| 0 <= j < s0.len() && s1 == ended(s0, j);
            assert(s1[i] == s0[i]);
        } else if exists|j: int, t: Task|
            is_first_empty(s0, j) && !t.finished && s1 == s0.update(j, Some(t)) {
            let (j, t) = choose|j: int, t: Task|
                is_first_empty(s0, j) && !t.finished && s1 == s0.update(j, Some(t));
            assert(s1[i] == s0[i]);
        }
    }
}

/// A finished task is never run again: along any run of scheduler calls it
/// stays in its slot, finished, and `next_task` never picks its slot.
pub proof fn lemma_finished_never_rerun(run: Seq<Seq<Option<Task>>>, i: int, k: int)
    requires
        0 <= k < run.len(),
        0 <= i < run[k].len(),
        run[k][i] is Some,
        run[k][i]->0.finished,
        forall|n: int| 0 <= n < run.len() - 1 ==> sched_step(#[trigger] run[n], run[n + 1]),
    ensures
        forall|m: int, from: int, v: int|
            k <= m < run.len() && is_next_runnable(run[m], from, v) ==> v != i,
        forall|m: int| k <= m < run.len() ==> run[m][i] == run[k][i],
{
    assert forall|m: int| k <= m < run.len() implies run[m][i] == run[k][i] by {
        lemma_finished_stays(run, i, k, m);
    }
    assert forall|m: int, from: int, v: int|
        k <= m < run.len() && is_next_runnable(run[m], from, v) implies v != i by {
        lemma_finished_stays(run, i, k, m);
    }
}

/// Where the scan for visit `k` of a round starts: slot 0, then the slot
/// after the one visited last.
pub open spec fn round_cursor(visits: Seq<int>, k: int) -> int {
    if k == 0 {
        0
    } else {
        visits[k - 1] + 1
    }
}

/// A round of the scheduler: starting at slot 0, `next_task` picks slot
/// `visits[k]` scanning from `round_cursor(visits, k)` in the slots
/// `states[k]`, and `end_task` on it gives `states[k + 1]`; after the last
/// visit `next_task` finds nothing.
pub open spec fn is_round(states: Seq<Seq<Option<Task>>>, visits: Seq<int>) -> bool {
    &&& states.len() == visits.len() + 1
    &&& forall|k: int|
        0 <= k < visits.len() ==> is_next_runnable(
            #[trigger] states[k],
            round_cursor(visits, k),
            visits[k],
        )
    &&& forall|k: int| 0 <= k < visits.len() ==> states[k + 1] == ended(#[trigger] states[k], visits[k])
    &&& forall|j: int|
        round_cursor(visits, visits.len() as int) <= j ==> !runnable(states[visits.len() as int], j)
}

/// The first `k` visits of a round leave the slots from the cursor on as
/// they were, and take every slot before the cursor that was runnable when
/// the round started.
proof fn lemma_round_prefix(states: Seq<Seq<Option<Task>>>, visits: Seq<int>, k: int)
    requires
        is_round(states, visits),
        0 <= k <= visits.len(),
    ensures
        states[k].len() == states[0].len(),
        forall|j: int|
            round_cursor(visits, k) <= j < states[0].len() ==> states[k][j] == states[0][j],
        forall|j: int|
            0 <= j < round_cursor(visits, k) && runnable(states[0], j) ==> exists|m: int|
                0 <= m < k && visits[m] == j,
    decreases k,
{
    if k > 0 {
        lemma_round_prefix(states, visits, k - 1);
        let s = states[k - 1];
        let v = visits[k - 1];
        assert(is_next_runnable(s, round_cursor(visits, k - 1), v));
        assert(states[k] == ended(s, v));
        assert forall|j: int|
            round_cursor(visits, k) <= j < states[0].len() implies states[k][j] == states[0][j] by {
            assert(states[k][j] == s[j]);
        }
        assert forall|j: int|
            0 <= j < round_cursor(visits, k) && runnable(states[0], j) implies exists|m: int|
                0 <= m < k && visits[m] == j by {
            if j < round_cursor(visits, k - 1) {
                let m = choose|m: int| 0 <= m < k - 1 && visits[m] == j;
                assert(0 <= m < k && visits[m] == j);
            } else if j == v {
                assert(visits[k - 1] == j);
            } else {
                assert(s[j] == states[0][j]);
                assert(runnable(s, j));
            }
        }
    }
}

/// Every task that is runnable when a round starts has its turn in that
/// round; in particular the logging task, which never finishes, runs in
/// every round.
pub proof fn lemma_round_runs_every_task(states: Seq<Seq<Option<Task>>>, visits: Seq<int>, j: int)
    requires
        is_round(states, visits),
        runnable(states[0], j),
    ensures
        exists|k: int| 0 <= k < visits.len() && visits[k] == j,
{
    let n = visits.len() as int;
    lemma_round_prefix(states, visits, n);
    if round_cursor(visits, n) <= j {
        assert(states[n][j] == states[0][j]);
        assert(runnable(states[n], j));
    }
}

} // verus!
