use vstd::prelude::*;

use crate::card::{card_bit, Card, CardSet};
use crate::player::PlayerIndex;

verus! {

/// An obligation: `player` must win the trick in which `card` is played.
#[derive(Clone, Copy, Debug, PartialEq, Eq, Structural)]
pub struct Task {
    pub player: PlayerIndex,
    pub card: Card,
}

/// How one trick bears on a task: the task's card was not played yet, was
/// played and won by the assigned player, or was played and lost for good.
#[derive(Clone, Copy, Debug)]
pub enum TaskEvaluation {
    Failed,
    InProgress,
    Complete,
}

/// True iff the task's card occurs among the trick's played cards.
pub open spec fn task_matches(t: Task, play: Set<int>) -> bool {
    play.contains(card_bit(t.card))
}

/// What one trick (played cards plus winner) means for a task.
pub open spec fn task_eval(t: Task, play: Set<int>, winner: PlayerIndex) -> TaskEvaluation {
    if !task_matches(t, play) {
        TaskEvaluation::InProgress
    } else if t.player == winner {
        TaskEvaluation::Complete
    } else {
        TaskEvaluation::Failed
    }
}

impl Task {
    pub fn new(player: PlayerIndex, card: Card) -> (t: Task)
        ensures
            t.player == player,
            t.card == card,
    {
        Task { player, card }
    }

    /// True iff the card of the obligation occurs in the played cards.
    pub fn matches(&self, play: CardSet) -> (r: bool)
        ensures
            r == task_matches(*self, play@),
    {
        play.contains(self.card)
    }

    /// Evaluates one obligation against one trick.
    pub fn evaluate(&self, play: CardSet, winner: PlayerIndex) -> (r: TaskEvaluation)
        ensures
            r == task_eval(*self, play@, winner),
    {
        if self.matches(play) {
            if self.player == winner {
                TaskEvaluation::Complete
            } else {
                TaskEvaluation::Failed
            }
        } else {
            TaskEvaluation::InProgress
        }
    }
}

/// Capacity of one task queue.
pub const TASK_LIST_LENGTH: usize = 12;

/// The union of the card bits of a sequence of tasks.
pub open spec fn tasks_mask(s: Seq<Task>) -> Set<int> {
    Set::new(|i: int| exists|k: int| 0 <= k < s.len() && card_bit(s[k].card) == i)
}

/// True iff every task's card in `s` occurs in `play`.
pub open spec fn tasks_covered(s: Seq<Task>, play: Set<int>) -> bool {
    forall|k: int| 0 <= k < s.len() ==> play.contains(card_bit(#[trigger] s[k].card))
}

/// True iff no task in `s` is touched by the trick.
pub open spec fn all_in_progress(s: Seq<Task>, play: Set<int>, winner: PlayerIndex) -> bool {
    forall|k: int|
        0 <= k < s.len() ==> task_eval(#[trigger] s[k], play, winner) == TaskEvaluation::InProgress
}

/// Front-to-back resolution of an ordered queue: before the first
/// untouched task every task must complete; after it no task may be
/// touched; a failing task, or a completion out of order, kills the
/// branch.
pub open spec fn check_front_spec(s: Seq<Task>, play: Set<int>, winner: PlayerIndex) -> Option<
    Seq<Task>,
>
    decreases s.len(),
{
    if s.len() == 0 {
        Some(Seq::empty())
    } else {
        match task_eval(s[0], play, winner) {
            TaskEvaluation::Failed => None,
            TaskEvaluation::Complete => check_front_spec(s.skip(1), play, winner),
            TaskEvaluation::InProgress => if all_in_progress(s, play, winner) {
                Some(s)
            } else {
                None
            },
        }
    }
}

/// The subsequence of tasks a trick leaves untouched, in order.
pub open spec fn in_progress_tasks(s: Seq<Task>, play: Set<int>, winner: PlayerIndex) -> Seq<Task>
    decreases s.len(),
{
    if s.len() == 0 {
        Seq::empty()
    } else {
        let rest = in_progress_tasks(s.drop_last(), play, winner);
        if task_eval(s.last(), play, winner) == TaskEvaluation::InProgress {
            rest.push(s.last())
        } else {
            rest
        }
    }
}

/// Unordered resolution: a failing task kills the branch, completed tasks
/// are dropped, untouched tasks are kept in order.
pub open spec fn check_any_spec(s: Seq<Task>, play: Set<int>, winner: PlayerIndex) -> Option<
    Seq<Task>,
> {
    if exists|k: int|
        0 <= k < s.len() && task_eval(#[trigger] s[k], play, winner) == TaskEvaluation::Failed {
        None
    } else {
        Some(in_progress_tasks(s, play, winner))
    }
}

/// A bounded ordered queue of tasks plus the union mask of their cards.
#[derive(Debug)]
pub struct TaskList {
    pub mask: CardSet,
    pub tasks: Vec<Task>,
}

impl TaskList {
    /// The queue is within capacity and the mask is the union of the
    /// queued tasks' cards.
    pub open spec fn wf(self) -> bool {
        self.tasks@.len() <= TASK_LIST_LENGTH && self.mask@ == tasks_mask(self.tasks@)
    }

    /// True iff no task remains.
    pub fn is_complete(&self) -> (r: bool)
        requires
            self.wf(),
        ensures
            r == (self.tasks@.len() == 0),
    {
        proof {
            crate::card::lemma_empty_iff_zero(self.mask);
            lemma_tasks_mask_empty(self.tasks@);
        }
        self.mask.get_raw() == CardSet::EMPTY
    }

    /// True iff every remaining task's card occurs in `cards`.
    pub fn covered_by(&self, cards: CardSet) -> (r: bool)
        requires
            self.wf(),
        ensures
            r == tasks_covered(self.tasks@, cards@),
    {
        proof {
            lemma_tasks_mask_covered(self.tasks@, cards@);
        }
        self.mask.is_covered_by(cards)
    }

    /// The remaining tasks, in queue order.
    pub fn valid_tasks(&self) -> (r: &[Task])
        ensures
            r@ == self.tasks@,
    {
        self.tasks.as_slice()
    }

    /// Applies one trick under front-to-back (ordered) semantics.
    pub fn check_completed_front(&self, play: CardSet, winner: PlayerIndex) -> (r: Option<
        TaskList,
    >)
        requires
            self.wf(),
        ensures
            match r {
                Some(l) => l.wf() && check_front_spec(self.tasks@, play@, winner) == Some(
                    l.tasks@,
                ),
                None => check_front_spec(self.tasks@, play@, winner) is None,
            },
    {
        let ghost s = self.tasks@;
        let mut builder = TaskListBuilder::new();
        let mut no_more = false;
        let ghost mut f: int = 0;
        let n = self.tasks.len();
        let mut k: usize = 0;
        while k < n
            invariant
                n == s.len(),
                n <= TASK_LIST_LENGTH,
                k <= n,
                s == self.tasks@,
                self.wf(),
                builder.list.wf(),
                !no_more ==> f == k as int,
                !no_more ==> builder.list.tasks@ == Seq::<Task>::empty(),
                no_more ==> 0 <= f < k as int,
                no_more ==> builder.list.tasks@ == s.subrange(f, k as int),
                no_more ==> forall|j: int|
                    f <= j < k as int ==> task_eval(#[trigger] s[j], play@, winner)
                        == TaskEvaluation::InProgress,
                forall|j: int|
                    0 <= j < f ==> task_eval(#[trigger] s[j], play@, winner)
                        == TaskEvaluation::Complete,
            decreases n - k,
        {
            let task = self.tasks[k];
            proof {
                lemma_front_skip_completes(s, play@, winner, f);
                assert(s.skip(f)[0] == s[f]);
            }
            if !no_more {
                match task.evaluate(play, winner) {
                    TaskEvaluation::Complete => {
                        proof {
                            f = k + 1;
                        }
                    },
                    TaskEvaluation::Failed => {
                        return None;
                    },
                    TaskEvaluation::InProgress => {
                        builder.push(task);
                        no_more = true;
                        proof {
                            assert(builder.list.tasks@ =~= s.subrange(f, k + 1));
                        }
                    },
                }
            } else {
                match task.evaluate(play, winner) {
                    TaskEvaluation::Complete => {
                        proof {
                            assert(task_eval(s.skip(f)[k - f], play@, winner)
                                == TaskEvaluation::Complete);
                            assert(!all_in_progress(s.skip(f), play@, winner));
                        }
                        return None;
                    },
                    TaskEvaluation::Failed => {
                        proof {
                            assert(task_eval(s.skip(f)[k - f], play@, winner)
                                == TaskEvaluation::Failed);
                            assert(!all_in_progress(s.skip(f), play@, winner));
                        }
                        return None;
                    },
                    TaskEvaluation::InProgress => {
                        builder.push(task);
                        proof {
                            assert(builder.list.tasks@ =~= s.subrange(f, k + 1));
                        }
                    },
                }
            }
            k = k + 1;
        }
        proof {
            lemma_front_skip_completes(s, play@, winner, f);
            if no_more {
                assert forall|j: int| 0 <= j < s.skip(f).len() implies task_eval(
                    #[trigger] s.skip(f)[j],
                    play@,
                    winner,
                ) == TaskEvaluation::InProgress by {
                    assert(s.skip(f)[j] == s[f + j]);
                }
                assert(check_front_spec(s.skip(f), play@, winner) == Some(s.skip(f)));
                assert(builder.list.tasks@ =~= s.skip(f));
            } else {
                assert(s.skip(f).len() == 0);
                assert(check_front_spec(s.skip(f), play@, winner) == Some(Seq::<Task>::empty()));
            }
        }
        Some(builder.done())
    }

    /// Applies one trick under unordered (anytime) semantics.
    pub fn check_completed_any(&self, play: CardSet, winner: PlayerIndex) -> (r: Option<TaskList>)
        requires
            self.wf(),
        ensures
            match r {
                Some(l) => l.wf() && check_any_spec(self.tasks@, play@, winner) == Some(l.tasks@),
                None => check_any_spec(self.tasks@, play@, winner) is None,
            },
    {
        let ghost s = self.tasks@;
        let mut builder = TaskListBuilder::new();
        let n = self.tasks.len();
        let mut k: usize = 0;
        while k < n
            invariant
                n == s.len(),
                n <= TASK_LIST_LENGTH,
                k <= n,
                s == self.tasks@,
                self.wf(),
                builder.list.wf(),
                builder.list.tasks@ == in_progress_tasks(s.take(k as int), play@, winner),
                builder.list.tasks@.len() <= k,
                forall|j: int|
                    0 <= j < k as int ==> task_eval(#[trigger] s[j], play@, winner)
                        != TaskEvaluation::Failed,
            decreases n - k,
        {
            let task = self.tasks[k];
            proof {
                assert(s.take(k + 1).drop_last() =~= s.take(k as int));
                assert(s.take(k + 1).last() == s[k as int]);
            }
            match task.evaluate(play, winner) {
                TaskEvaluation::Complete => {},
                TaskEvaluation::Failed => {
                    return None;
                },
                TaskEvaluation::InProgress => {
                    builder.push(task);
                },
            }
            k = k + 1;
        }
        proof {
            assert(s.take(n as int) =~= s);
        }
        Some(builder.done())
    }
}

proof fn lemma_tasks_mask_empty(s: Seq<Task>)
    ensures
        tasks_mask(s) == Set::<int>::empty() <==> s.len() == 0,
{
    if s.len() == 0 {
        assert(tasks_mask(s) =~= Set::<int>::empty());
    } else {
        assert(tasks_mask(s).contains(card_bit(s[0].card)));
        assert(tasks_mask(s) != Set::<int>::empty());
    }
}

proof fn lemma_tasks_mask_covered(s: Seq<Task>, play: Set<int>)
    ensures
        tasks_mask(s).subset_of(play) <==> tasks_covered(s, play),
{
    if tasks_mask(s).subset_of(play) {
        assert forall|k: int| 0 <= k < s.len() implies play.contains(
            card_bit(#[trigger] s[k].card),
        ) by {
            assert(tasks_mask(s).contains(card_bit(s[k].card)));
        }
    }
    if tasks_covered(s, play) {
        assert forall|i: int| tasks_mask(s).contains(i) implies play.contains(i) by {
            let k = choose|k: int| 0 <= k < s.len() && card_bit(s[k].card) == i;
            assert(play.contains(card_bit(s[k].card)));
        }
    }
}

proof fn lemma_tasks_mask_push(s: Seq<Task>, t: Task)
    ensures
        tasks_mask(s.push(t)) == tasks_mask(s).union(set![card_bit(t.card)]),
{
    let p = s.push(t);
    assert forall|i: int|
        tasks_mask(p).contains(i) <==> tasks_mask(s).union(set![card_bit(t.card)]).contains(
            i,
        ) by {
        if tasks_mask(p).contains(i) {
            let k = choose|k: int| 0 <= k < p.len() && card_bit(p[k].card) == i;
            if k < s.len() {
                assert(p[k] == s[k]);
                assert(tasks_mask(s).contains(i));
            } else {
                assert(p[k] == t);
            }
        }
        if tasks_mask(s).contains(i) {
            let k = choose|k: int| 0 <= k < s.len() && card_bit(s[k].card) == i;
            assert(p[k] == s[k]);
            assert(tasks_mask(p).contains(i));
        }
        if i == card_bit(t.card) {
            assert(p[s.len() as int] == t);
            assert(tasks_mask(p).contains(i));
        }
    }
    assert(tasks_mask(p) =~= tasks_mask(s).union(set![card_bit(t.card)]));
}

/// Skipping a wholly-completed prefix does not change the outcome of
/// front-to-back resolution.
proof fn lemma_front_skip_completes(s: Seq<Task>, play: Set<int>, winner: PlayerIndex, f: int)
    requires
        0 <= f <= s.len(),
        forall|j: int|
            0 <= j < f ==> task_eval(#[trigger] s[j], play, winner) == TaskEvaluation::Complete,
    ensures
        check_front_spec(s, play, winner) == check_front_spec(s.skip(f), play, winner),
    decreases f,
{
    if f == 0 {
        assert(s.skip(0) =~= s);
    } else {
        assert(task_eval(s[0], play, winner) == TaskEvaluation::Complete);
        let s1 = s.skip(1);
        assert forall|j: int| 0 <= j < f - 1 implies task_eval(#[trigger] s1[j], play, winner)
            == TaskEvaluation::Complete by {
            assert(s1[j] == s[j + 1]);
        }
        lemma_front_skip_completes(s1, play, winner, f - 1);
        assert(s1.skip(f - 1) =~= s.skip(f));
    }
}

/// The full goal state: a strictly ordered queue, a soft-ordered queue
/// gated on the first, an unordered queue gated likewise, and at most one
/// task that must resolve after everything else.
#[derive(Debug)]
pub struct TasksObjective {
    pub absolute_tasks: TaskList,
    pub relative_tasks: TaskList,
    pub anytime_tasks: TaskList,
    pub last_task: Option<Task>,
}

/// True iff the optional final task's card occurs in `play` (vacuously
/// true without one).
pub open spec fn last_covered(last: Option<Task>, play: Set<int>) -> bool {
    match last {
        Some(t) => play.contains(card_bit(t.card)),
        None => true,
    }
}

/// The cross-tier priority gate: a lower tier whose whole remaining mask
/// would resolve in this trick demands that the tiers it is gated on
/// resolve in the same trick too.
pub open spec fn check_order_spec(
    abs: Seq<Task>,
    rel: Seq<Task>,
    any: Seq<Task>,
    last: Option<Task>,
    play: Set<int>,
) -> bool {
    let abs_done = tasks_covered(abs, play);
    let rel_done = tasks_covered(rel, play);
    let any_done = tasks_covered(any, play);
    let last_done = last_covered(last, play);
    let rel_is_good = rel.len() == 0 || !rel_done || abs_done;
    let any_is_good = any.len() == 0 || !any_done || abs_done;
    let last_is_good = last is None || !last_done || (abs_done && rel_done && any_done);
    rel_is_good && any_is_good && last_is_good
}

/// Resolution of the optional final task: failing kills the branch,
/// completing clears it, otherwise it is kept.
pub open spec fn check_last_spec(last: Option<Task>, play: Set<int>, winner: PlayerIndex) -> Option<
    Option<Task>,
> {
    match last {
        Some(t) => match task_eval(t, play, winner) {
            TaskEvaluation::Complete => Some(None),
            TaskEvaluation::Failed => None,
            TaskEvaluation::InProgress => Some(Some(t)),
        },
        None => Some(None),
    }
}

/// The whole objective transition for one trick: the priority gate, then
/// each tier's own resolution; any refusal kills the branch.
pub open spec fn obj_check_spec(
    abs: Seq<Task>,
    rel: Seq<Task>,
    any: Seq<Task>,
    last: Option<Task>,
    play: Set<int>,
    winner: PlayerIndex,
) -> Option<(Seq<Task>, Seq<Task>, Seq<Task>, Option<Task>)> {
    if !check_order_spec(abs, rel, any, last, play) {
        None
    } else {
        match (
            check_front_spec(abs, play, winner),
            check_front_spec(rel, play, winner),
            check_any_spec(any, play, winner),
            check_last_spec(last, play, winner),
        ) {
            (Some(a), Some(r), Some(y), Some(l)) => Some((a, r, y, l)),
            _ => None,
        }
    }
}

/// True iff nothing remains in any tier.
pub open spec fn obj_complete(
    abs: Seq<Task>,
    rel: Seq<Task>,
    any: Seq<Task>,
    last: Option<Task>,
) -> bool {
    abs.len() == 0 && rel.len() == 0 && any.len() == 0 && last is None
}

impl TasksObjective {
    pub open spec fn wf(self) -> bool {
        self.absolute_tasks.wf() && self.relative_tasks.wf() && self.anytime_tasks.wf()
    }

    /// The views of the four tiers, bundled.
    pub open spec fn tiers(self) -> (Seq<Task>, Seq<Task>, Seq<Task>, Option<Task>) {
        (
            self.absolute_tasks.tasks@,
            self.relative_tasks.tasks@,
            self.anytime_tasks.tasks@,
            self.last_task,
        )
    }

    /// Builds the objective from the tiers' task lists.
    pub fn new(
        absolute_tasks: &[Task],
        relative_tasks: &[Task],
        anytime_tasks: &[Task],
        last_task: Option<Task>,
    ) -> (r: Self)
        requires
            absolute_tasks@.len() <= TASK_LIST_LENGTH,
            relative_tasks@.len() <= TASK_LIST_LENGTH,
            anytime_tasks@.len() <= TASK_LIST_LENGTH,
        ensures
            r.wf(),
            r.absolute_tasks.tasks@ == absolute_tasks@,
            r.relative_tasks.tasks@ == relative_tasks@,
            r.anytime_tasks.tasks@ == anytime_tasks@,
            r.last_task == last_task,
    {
        Self {
            absolute_tasks: TaskListBuilder::from_list(absolute_tasks).done(),
            relative_tasks: TaskListBuilder::from_list(relative_tasks).done(),
            anytime_tasks: TaskListBuilder::from_list(anytime_tasks).done(),
            last_task,
        }
    }

    /// Applies one trick to the whole objective; `None` means this trick
    /// makes the objective unsatisfiable along this branch.
    pub fn check(&self, play: CardSet, winner: PlayerIndex) -> (r: Option<TasksObjective>)
        requires
            self.wf(),
        ensures
            match r {
                Some(o) => o.wf() && obj_check_spec(
                    self.absolute_tasks.tasks@,
                    self.relative_tasks.tasks@,
                    self.anytime_tasks.tasks@,
                    self.last_task,
                    play@,
                    winner,
                ) == Some(o.tiers()),
                None => obj_check_spec(
                    self.absolute_tasks.tasks@,
                    self.relative_tasks.tasks@,
                    self.anytime_tasks.tasks@,
                    self.last_task,
                    play@,
                    winner,
                ) is None,
            },
    {
        if self.check_order(play) {
            let absolute_tasks = match self.absolute_tasks.check_completed_front(play, winner) {
                Some(l) => l,
                None => {
                    return None;
                },
            };
            let relative_tasks = match self.relative_tasks.check_completed_front(play, winner) {
                Some(l) => l,
                None => {
                    return None;
                },
            };
            let anytime_tasks = match self.anytime_tasks.check_completed_any(play, winner) {
                Some(l) => l,
                None => {
                    return None;
                },
            };
            let last_task = match self.check_completed_last(play, winner) {
                Some(l) => l,
                None => {
                    return None;
                },
            };
            Some(TasksObjective { absolute_tasks, relative_tasks, anytime_tasks, last_task })
        } else {
            None
        }
    }

    /// Executable form of the cross-tier priority gate.
    fn check_order(&self, play: CardSet) -> (r: bool)
        requires
            self.wf(),
        ensures
            r == check_order_spec(
                self.absolute_tasks.tasks@,
                self.relative_tasks.tasks@,
                self.anytime_tasks.tasks@,
                self.last_task,
                play@,
            ),
    {
        let have_rel = !self.relative_tasks.is_complete();
        let have_any = !self.anytime_tasks.is_complete();
        let have_last = self.last_task.is_some();

        let abs_done = self.absolute_tasks.covered_by(play);
        let rel_done = self.relative_tasks.covered_by(play);
        let any_done = self.anytime_tasks.covered_by(play);
        let last_done = self.last_is_covered_by(play);

        let rel_is_good = !have_rel || (!rel_done || abs_done);
        let any_is_good = !have_any || (!any_done || abs_done);
        let last_is_good = !have_last || (!last_done || (abs_done && rel_done && any_done));

        rel_is_good && any_is_good && last_is_good
    }

    /// True iff the optional final task's card occurs in `cards`.
    fn last_is_covered_by(&self, cards: CardSet) -> (r: bool)
        ensures
            r == last_covered(self.last_task, cards@),
    {
        match &self.last_task {
            Some(task) => cards.contains(task.card),
            None => true,
        }
    }

    /// Resolves the optional final task against one trick.
    fn check_completed_last(&self, play: CardSet, winner: PlayerIndex) -> (r: Option<Option<Task>>)
        ensures
            r == check_last_spec(self.last_task, play@, winner),
    {
        match &self.last_task {
            Some(task) => match task.evaluate(play, winner) {
                TaskEvaluation::Complete => Some(None),
                TaskEvaluation::Failed => None,
                TaskEvaluation::InProgress => Some(self.last_task),
            },
            None => Some(None),
        }
    }

    /// True iff every tier holds nothing.
    pub fn is_complete(&self) -> (r: bool)
        requires
            self.wf(),
        ensures
            r == obj_complete(
                self.absolute_tasks.tasks@,
                self.relative_tasks.tasks@,
                self.anytime_tasks.tasks@,
                self.last_task,
            ),
    {
        self.absolute_tasks.is_complete() && self.relative_tasks.is_complete()
            && self.anytime_tasks.is_complete() && self.last_task.is_none()
    }
}

/// A lone ordered task completes exactly when its card is played and
/// its player wins the trick, fails for good when its card is played
/// under another winner, and is left untouched by a trick that does not
/// hold its card.
pub proof fn lemma_single_task_front(t: Task, play: Set<int>, winner: PlayerIndex)
    ensures
        task_matches(t, play) && t.player == winner ==> check_front_spec(seq![t], play, winner)
            == Some(Seq::<Task>::empty()),
        task_matches(t, play) && t.player != winner ==> check_front_spec(seq![t], play, winner)
            is None,
        !task_matches(t, play) ==> check_front_spec(seq![t], play, winner) == Some(seq![t]),
{
    let s = seq![t];
    assert(s[0] == t);
    if task_matches(t, play) && t.player == winner {
        assert(s.skip(1) =~= Seq::<Task>::empty());
        assert(check_front_spec(s.skip(1), play, winner) == Some(Seq::<Task>::empty()));
    }
}

/// An ordered queue driven through a whole sequence of tricks, oldest
/// first; nothing is left once some trick kills the branch.
pub open spec fn run_front(s: Seq<Task>, tricks: Seq<(Set<int>, PlayerIndex)>) -> Option<Seq<Task>>
    decreases tricks.len(),
{
    if tricks.len() == 0 {
        Some(s)
    } else {
        match run_front(s, tricks.drop_last()) {
            Some(q) => check_front_spec(q, tricks.last().0, tricks.last().1),
            None => None,
        }
    }
}

/// A lone ordered task is satisfied by a sequence of tricks exactly when
/// its card first appears in a trick its player wins; tricks without the
/// card leave it pending, however many come in between.
pub proof fn lemma_single_task_eventually(t: Task, tricks: Seq<(Set<int>, PlayerIndex)>)
    ensures
        (run_front(seq![t], tricks) == Some(Seq::<Task>::empty())) <==> (exists|i: int|
            0 <= i < tricks.len() && task_matches(t, (#[trigger] tricks[i]).0) && tricks[i].1
                == t.player && (forall|j: int|
                0 <= j < i ==> !task_matches(t, (#[trigger] tricks[j]).0))),
        (run_front(seq![t], tricks) == Some(seq![t])) <==> (forall|i: int|
            0 <= i < tricks.len() ==> !task_matches(t, (#[trigger] tricks[i]).0)),
        run_front(seq![t], tricks) is None || run_front(seq![t], tricks) == Some(seq![t])
            || run_front(seq![t], tricks) == Some(Seq::<Task>::empty()),
    decreases tricks.len(),
{
    let single = seq![t];
    let empty = Seq::<Task>::empty();
    assert(single.len() == 1);
    if tricks.len() == 0 {
    } else {
        let front = tricks.drop_last();
        let l = tricks.last();
        lemma_single_task_eventually(t, front);
        lemma_single_task_front(t, l.0, l.1);
        assert(forall|i: int| 0 <= i < front.len() ==> front[i] == tricks[i]);
        assert(check_front_spec(empty, l.0, l.1) == Some(empty));
        if run_front(single, front) is None {
            if forall|i: int| 0 <= i < tricks.len() ==> !task_matches(t, (#[trigger] tricks[i]).0) {
                assert(forall|i: int|
                    0 <= i < front.len() ==> !task_matches(t, (#[trigger] front[i]).0));
            }
            if exists|i: int|
                0 <= i < tricks.len() && task_matches(t, (#[trigger] tricks[i]).0) && tricks[i].1
                    == t.player && (forall|j: int|
                    0 <= j < i ==> !task_matches(t, (#[trigger] tricks[j]).0)) {
                let i = choose|i: int|
                    0 <= i < tricks.len() && task_matches(t, (#[trigger] tricks[i]).0)
                        && tricks[i].1 == t.player && (forall|j: int|
                        0 <= j < i ==> !task_matches(t, (#[trigger] tricks[j]).0));
                if i < front.len() {
                    assert(task_matches(t, (front[i]).0));
                    assert(forall|j: int|
                        0 <= j < i ==> !task_matches(t, (#[trigger] front[j]).0));
                    assert(run_front(single, front) == Some(empty));
                } else {
                    assert(forall|j: int|
                        0 <= j < front.len() ==> !task_matches(t, (#[trigger] front[j]).0));
                    assert(run_front(single, front) == Some(single));
                }
            }
        } else if run_front(single, front) == Some(single) {
            assert(forall|i: int| 0 <= i < front.len() ==> !task_matches(t, (#[trigger] front[i]).0));
            if !task_matches(t, l.0) {
                assert(run_front(single, tricks) == Some(single));
                assert forall|i: int| 0 <= i < tricks.len() implies !task_matches(
                    t,
                    (#[trigger] tricks[i]).0,
                ) by {
                    if i < front.len() {
                        assert(tricks[i] == front[i]);
                    }
                }
            } else if t.player == l.1 {
                assert(run_front(single, tricks) == Some(empty));
                let w = tricks.len() - 1;
                assert(task_matches(t, (tricks[w]).0) && tricks[w].1 == t.player);
                assert(forall|j: int| 0 <= j < w ==> !task_matches(t, (#[trigger] tricks[j]).0));
            } else {
                assert(run_front(single, tricks) is None);
                if exists|i: int|
                    0 <= i < tricks.len() && task_matches(t, (#[trigger] tricks[i]).0)
                        && tricks[i].1 == t.player && (forall|j: int|
                        0 <= j < i ==> !task_matches(t, (#[trigger] tricks[j]).0)) {
                    let i = choose|i: int|
                        0 <= i < tricks.len() && task_matches(t, (#[trigger] tricks[i]).0)
                            && tricks[i].1 == t.player && (forall|j: int|
                            0 <= j < i ==> !task_matches(t, (#[trigger] tricks[j]).0));
                    if i < front.len() {
                        assert(task_matches(t, (front[i]).0));
                    }
                }
            }
        } else {
            assert(run_front(single, front) == Some(empty));
            assert(run_front(single, tricks) == Some(empty));
            let i = choose|i: int|
                0 <= i < front.len() && task_matches(t, (#[trigger] front[i]).0) && front[i].1
                    == t.player && (forall|j: int|
                    0 <= j < i ==> !task_matches(t, (#[trigger] front[j]).0));
            assert(task_matches(t, (tricks[i]).0) && tricks[i].1 == t.player);
            assert forall|j: int| 0 <= j < i implies !task_matches(t, (#[trigger] tricks[j]).0) by {
                assert(tricks[j] == front[j]);
            }
            assert(task_matches(t, (tricks[i]).0));
        }
    }
}

/// Two ordered tasks resolve only front to back: a trick that completes
/// the second task's card while the first is still out kills the
/// branch, even under the right winner.
pub proof fn lemma_order_enforced(t1: Task, t2: Task, play: Set<int>, winner: PlayerIndex)
    requires
        !task_matches(t1, play),
        task_matches(t2, play),
        t2.player == winner,
    ensures
        check_front_spec(seq![t1, t2], play, winner) is None,
{
    let s = seq![t1, t2];
    assert(s[0] == t1 && s[1] == t2);
    assert(task_eval(s[1], play, winner) == TaskEvaluation::Complete);
    assert(!all_in_progress(s, play, winner));
}

/// An unordered queue has no such constraint: the same trick that the
/// ordered queue rejects completes the second task and keeps the first.
pub proof fn lemma_anytime_any_order(t1: Task, t2: Task, play: Set<int>, winner: PlayerIndex)
    requires
        !task_matches(t1, play),
        task_matches(t2, play),
        t2.player == winner,
    ensures
        check_any_spec(seq![t1, t2], play, winner) == Some(seq![t1]),
{
    let s = seq![t1, t2];
    assert(s[0] == t1 && s[1] == t2);
    assert forall|k: int| 0 <= k < s.len() implies task_eval(#[trigger] s[k], play, winner)
        != TaskEvaluation::Failed by {}
    reveal_with_fuel(in_progress_tasks, 3);
    assert(s.drop_last() =~= seq![t1]);
    assert(seq![t1].drop_last() =~= Seq::<Task>::empty());
    assert(in_progress_tasks(Seq::<Task>::empty(), play, winner) =~= Seq::<Task>::empty());
    assert(in_progress_tasks(seq![t1], play, winner) =~= seq![t1]);
    assert(in_progress_tasks(s, play, winner) =~= seq![t1]);
}

/// The final task may not complete while an ordered task's card is
/// still out: a trick holding the final task's card but missing some
/// ordered task's card is rejected outright.
pub proof fn lemma_last_gated(
    abs: Seq<Task>,
    rel: Seq<Task>,
    any: Seq<Task>,
    t: Task,
    play: Set<int>,
    winner: PlayerIndex,
)
    requires
        task_matches(t, play),
        exists|k: int| 0 <= k < abs.len() && !task_matches(#[trigger] abs[k], play),
    ensures
        obj_check_spec(abs, rel, any, Some(t), play, winner) is None,
{
    let k = choose|k: int| 0 <= k < abs.len() && !task_matches(#[trigger] abs[k], play);
    assert(!tasks_covered(abs, play));
    assert(last_covered(Some(t), play));
    assert(!check_order_spec(abs, rel, any, Some(t), play));
}

/// A mutable builder for a bounded task queue.
#[derive(Debug)]
pub struct TaskListBuilder {
    pub list: TaskList,
}

impl TaskListBuilder {
    /// An empty queue under construction.
    pub fn new() -> (r: TaskListBuilder)
        ensures
            r.list.wf(),
            r.list.tasks@ == Seq::<Task>::empty(),
    {
        let r = TaskListBuilder { list: TaskList { mask: CardSet(0), tasks: Vec::new() } };
        proof {
            crate::card::lemma_empty_iff_zero(r.list.mask);
            lemma_tasks_mask_empty(r.list.tasks@);
            assert(r.list.mask@ =~= tasks_mask(r.list.tasks@));
        }
        r
    }

    /// A queue holding the given tasks, in order.
    pub fn from_list(tasks: &[Task]) -> (r: TaskListBuilder)
        requires
            tasks@.len() <= TASK_LIST_LENGTH,
        ensures
            r.list.wf(),
            r.list.tasks@ == tasks@,
    {
        let mut builder = TaskListBuilder::new();
        let n = tasks.len();
        let mut k: usize = 0;
        while k < n
            invariant
                n == tasks@.len(),
                n <= TASK_LIST_LENGTH,
                k <= n,
                builder.list.wf(),
                builder.list.tasks@ == tasks@.take(k as int),
            decreases n - k,
        {
            builder.push(tasks[k]);
            proof {
                assert(tasks@.take(k + 1) =~= tasks@.take(k as int).push(tasks@[k as int]));
            }
            k = k + 1;
        }
        proof {
            assert(tasks@.take(n as int) =~= tasks@);
        }
        builder
    }

    /// Appends one task and folds its card into the mask.
    pub fn push(&mut self, task: Task)
        requires
            old(self).list.wf(),
            old(self).list.tasks@.len() < TASK_LIST_LENGTH,
        ensures
            final(self).list.wf(),
            final(self).list.tasks@ == old(self).list.tasks@.push(task),
    {
        proof {
            lemma_tasks_mask_push(self.list.tasks@, task);
        }
        self.list.mask = self.list.mask.add(CardSet::from_card(task.card));
        self.list.tasks.push(task);
    }

    /// The finished queue.
    pub fn done(self) -> (r: TaskList)
        ensures
            r == self.list,
    {
        self.list
    }
}

} // verus!
