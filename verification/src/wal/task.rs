//! The rounds of the flushing thread: entries are taken from the ring buffer until it is empty, each
//! of them is written, what has waited long enough is flushed, and the thread pauses.
use super::flush::{ops, FlushOp, FlushState, FlushingControlBlock, Op, Pause};
use super::writing::{
    accepted, can_run, noted_by, ops_of, performed, run, state_after, Step, Writing,
};
use super::written::{lemma_noted_concat, lemma_performed_concat};
use super::{Entry, LogEntry};
use vstd::prelude::*;

verus! {

/// What a [`FlushingTask`] was told.
pub enum TaskEvent {
    /// Nothing yet.
    Begin,
    /// The operations that were asked for have been performed.
    Performed,
    /// An entry was taken from the ring buffer.
    Popped(LogEntry),
    /// The ring buffer is empty.
    Empty,
    /// The thread has paused, and goes on.
    Rested,
}

/// What a [`FlushingTask`] asks for.
pub enum TaskAction {
    /// Perform these operations, in order.
    Perform(Vec<FlushOp>),
    /// Take an entry from the ring buffer.
    Pop,
    /// The round is over: pause like that.
    Rest(Pause),
}

/// What a [`TaskEvent`] says.
pub enum TaskSeen {
    Begin,
    Performed,
    Popped(Entry),
    Empty,
    Rested,
}

/// What a [`TaskAction`] says.
pub enum TaskWants {
    Perform(Seq<Op>),
    Pop,
    Rest(Pause),
}

impl View for TaskEvent {
    type V = TaskSeen;

    open spec fn view(&self) -> TaskSeen {
        match *self {
            TaskEvent::Begin => TaskSeen::Begin,
            TaskEvent::Performed => TaskSeen::Performed,
            TaskEvent::Popped(e) => TaskSeen::Popped(e@),
            TaskEvent::Empty => TaskSeen::Empty,
            TaskEvent::Rested => TaskSeen::Rested,
        }
    }
}

impl View for TaskAction {
    type V = TaskWants;

    open spec fn view(&self) -> TaskWants {
        match *self {
            TaskAction::Perform(v) => TaskWants::Perform(ops(v@)),
            TaskAction::Pop => TaskWants::Pop,
            TaskAction::Rest(p) => TaskWants::Rest(p),
        }
    }
}

/// How far a round has got.
#[derive(Clone, Copy, Debug, PartialEq, Eq, Structural)]
pub enum Phase {
    /// Entries are taken and written.
    Writing,
    /// There are no more entries, and what had waited long enough is flushed.
    Flushing,
    /// The round is over but for the pause.
    Ending(Pause),
}

/// The state of a [`FlushingTask`].
#[verifier::ext_equal]
pub struct TaskState {
    pub s: FlushState,
    pub phase: Phase,
    /// Whether there was no entry in this round yet.
    pub noop: bool,
}

impl TaskState {
    /// The invariant: an entry is written to its end before the round goes on.
    pub open spec fn wf(self) -> bool {
        &&& self.s.wf()
        &&& self.phase != Phase::Writing ==> self.s.pending is None
        &&& self.phase == Phase::Flushing ==> !self.s.overdue()
    }

    /// Whether an event can come now.
    pub open spec fn expects(self, ev: TaskSeen) -> bool {
        match ev {
            TaskSeen::Begin => self.phase is Ending,
            TaskSeen::Performed => self.s.pending is Some ==> self.s.has_room(),
            TaskSeen::Popped(e) => {
                &&& self.phase == Phase::Writing
                &&& self.s.pending is None
                &&& e.lsn < u64::MAX
                &&& self.s.has_room()
            },
            TaskSeen::Empty => {
                &&& self.phase == Phase::Writing
                &&& self.s.pending is None
                &&& self.s.has_room()
            },
            TaskSeen::Rested => self.phase is Ending,
        }
    }

    /// What is done to the log at an event.
    pub open spec fn steps(self, ev: TaskSeen, min_lsn: u64, flush_min_lsn: u64) -> Seq<Step> {
        let fill = Step::Fill { min_lsn, flush_min_lsn };
        match ev {
            TaskSeen::Begin => seq![Step::Start],
            TaskSeen::Performed => if self.s.pending is Some {
                seq![fill]
            } else if self.phase == Phase::Flushing {
                seq![Step::EndRound { noop: self.noop, min_lsn }]
            } else {
                Seq::empty()
            },
            TaskSeen::Popped(entry) => seq![Step::Accept(entry), fill],
            TaskSeen::Empty => seq![Step::FlushOverdue { min_lsn, flush_min_lsn }],
            TaskSeen::Rested => Seq::empty(),
        }
    }

    /// The state after an event.
    pub open spec fn after(self, ev: TaskSeen, min_lsn: u64, flush_min_lsn: u64) -> TaskState {
        let s = after_steps(self.s, self.steps(ev, min_lsn, flush_min_lsn));
        match ev {
            TaskSeen::Begin => TaskState { s, ..self },
            TaskSeen::Performed => if self.s.pending is None && self.phase == Phase::Flushing {
                TaskState { s, phase: Phase::Ending(s.pause()), ..self }
            } else {
                TaskState { s, ..self }
            },
            TaskSeen::Popped(_) => TaskState { s, noop: false, ..self },
            TaskSeen::Empty => TaskState { s, phase: Phase::Flushing, ..self },
            TaskSeen::Rested => TaskState { s, phase: Phase::Writing, noop: true },
        }
    }

    /// What is asked for after an event.
    pub open spec fn asks(self, ev: TaskSeen, min_lsn: u64, flush_min_lsn: u64) -> TaskWants {
        let steps = self.steps(ev, min_lsn, flush_min_lsn);
        if steps.len() > 0 {
            TaskWants::Perform(steps_ops(self.s, steps))
        } else {
            match self.phase {
                Phase::Ending(pause) if ev is Performed => TaskWants::Rest(pause),
                _ => TaskWants::Pop,
            }
        }
    }
}

/// The state of the flushing after steps.
pub open spec fn after_steps(s: FlushState, steps: Seq<Step>) -> FlushState
    decreases steps.len(),
{
    if steps.len() == 0 {
        s
    } else {
        after_steps(state_after(s, steps[0]), steps.skip(1))
    }
}

/// The operations that steps take.
pub open spec fn steps_ops(s: FlushState, steps: Seq<Step>) -> Seq<Op>
    decreases steps.len(),
{
    if steps.len() == 0 {
        Seq::empty()
    } else {
        ops_of(s, steps[0]) + steps_ops(state_after(s, steps[0]), steps.skip(1))
    }
}

proof fn lemma_one_step(s: FlushState, step: Step)
    ensures
        after_steps(s, seq![step]) == state_after(s, step),
        steps_ops(s, seq![step]) == ops_of(s, step),
{
    let none = seq![step].skip(1);
    assert(after_steps(state_after(s, step), none) == state_after(s, step));
    assert(steps_ops(state_after(s, step), none) == Seq::<Op>::empty());
    assert(ops_of(s, step) + Seq::<Op>::empty() =~= ops_of(s, step));
}

proof fn lemma_two_steps(s: FlushState, a: Step, b: Step)
    ensures
        after_steps(s, seq![a, b]) == state_after(state_after(s, a), b),
        steps_ops(s, seq![a, b]) == ops_of(s, a) + ops_of(state_after(s, a), b),
{
    assert(seq![a, b].skip(1) =~= seq![b]);
    lemma_one_step(state_after(s, a), b);
}

/// The rounds of the flushing thread.
pub struct FlushingTask {
    fcb: FlushingControlBlock,
    phase: Phase,
    noop: bool,
}

impl View for FlushingTask {
    type V = TaskState;

    closed spec fn view(&self) -> TaskState {
        TaskState { s: self.fcb@, phase: self.phase, noop: self.noop }
    }
}

impl FlushingTask {
    /// Sets up the rounds. Before the first one the thread does not pause.
    pub fn new(fcb: FlushingControlBlock) -> (r: Self)
        requires
            fcb@.wf(),
            fcb@.pending is None,
        ensures
            r@ == (TaskState { s: fcb@, phase: Phase::Ending(Pause::NoPause), noop: true }),
            r@.wf(),
    {
        FlushingTask { fcb, phase: Phase::Ending(Pause::NoPause), noop: true }
    }

    /// Tells whether sizes and rotation numbers stay in the range of their types when the buffer is
    /// flushed.
    pub fn has_room(&self) -> (r: bool)
        requires
            self@.wf(),
        ensures
            r == self@.s.has_room(),
    {
        self.fcb.has_room()
    }

    /// Notes at which LSN the next rotation falls out of use, after rotations were released.
    pub fn released(&mut self, next_no_use_lsn: u64)
        requires
            old(self)@.wf(),
        ensures
            final(self)@ == (TaskState {
                s: FlushState { next_no_use_lsn, ..old(self)@.s },
                ..old(self)@
            }),
            final(self)@.wf(),
    {
        self.fcb.released(next_no_use_lsn)
    }

    /// Goes on after an event.
    ///
    /// Parameters:
    /// - `ev`: The event.
    /// - `min_lsn`: The smallest LSN that is needed.
    /// - `flush_min_lsn`: The smallest LSN that is needed, looked at once more.
    pub fn step(&mut self, ev: TaskEvent, min_lsn: u64, flush_min_lsn: u64) -> (r: TaskAction)
        requires
            old(self)@.wf(),
            old(self)@.expects(ev@),
        ensures
            final(self)@ == old(self)@.after(ev@, min_lsn, flush_min_lsn),
            r@ == old(self)@.asks(ev@, min_lsn, flush_min_lsn),
            final(self)@.wf(),
    {
        match ev {
            TaskEvent::Begin => {
                proof {
                    lemma_one_step(self@.s, Step::Start);
                }
                TaskAction::Perform(self.fcb.start())
            },
            TaskEvent::Performed => self.go_on(min_lsn, flush_min_lsn),
            TaskEvent::Popped(entry) => TaskAction::Perform(
                self.write(entry, min_lsn, flush_min_lsn),
            ),
            TaskEvent::Empty => {
                proof {
                    lemma_one_step(self@.s, Step::FlushOverdue { min_lsn, flush_min_lsn });
                }
                self.phase = Phase::Flushing;
                TaskAction::Perform(self.fcb.flush_overdue(min_lsn, flush_min_lsn))
            },
            TaskEvent::Rested => {
                self.phase = Phase::Writing;
                self.noop = true;
                TaskAction::Pop
            },
        }
    }

    fn go_on(&mut self, min_lsn: u64, flush_min_lsn: u64) -> (r: TaskAction)
        requires
            old(self)@.wf(),
            old(self)@.expects(TaskSeen::Performed),
        ensures
            final(self)@ == old(self)@.after(TaskSeen::Performed, min_lsn, flush_min_lsn),
            r@ == old(self)@.asks(TaskSeen::Performed, min_lsn, flush_min_lsn),
            final(self)@.wf(),
    {
        if self.fcb.is_busy() {
            proof {
                lemma_one_step(self@.s, Step::Fill { min_lsn, flush_min_lsn });
            }
            return TaskAction::Perform(self.fcb.fill(min_lsn, flush_min_lsn));
        }
        match self.phase {
            Phase::Writing => TaskAction::Pop,
            Phase::Flushing => {
                proof {
                    lemma_one_step(self@.s, Step::EndRound { noop: self.noop, min_lsn });
                }
                let end = self.fcb.end_round(self.noop, min_lsn);
                self.phase = Phase::Ending(end.pause);
                TaskAction::Perform(end.ops)
            },
            Phase::Ending(pause) => TaskAction::Rest(pause),
        }
    }

    fn write(&mut self, entry: LogEntry, min_lsn: u64, flush_min_lsn: u64) -> (r: Vec<FlushOp>)
        requires
            old(self)@.wf(),
            old(self)@.expects(TaskSeen::Popped(entry@)),
        ensures
            final(self)@ == old(self)@.after(TaskSeen::Popped(entry@), min_lsn, flush_min_lsn),
            TaskWants::Perform(ops(r@)) == old(self)@.asks(
                TaskSeen::Popped(entry@),
                min_lsn,
                flush_min_lsn,
            ),
            final(self)@.wf(),
    {
        proof {
            lemma_two_steps(
                self@.s,
                Step::Accept(entry@),
                Step::Fill { min_lsn, flush_min_lsn },
            );
        }
        self.noop = false;
        self.fcb.accept(entry);
        let r = self.fcb.fill(min_lsn, flush_min_lsn);
        assert(Seq::<Op>::empty() + ops(r@) =~= ops(r@));
        r
    }
}

/// The steps of the flushing thread, one after the other, lead to the same state and take the same
/// operations.
proof fn lemma_run_steps(w: Writing, steps: Seq<Step>)
    ensures
        run(w, steps).s == after_steps(w.s, steps),
        run(w, steps).rots == performed(w.s.prefix, w.rots, steps_ops(w.s, steps)),
        run(w, steps).mani == noted_by(w.mani, steps_ops(w.s, steps)),
    decreases steps.len(),
{
    if steps.len() > 0 {
        reveal(Writing::after);
        let first = ops_of(w.s, steps[0]);
        let w1 = w.after(steps[0]);
        let rest = steps_ops(w1.s, steps.skip(1));
        lemma_run_steps(w1, steps.skip(1));
        assert(w1.s.prefix == w.s.prefix);
        lemma_performed_concat(w.s.prefix, w.rots, first, rest);
        lemma_noted_concat(w.mani, first, rest);
    }
}

/// The steps that an event leads to can be taken.
#[verifier::spinoff_prover]
proof fn lemma_steps_can_run(
    w: Writing,
    t: TaskState,
    ev: TaskSeen,
    min_lsn: u64,
    flush_min_lsn: u64,
)
    requires
        t.wf(),
        t.expects(ev),
        w.s == t.s,
        w.now <= min_lsn <= flush_min_lsn,
        ev is Begin ==> w.s.last_min_lsn == w.now,
    ensures
        can_run(w, t.steps(ev, min_lsn, flush_min_lsn)),
{
    reveal(Writing::after);
    let steps = t.steps(ev, min_lsn, flush_min_lsn);
    if steps.len() > 0 {
        let rest = steps.skip(1);
        let w1 = w.after(steps[0]);
        assert(w.can(steps[0]));
        if let TaskSeen::Popped(entry) = ev {
            let fill = Step::Fill { min_lsn, flush_min_lsn };
            assert(rest =~= seq![fill]);
            assert(w1.can(fill));
            assert(can_run(w1.after(fill), rest.skip(1)));
        }
        assert(can_run(w1, rest));
    }
}

/// The entries that an event takes.
#[verifier::spinoff_prover]
proof fn lemma_steps_accepted(t: TaskState, ev: TaskSeen, min_lsn: u64, flush_min_lsn: u64)
    ensures
        accepted(t.steps(ev, min_lsn, flush_min_lsn)) == (match ev {
            TaskSeen::Popped(entry) => seq![entry],
            _ => Seq::empty(),
        }),
{
    reveal_with_fuel(accepted, 3);
    let steps = t.steps(ev, min_lsn, flush_min_lsn);
    if let TaskSeen::Popped(entry) = ev {
        assert(steps.skip(1) =~= seq![Step::Fill { min_lsn, flush_min_lsn }]);
        assert(accepted(steps) =~= seq![entry]);
    } else {
        assert(accepted(steps) =~= Seq::empty());
    }
}

/// What a task does is what the flushing thread may do: an event leads to steps that can be taken,
/// the operations that are asked for do to the files what these steps do, and an entry is taken when
/// it comes from the ring buffer.
#[verifier::spinoff_prover]
pub proof fn law_events_are_steps(
    w: Writing,
    t: TaskState,
    ev: TaskSeen,
    min_lsn: u64,
    flush_min_lsn: u64,
)
    requires
        t.wf(),
        t.expects(ev),
        w.s == t.s,
        w.now <= min_lsn <= flush_min_lsn,
        ev is Begin ==> w.s.last_min_lsn == w.now,
    ensures
        ({
            let steps = t.steps(ev, min_lsn, flush_min_lsn);
            let end = run(w, steps);
            let ops = match t.asks(ev, min_lsn, flush_min_lsn) {
                TaskWants::Perform(ops) => ops,
                _ => Seq::empty(),
            };
            &&& can_run(w, steps)
            &&& end.s == t.after(ev, min_lsn, flush_min_lsn).s
            &&& end.rots == performed(w.s.prefix, w.rots, ops)
            &&& end.mani == noted_by(w.mani, ops)
            &&& accepted(steps) == (match ev {
                TaskSeen::Popped(entry) => seq![entry],
                _ => Seq::empty(),
            })
        }),
{
    lemma_run_steps(w, t.steps(ev, min_lsn, flush_min_lsn));
    lemma_steps_can_run(w, t, ev, min_lsn, flush_min_lsn);
    lemma_steps_accepted(t, ev, min_lsn, flush_min_lsn);
}

/// An entry is asked for only when none is being written, so that the next one can be taken, or the
/// round can be ended.
pub proof fn law_entries_are_written_one_by_one(
    t: TaskState,
    ev: TaskSeen,
    min_lsn: u64,
    flush_min_lsn: u64,
)
    requires
        t.wf(),
        t.expects(ev),
        t.asks(ev, min_lsn, flush_min_lsn) is Pop,
    ensures
        ({
            let next = t.after(ev, min_lsn, flush_min_lsn);
            &&& next.s.pending is None
            &&& next.phase == Phase::Writing
        }),
{
}

/// A round goes like that: each entry that is taken is written step by step until none of it is left,
/// and then the next one is asked for. When there are no more, what has waited long enough is flushed,
/// the round is ended, and the thread pauses. A round counts as idle exactly if no entry was taken in it.
#[verifier::spinoff_prover]
pub proof fn law_rounds(t: TaskState, ev: TaskSeen, min_lsn: u64, flush_min_lsn: u64)
    ensures
        ({
            let next = t.after(ev, min_lsn, flush_min_lsn);
            let asks = t.asks(ev, min_lsn, flush_min_lsn);
            let fill = Step::Fill { min_lsn, flush_min_lsn };
            let flush = Step::FlushOverdue { min_lsn, flush_min_lsn };
            let end = Step::EndRound { noop: t.noop, min_lsn };
            match ev {
                TaskSeen::Begin => {
                    &&& asks == TaskWants::Perform(ops_of(t.s, Step::Start))
                    &&& next.s == state_after(t.s, Step::Start)
                    &&& next.phase == t.phase
                    &&& next.noop == t.noop
                },
                TaskSeen::Popped(entry) => {
                    let s = state_after(t.s, Step::Accept(entry));
                    &&& asks == TaskWants::Perform(ops_of(s, fill))
                    &&& next.s == state_after(s, fill)
                    &&& next.phase == t.phase
                    &&& !next.noop
                },
                TaskSeen::Empty => {
                    &&& asks == TaskWants::Perform(ops_of(t.s, flush))
                    &&& next.s == state_after(t.s, flush)
                    &&& next.phase == Phase::Flushing
                    &&& next.noop == t.noop
                },
                TaskSeen::Rested => {
                    &&& asks == TaskWants::Pop
                    &&& next.s == t.s
                    &&& next.phase == Phase::Writing
                    &&& next.noop
                },
                TaskSeen::Performed => {
                    &&& next.noop == t.noop
                    &&& t.s.pending is Some ==> {
                        &&& asks == TaskWants::Perform(ops_of(t.s, fill))
                        &&& next.s == state_after(t.s, fill)
                        &&& next.phase == t.phase
                    }
                    &&& t.s.pending is None ==> match t.phase {
                        Phase::Writing => asks == TaskWants::Pop && next == t,
                        Phase::Flushing => {
                            &&& asks == TaskWants::Perform(ops_of(t.s, end))
                            &&& next.s == state_after(t.s, end)
                            &&& next.phase == Phase::Ending(next.s.pause())
                        },
                        Phase::Ending(pause) => asks == TaskWants::Rest(pause) && next == t,
                    }
                },
            }
        }),
{
    let fill = Step::Fill { min_lsn, flush_min_lsn };
    match ev {
        TaskSeen::Begin => lemma_one_step(t.s, Step::Start),
        TaskSeen::Popped(entry) => {
            let s = state_after(t.s, Step::Accept(entry));
            lemma_two_steps(t.s, Step::Accept(entry), fill);
            assert(Seq::<Op>::empty() + ops_of(s, fill) =~= ops_of(s, fill));
        },
        TaskSeen::Empty => lemma_one_step(t.s, Step::FlushOverdue { min_lsn, flush_min_lsn }),
        TaskSeen::Rested => {},
        TaskSeen::Performed => if t.s.pending is Some {
            lemma_one_step(t.s, fill);
        } else if t.phase == Phase::Flushing {
            lemma_one_step(t.s, Step::EndRound { noop: t.noop, min_lsn });
        },
    }
}

/// An event is refused only if it answers nothing that was asked for, or if a size, a rotation number or
/// an LSN would leave the range of its type.
pub proof fn law_expected_events(t: TaskState, ev: TaskSeen)
    requires
        t.wf(),
        t.s.rot_no < u32::MAX,
        t.s.rot_size + t.s.buf_size <= u64::MAX,
    ensures
        ev is Performed ==> t.expects(ev),
        t.phase == Phase::Writing && t.s.pending is None ==> t.expects(TaskSeen::Empty) && (
        ev matches TaskSeen::Popped(entry) ==> (t.expects(ev) <==> entry.lsn < u64::MAX)),
        t.phase is Ending ==> t.expects(TaskSeen::Begin) && t.expects(TaskSeen::Rested),
{
}

} // verus!
