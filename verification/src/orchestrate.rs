use vstd::prelude::*;

verus! {

/// How quickly the factor utilisation of one phase reached the threshold.
pub struct AdaptationRecord {
    pub phase: String,
    pub phase_index: usize,
    pub latency_ops: Option<usize>,
}

/// Where a main-event run stands.
#[derive(Debug, Clone, Copy, PartialEq, Eq, Structural)]
pub enum MainStage {
    /// A phase is about to start (or the run is over when all phases ran).
    Idle,
    /// The phase was set up; its first operation (or its end) is next.
    Started,
    /// Waiting for the stop flag before operation `op`.
    Polling,
    /// Operation `op` is being executed.
    Executing,
    /// A snapshot after operation `op` is being taken.
    MeasuringInterval,
    /// The snapshot at the end of the phase is being taken.
    MeasuringFinal,
    /// The snapshot at a stop request is being taken.
    MeasuringStop,
    /// The adaptation record of a finished phase is being stored.
    RecordingPhase,
    /// The adaptation record of an interrupted phase is being stored.
    RecordingStop,
    /// The run is over.
    Done,
}

/// What the driver reports back after carrying out an action.
#[derive(Debug, Clone, Copy, PartialEq, Eq, Structural)]
pub enum MainEventInput {
    /// The action was carried out and has nothing to report.
    Done,
    /// The stop flag was read.
    Polled(bool),
    /// A snapshot was taken; whether its factor utilisation reached the threshold.
    Measured(bool),
}

/// What the driver is to do next.
#[derive(Debug, Clone, Copy, PartialEq, Eq, Structural)]
pub enum MainEventAction {
    /// Reset the runner's metrics and start a workload for this phase of the schedule.
    StartPhase { phase_index: usize },
    /// Read the stop flag.
    Poll,
    /// Generate and execute operation `op` of the phase.
    Execute { op: usize },
    /// Collect the metrics, store a snapshot with these positions, and report
    /// whether the factor utilisation reached the threshold.
    Snapshot { phase_index: usize, ops_into_phase: usize, total_ops: usize },
    /// Store the adaptation record of the phase.
    Record { phase_index: usize, latency_ops: Option<usize> },
    /// The run is over.
    Finish { interrupted: bool },
}

/// The decisions of a main-event run: phases in turn, each a number of
/// operations, a snapshot every `snapshot_interval` operations and at the end
/// of each phase, the first operation at which the factor utilisation reached
/// the threshold, and an early end when the stop flag is raised.
#[derive(Debug, Clone, Copy, PartialEq, Eq, Structural)]
pub struct MainEventRun {
    pub ops_per_phase: usize,
    pub snapshot_interval: usize,
    pub phase_count: usize,
    pub phase_index: usize,
    pub op: usize,
    pub total_ops: usize,
    pub latency: Option<usize>,
    pub interrupted: bool,
    pub stage: MainStage,
}

/// The latency after a snapshot at `at`: the first position where the
/// threshold was reached.
pub open spec fn noted(latency: Option<usize>, reached: bool, at: usize) -> Option<usize> {
    if latency is None && reached {
        Some(at)
    } else {
        latency
    }
}


/// The state after feeding `inputs` to a run from `s`, and the actions it
/// took on the way.
pub open spec fn run_of(s: MainEventRun, inputs: Seq<MainEventInput>) -> (MainEventRun, Seq<MainEventAction>)
    decreases inputs.len(),
{
    if inputs.len() == 0 {
        (s, Seq::empty())
    } else {
        let before = run_of(s, inputs.drop_last());
        let after = before.0.next(inputs.last());
        (after.0, before.1.push(after.1))
    }
}

/// How many of the actions execute an operation.
pub open spec fn executes(acts: Seq<MainEventAction>) -> nat
    decreases acts.len(),
{
    if acts.len() == 0 {
        0
    } else {
        executes(acts.drop_last()) + if acts.last() is Execute { 1nat } else { 0nat }
    }
}

/// How many of the actions store an adaptation record.
pub open spec fn records(acts: Seq<MainEventAction>) -> nat
    decreases acts.len(),
{
    if acts.len() == 0 {
        0
    } else {
        records(acts.drop_last()) + if acts.last() is Record { 1nat } else { 0nat }
    }
}

/// The operations a run in state `s` has executed: those of the finished
/// phases and, within the current phase, those up to where it stands.
pub open spec fn executed(s: MainEventRun) -> int {
    match s.stage {
        MainStage::Idle | MainStage::Started => s.total_ops as int,
        MainStage::Polling | MainStage::MeasuringStop | MainStage::RecordingStop => s.total_ops + s.op - 1,
        MainStage::Executing | MainStage::MeasuringInterval => s.total_ops + s.op,
        MainStage::MeasuringFinal | MainStage::RecordingPhase => s.total_ops + s.ops_per_phase,
        MainStage::Done => if s.interrupted { s.total_ops + s.op - 1 } else { s.total_ops as int },
    }
}

/// The adaptation records a run in state `s` has stored: one per finished
/// phase, and one for a phase being recorded or stopped.
pub open spec fn recorded(s: MainEventRun) -> int {
    match s.stage {
        MainStage::RecordingStop | MainStage::RecordingPhase => s.phase_index + 1,
        MainStage::Done => if s.interrupted { s.phase_index + 1 } else { s.phase_index as int },
        _ => s.phase_index as int,
    }
}

/// Only a finished run is interrupted, and a run that finished without
/// interruption went through every phase.
pub open spec fn settled(s: MainEventRun) -> bool {
    &&& s.interrupted ==> s.stage == MainStage::Done
    &&& s.stage == MainStage::Done && !s.interrupted ==> s.phase_index == s.phase_count
}

/// One decision keeps a run well formed and settled, and adds to the
/// executed operations and stored records exactly what its action does.
proof fn lemma_next_counts(s: MainEventRun, input: MainEventInput)
    requires
        s.wf(),
        settled(s),
    ensures
        s.next(input).0.wf(),
        settled(s.next(input).0),
        s.next(input).0.ops_per_phase == s.ops_per_phase,
        s.next(input).0.phase_count == s.phase_count,
        executed(s.next(input).0) == executed(s) + if s.next(input).1 is Execute { 1int } else { 0int },
        recorded(s.next(input).0) == recorded(s) + if s.next(input).1 is Record { 1int } else { 0int },
{
    assert(s.total_ops + s.ops_per_phase <= s.phase_count * s.ops_per_phase || s.phase_index >= s.phase_count) by (nonlinear_arith)
        requires
            s.total_ops == s.phase_index * s.ops_per_phase,
    ;
    assert((s.phase_index + 1) * s.ops_per_phase == s.total_ops + s.ops_per_phase) by (nonlinear_arith)
        requires
            s.total_ops == s.phase_index * s.ops_per_phase,
    ;
}

/// Within a phase the adaptation latency is set once and never changes: a
/// decision that stays in the phase keeps a latency already set; a latency
/// newly set comes from a measurement that reached the threshold, taken
/// when none had, and is the position of that snapshot (`op`, or the end
/// of the phase); a phase starts with none; and a record carries the
/// latency the run then holds.
pub proof fn law_latency_set_once(s: MainEventRun, input: MainEventInput)
    requires
        s.wf(),
    ensures
        ({
            let (t, a) = s.next(input);
            &&& s.latency is Some && s.stage != MainStage::Idle && s.stage != MainStage::RecordingPhase
                ==> t.latency == s.latency
            &&& t.latency is Some && t.latency != s.latency ==> {
                &&& s.latency is None
                &&& input == MainEventInput::Measured(true)
                &&& (s.stage == MainStage::MeasuringInterval || s.stage == MainStage::MeasuringStop) ==> t.latency == Some(s.op)
                &&& s.stage == MainStage::MeasuringFinal ==> t.latency == Some(s.ops_per_phase)
                &&& (s.stage == MainStage::MeasuringInterval || s.stage == MainStage::MeasuringStop
                    || s.stage == MainStage::MeasuringFinal)
            }
            &&& a matches MainEventAction::Record { phase_index, latency_ops } ==> {
                &&& latency_ops == t.latency
                &&& phase_index == s.phase_index
            }
            &&& a matches MainEventAction::StartPhase { .. } ==> t.latency is None
        }),
{
}

/// Over a whole main-event run from its start, whatever the driver reports
/// back: every operation executed and every record stored is accounted for
/// by the state reached, and a run that finished without being stopped
/// executed `ops_per_phase` operations in each of its phases and stored one
/// adaptation record per phase.
pub proof fn law_main_event_counts(phase_count: usize, ops_per_phase: usize, snapshot_interval: usize, inputs: Seq<MainEventInput>)
    requires
        ops_per_phase > 0 ==> snapshot_interval > 0,
        phase_count * ops_per_phase <= usize::MAX,
    ensures
        ({
            let s0 = MainEventRun {
                ops_per_phase,
                snapshot_interval,
                phase_count,
                phase_index: 0,
                op: 1,
                total_ops: 0,
                latency: None,
                interrupted: false,
                stage: MainStage::Idle,
            };
            let (s, acts) = run_of(s0, inputs);
            &&& s.wf()
            &&& acts.len() == inputs.len()
            &&& executes(acts) == executed(s)
            &&& records(acts) == recorded(s)
            &&& s.stage == MainStage::Done && !s.interrupted ==> {
                &&& executes(acts) == phase_count * ops_per_phase
                &&& records(acts) == phase_count
            }
        }),
    decreases inputs.len(),
{
    let s0 = MainEventRun {
        ops_per_phase,
        snapshot_interval,
        phase_count,
        phase_index: 0,
        op: 1,
        total_ops: 0,
        latency: None,
        interrupted: false,
        stage: MainStage::Idle,
    };
    lemma_run_counts(s0, inputs);
    let (s, acts) = run_of(s0, inputs);
    if s.stage == MainStage::Done && !s.interrupted {
        assert(s.total_ops == phase_count * ops_per_phase);
    }
}

/// The accounting of `law_main_event_counts`, from any well-formed settled
/// state whose operations and records are all still to come.
proof fn lemma_run_counts(s0: MainEventRun, inputs: Seq<MainEventInput>)
    requires
        s0.wf(),
        settled(s0),
        executed(s0) == 0,
        recorded(s0) == 0,
    ensures
        run_of(s0, inputs).0.wf(),
        settled(run_of(s0, inputs).0),
        run_of(s0, inputs).0.ops_per_phase == s0.ops_per_phase,
        run_of(s0, inputs).0.phase_count == s0.phase_count,
        run_of(s0, inputs).1.len() == inputs.len(),
        executes(run_of(s0, inputs).1) == executed(run_of(s0, inputs).0),
        records(run_of(s0, inputs).1) == recorded(run_of(s0, inputs).0),
    decreases inputs.len(),
{
    if inputs.len() > 0 {
        let t = inputs.drop_last();
        lemma_run_counts(s0, t);
        let before = run_of(s0, t);
        lemma_next_counts(before.0, inputs.last());
        let acts = run_of(s0, inputs).1;
        assert(acts.drop_last() =~= before.1);
    }
}

impl MainEventRun {
    /// The positions stay within the run: the snapshot interval is positive
    /// when the phases have operations, the operation number lies in the
    /// phase, the total is the operations of the finished phases, and no
    /// position overflows.
    pub open spec fn wf(&self) -> bool {
        &&& self.ops_per_phase > 0 ==> self.snapshot_interval > 0
        &&& self.phase_index <= self.phase_count
        &&& self.phase_count * self.ops_per_phase <= usize::MAX
        &&& self.total_ops == self.phase_index * self.ops_per_phase
        &&& 1 <= self.op
        &&& (self.stage == MainStage::Polling || self.stage == MainStage::Executing || self.stage == MainStage::MeasuringInterval
            || self.stage == MainStage::MeasuringStop) ==> self.op <= self.ops_per_phase && self.phase_index < self.phase_count
        &&& (self.stage == MainStage::Started || self.stage == MainStage::MeasuringFinal || self.stage == MainStage::RecordingPhase
            || self.stage == MainStage::RecordingStop) ==> self.phase_index < self.phase_count
    }

    /// The state and action after the start of a phase, or the end of the run.
    pub open spec fn begin_phase(self) -> (MainEventRun, MainEventAction) {
        if self.phase_index < self.phase_count {
            (MainEventRun { op: 1, latency: None, stage: MainStage::Started, ..self }, MainEventAction::StartPhase { phase_index: self.phase_index })
        } else {
            (MainEventRun { stage: MainStage::Done, ..self }, MainEventAction::Finish { interrupted: self.interrupted })
        }
    }

    /// The state and action at the end of the phase.
    pub open spec fn end_phase(self) -> (MainEventRun, MainEventAction) {
        (MainEventRun { stage: MainStage::MeasuringFinal, ..self }, MainEventAction::Snapshot {
            phase_index: self.phase_index,
            ops_into_phase: self.ops_per_phase,
            total_ops: (self.total_ops + self.ops_per_phase) as usize,
        })
    }

    /// The state and action after operation `op` (and its snapshot, if any):
    /// the next operation, or the end of the phase.
    pub open spec fn after_op(self) -> (MainEventRun, MainEventAction) {
        if self.op < self.ops_per_phase {
            (MainEventRun { op: (self.op + 1) as usize, stage: MainStage::Polling, ..self }, MainEventAction::Poll)
        } else {
            self.end_phase()
        }
    }

    /// The next state and action, given what the last action reported.
    pub open spec fn next(self, input: MainEventInput) -> (MainEventRun, MainEventAction) {
        match self.stage {
            MainStage::Idle => self.begin_phase(),
            MainStage::Started => if self.ops_per_phase >= 1 {
                (MainEventRun { op: 1, stage: MainStage::Polling, ..self }, MainEventAction::Poll)
            } else {
                self.end_phase()
            },
            MainStage::Polling => if input == MainEventInput::Polled(true) {
                (MainEventRun { stage: MainStage::MeasuringStop, ..self }, MainEventAction::Snapshot {
                    phase_index: self.phase_index,
                    ops_into_phase: self.op,
                    total_ops: (self.total_ops + self.op) as usize,
                })
            } else {
                (MainEventRun { stage: MainStage::Executing, ..self }, MainEventAction::Execute { op: self.op })
            },
            MainStage::Executing => if self.op % self.snapshot_interval == 0 {
                (MainEventRun { stage: MainStage::MeasuringInterval, ..self }, MainEventAction::Snapshot {
                    phase_index: self.phase_index,
                    ops_into_phase: self.op,
                    total_ops: (self.total_ops + self.op) as usize,
                })
            } else {
                self.after_op()
            },
            MainStage::MeasuringInterval => MainEventRun {
                latency: noted(self.latency, input == MainEventInput::Measured(true), self.op),
                ..self
            }.after_op(),
            MainStage::MeasuringStop => {
                let latency = noted(self.latency, input == MainEventInput::Measured(true), self.op);
                (MainEventRun { latency, stage: MainStage::RecordingStop, ..self }, MainEventAction::Record {
                    phase_index: self.phase_index,
                    latency_ops: latency,
                })
            },
            MainStage::MeasuringFinal => {
                let latency = noted(self.latency, input == MainEventInput::Measured(true), self.ops_per_phase);
                (MainEventRun { latency, stage: MainStage::RecordingPhase, ..self }, MainEventAction::Record {
                    phase_index: self.phase_index,
                    latency_ops: latency,
                })
            },
            MainStage::RecordingStop => (MainEventRun { interrupted: true, stage: MainStage::Done, ..self }, MainEventAction::Finish {
                interrupted: true,
            }),
            MainStage::RecordingPhase => MainEventRun {
                total_ops: (self.total_ops + self.ops_per_phase) as usize,
                phase_index: (self.phase_index + 1) as usize,
                ..self
            }.begin_phase(),
            MainStage::Done => (self, MainEventAction::Finish { interrupted: self.interrupted }),
        }
    }

    /// A run of `phase_count` phases of `ops_per_phase` operations, with a
    /// snapshot every `snapshot_interval` operations, not started yet (the
    /// interval matters only when the phases have operations).
    pub fn new(phase_count: usize, ops_per_phase: usize, snapshot_interval: usize) -> (r: Self)
        requires
            ops_per_phase > 0 ==> snapshot_interval > 0,
            phase_count * ops_per_phase <= usize::MAX,
        ensures
            r.wf(),
            r == (MainEventRun {
                ops_per_phase,
                snapshot_interval,
                phase_count,
                phase_index: 0,
                op: 1,
                total_ops: 0,
                latency: None,
                interrupted: false,
                stage: MainStage::Idle,
            }),
    {
        MainEventRun {
            ops_per_phase,
            snapshot_interval,
            phase_count,
            phase_index: 0,
            op: 1,
            total_ops: 0,
            latency: None,
            interrupted: false,
            stage: MainStage::Idle,
        }
    }

    /// The run once the load came back: none when the load failed (nothing
    /// is run then), else a run not started yet (see `new`).
    pub fn after_load(
        load: &Result<(), anyhow::Error>,
        phase_count: usize,
        ops_per_phase: usize,
        snapshot_interval: usize,
    ) -> (r: Option<Self>)
        requires
            load is Ok && ops_per_phase > 0 ==> snapshot_interval > 0,
            load is Ok ==> phase_count * ops_per_phase <= usize::MAX,
        ensures
            load is Err ==> r is None,
            load is Ok ==> r == Some(MainEventRun {
                ops_per_phase,
                snapshot_interval,
                phase_count,
                phase_index: 0,
                op: 1,
                total_ops: 0,
                latency: None,
                interrupted: false,
                stage: MainStage::Idle,
            }),
    {
        match load {
            Ok(()) => Some(MainEventRun::new(phase_count, ops_per_phase, snapshot_interval)),
            Err(_) => None,
        }
    }

    fn begin_phase_exec(&mut self) -> (a: MainEventAction)
        requires
            old(self).wf(),
            old(self).stage == MainStage::Idle,
        ensures
            final(self).wf(),
            (*final(self), a) == old(self).begin_phase(),
    {
        if self.phase_index < self.phase_count {
            self.op = 1;
            self.latency = None;
            self.stage = MainStage::Started;
            MainEventAction::StartPhase { phase_index: self.phase_index }
        } else {
            self.stage = MainStage::Done;
            MainEventAction::Finish { interrupted: self.interrupted }
        }
    }

    fn end_phase_exec(&mut self) -> (a: MainEventAction)
        requires
            old(self).wf(),
            old(self).phase_index < old(self).phase_count,
        ensures
            final(self).wf(),
            (*final(self), a) == old(self).end_phase(),
    {
        proof {
            assert(self.total_ops + self.ops_per_phase <= self.phase_count * self.ops_per_phase) by (nonlinear_arith)
                requires
                    self.total_ops == self.phase_index * self.ops_per_phase,
                    self.phase_index < self.phase_count;
        }
        self.stage = MainStage::MeasuringFinal;
        MainEventAction::Snapshot {
            phase_index: self.phase_index,
            ops_into_phase: self.ops_per_phase,
            total_ops: self.total_ops + self.ops_per_phase,
        }
    }

    fn after_op_exec(&mut self) -> (a: MainEventAction)
        requires
            old(self).wf(),
            old(self).op <= old(self).ops_per_phase,
            old(self).phase_index < old(self).phase_count,
        ensures
            final(self).wf(),
            (*final(self), a) == old(self).after_op(),
    {
        if self.op < self.ops_per_phase {
            self.op = self.op + 1;
            self.stage = MainStage::Polling;
            MainEventAction::Poll
        } else {
            self.end_phase_exec()
        }
    }

    /// Takes the next decision: the new state and the action for the driver
    /// (see `next`).
    pub fn step(&mut self, input: MainEventInput) -> (a: MainEventAction)
        requires
            old(self).wf(),
        ensures
            final(self).wf(),
            (*final(self), a) == old(self).next(input),
    {
        proof {
            assert(self.total_ops + self.ops_per_phase <= self.phase_count * self.ops_per_phase
                || self.phase_index >= self.phase_count) by (nonlinear_arith)
                requires
                    self.total_ops == self.phase_index * self.ops_per_phase;
        }
        match self.stage {
            MainStage::Idle => self.begin_phase_exec(),
            MainStage::Started => {
                if self.ops_per_phase >= 1 {
                    self.op = 1;
                    self.stage = MainStage::Polling;
                    MainEventAction::Poll
                } else {
                    self.end_phase_exec()
                }
            },
            MainStage::Polling => {
                if input == MainEventInput::Polled(true) {
                    self.stage = MainStage::MeasuringStop;
                    MainEventAction::Snapshot {
                        phase_index: self.phase_index,
                        ops_into_phase: self.op,
                        total_ops: self.total_ops + self.op,
                    }
                } else {
                    self.stage = MainStage::Executing;
                    MainEventAction::Execute { op: self.op }
                }
            },
            MainStage::Executing => {
                if self.op % self.snapshot_interval == 0 {
                    self.stage = MainStage::MeasuringInterval;
                    MainEventAction::Snapshot {
                        phase_index: self.phase_index,
                        ops_into_phase: self.op,
                        total_ops: self.total_ops + self.op,
                    }
                } else {
                    self.after_op_exec()
                }
            },
            MainStage::MeasuringInterval => {
                if self.latency.is_none() && input == MainEventInput::Measured(true) {
                    self.latency = Some(self.op);
                }
                self.after_op_exec()
            },
            MainStage::MeasuringStop => {
                if self.latency.is_none() && input == MainEventInput::Measured(true) {
                    self.latency = Some(self.op);
                }
                self.stage = MainStage::RecordingStop;
                MainEventAction::Record { phase_index: self.phase_index, latency_ops: self.latency }
            },
            MainStage::MeasuringFinal => {
                if self.latency.is_none() && input == MainEventInput::Measured(true) {
                    self.latency = Some(self.ops_per_phase);
                }
                self.stage = MainStage::RecordingPhase;
                MainEventAction::Record { phase_index: self.phase_index, latency_ops: self.latency }
            },
            MainStage::RecordingStop => {
                self.interrupted = true;
                self.stage = MainStage::Done;
                MainEventAction::Finish { interrupted: true }
            },
            MainStage::RecordingPhase => {
                let ghost t0 = self.total_ops;
                let ghost p0 = self.phase_index;
                let ghost o = self.ops_per_phase;
                self.total_ops = self.total_ops + self.ops_per_phase;
                self.phase_index = self.phase_index + 1;
                self.stage = MainStage::Idle;
                proof {
                    let t1 = self.total_ops;
                    let p1 = self.phase_index;
                    assert(t1 == p1 * o) by (nonlinear_arith)
                        requires
                            t1 == t0 + o,
                            t0 == p0 * o,
                            p1 == p0 + 1;
                }
                self.begin_phase_exec()
            },
            MainStage::Done => MainEventAction::Finish { interrupted: self.interrupted },
        }
    }
}

} // verus!
