//! Runs of trials: one entropy read, one roll and one count per trial.

use crate::face::{die_roll, face_of};
use crate::table::FrequencyTable;
use crate::tally::{
    lemma_counts_add_up, lemma_tally_push, lemma_tally_total, on_the_die, sum_of_counts, tally,
};
use vstd::multiset::Multiset;
use vstd::prelude::*;

verus! {

/// The state of a run, as contracts see it.
pub struct RunState {
    /// The number of trials the run was started for.
    pub trials: nat,
    /// The faces rolled so far.
    pub rolled: Multiset<u32>,
}

/// The state of a run of `trials` trials before its first read.
pub open spec fn start(trials: nat) -> RunState {
    RunState { trials, rolled: Multiset::empty() }
}

/// Whether a run in state `state` has done all its trials.
pub open spec fn complete(state: RunState) -> bool {
    state.rolled.len() >= state.trials
}

/// What becomes of a run in state `state` that is handed the outcome of one
/// read of the entropy source.
///
/// While trials are left, a random integer adds the face it selects, and a
/// failed read ends the run with the read's error: no state is left, and with
/// it no count. A complete run ignores what it is handed.
pub open spec fn step<E>(state: RunState, read: Result<u32, E>) -> Result<RunState, E> {
    if complete(state) {
        Ok(state)
    } else {
        match read {
            Ok(random_int) => Ok(
                RunState { rolled: state.rolled.insert(face_of(random_int)), ..state },
            ),
            Err(error) => Err(error),
        }
    }
}

/// What becomes of a run in state `state` that is handed the outcomes `reads`
/// in turn, as long as none has failed.
pub open spec fn run_over<E>(state: RunState, reads: Seq<Result<u32, E>>) -> Result<RunState, E>
    decreases reads.len(),
{
    if reads.len() == 0 {
        Ok(state)
    } else {
        match run_over(state, reads.drop_last()) {
            Ok(before) => step(before, reads.last()),
            Err(error) => Err(error),
        }
    }
}

/// A run of die-roll trials that leaves reading the entropy source to its driver.
///
/// The driver asks [`TrialRun::progress`] what to do, performs a read when
/// told to draw, and hands the outcome to [`TrialRun::observe`].
#[derive(Debug)]
pub struct TrialRun {
    trials: u32,
    completed: u32,
    frequency: FrequencyTable,
}

/// Where a run stands, and with it what its driver has to do next.
#[derive(Debug)]
pub enum Progress {
    /// Trials are left: read the entropy source once more and hand the
    /// outcome to this run.
    Draw(TrialRun),
    /// All trials are done: this is the completed table, ready to be reported.
    Report(FrequencyTable),
}

impl View for TrialRun {
    type V = RunState;

    closed spec fn view(&self) -> RunState {
        RunState { trials: self.trials as nat, rolled: self.frequency@ }
    }
}

impl TrialRun {
    /// The table holds one face of the die for each completed trial, and
    /// never more than were asked for.
    #[verifier::type_invariant]
    spec fn counted(self) -> bool {
        &&& self.frequency@.len() == self.completed
        &&& self.completed <= self.trials
        &&& on_the_die(self.frequency@)
    }

    /// Starts a run of `trials` trials.
    pub fn new(trials: u32) -> (run: Self)
        ensures
            run@ == start(trials as nat),
    {
        TrialRun { trials, completed: 0, frequency: FrequencyTable::new() }
    }

    /// Tells where the run stands: it is handed back while trials are left, and
    /// gives way to the completed table once they are done.
    pub fn progress(self) -> (next: Progress)
        ensures
            match next {
                Progress::Draw(run) => !complete(self@) && run@ == self@,
                Progress::Report(table) => {
                    &&& complete(self@)
                    &&& table@ == self@.rolled
                    &&& on_the_die(table@)
                    &&& table@.len() == self@.trials
                    &&& sum_of_counts(table@) == self@.trials
                },
            },
    {
        proof {
            use_type_invariant(&self);
            lemma_counts_add_up(self.frequency@);
        }
        if self.completed < self.trials {
            Progress::Draw(self)
        } else {
            Progress::Report(self.frequency)
        }
    }

    /// Takes the outcome of one read of the entropy source and performs one
    /// trial on it. A failed read ends the run: its error is handed back, and
    /// what the run had counted is gone.
    pub fn observe<E>(self, read: Result<u32, E>) -> (next: Result<Self, E>)
        ensures
            match next {
                Ok(run) => step(self@, read) == Ok::<RunState, E>(run@),
                Err(error) => step(self@, read) == Err::<RunState, E>(error),
            },
    {
        proof {
            use_type_invariant(&self);
        }
        if self.completed >= self.trials {
            return Ok(self);
        }
        let TrialRun { trials, completed, frequency } = self;
        match read {
            Ok(random_int) => {
                let mut frequency = frequency;
                frequency.record(die_roll(random_int));
                Ok(TrialRun { trials, completed: completed + 1, frequency })
            },
            Err(error) => Err(error),
        }
    }
}

/// Whether the first `count` of `reads` succeeded, all of them.
pub open spec fn all_succeed<E>(count: nat, reads: Seq<Result<u32, E>>) -> bool {
    forall|i: int| 0 <= i < count ==> reads[i] is Ok
}

/// How many of `reads` a run of `trials` trials takes if none of them fails:
/// one for each trial, as far as there are any.
pub open spec fn taken<E>(trials: nat, reads: Seq<Result<u32, E>>) -> nat {
    if reads.len() < trials {
        reads.len()
    } else {
        trials
    }
}

/// The random integers that the first `count` of `reads` delivered.
pub open spec fn drawn<E>(count: nat, reads: Seq<Result<u32, E>>) -> Seq<u32> {
    Seq::new(count, |i: int| reads[i]->Ok_0)
}

/// Whether `error` is the error of the first failed read among the first
/// `count` of `reads`.
pub open spec fn is_first_failure<E>(error: E, count: nat, reads: Seq<Result<u32, E>>) -> bool {
    exists|i: int|
        0 <= i < count && all_succeed(i as nat, reads) && reads[i] == Err::<u32, E>(error)
}

/// Runs `trials` trials on the recorded outcomes of an entropy source and
/// returns the frequency table of the faces rolled.
///
/// Each trial takes the next outcome in `reads`: a random integer, or the
/// error of a read that failed. The first failure ends the run: its error is
/// returned, and nothing of what was counted before. Without a failure the
/// completed table is returned, or `None` if `reads` ends before the last
/// trial. Outcomes beyond the last trial play no part.
pub fn get_longrunning_frequency<E>(trials: u32, reads: Vec<Result<u32, E>>) -> (frequency: Result<
    Option<FrequencyTable>,
    E,
>)
    ensures
        frequency is Ok <==> all_succeed(taken(trials as nat, reads@), reads@),
        frequency matches Err(error) ==> is_first_failure(
            error,
            taken(trials as nat, reads@),
            reads@,
        ),
        frequency matches Ok(found) ==> (found is Some <==> trials <= reads.len()),
        frequency matches Ok(Some(table)) ==> {
            &&& table@ == tally(drawn(trials as nat, reads@))
            &&& on_the_die(table@)
            &&& table@.len() == trials
            &&& sum_of_counts(table@) == trials
        },
{
    let ghost outcomes = reads@;
    let mut run = TrialRun::new(trials);
    proof {
        lemma_tally_total(drawn(0, outcomes));
    }
    for read in source: reads.into_iter()
        invariant
            source.seq() == outcomes,
            run@.trials == trials,
            all_succeed(taken(trials as nat, outcomes.take(source.index())), outcomes),
            run@.rolled == tally(
                drawn(taken(trials as nat, outcomes.take(source.index())), outcomes),
            ),
    {
        let ghost before: nat = taken(trials as nat, outcomes.take(source.index()));
        proof {
            lemma_tally_total(drawn(before, outcomes));
            if let Ok(random_int) = read {
                if !complete(run@) {
                    assert(drawn(before + 1, outcomes) =~= drawn(before, outcomes).push(
                        random_int,
                    ));
                    lemma_tally_push(drawn(before, outcomes), random_int);
                }
            }
        }
        match run.observe(read) {
            Ok(next) => {
                run = next;
            },
            Err(error) => {
                return Err(error);
            },
        }
    }
    proof {
        lemma_tally_total(drawn(taken(trials as nat, outcomes), outcomes));
    }
    match run.progress() {
        Progress::Draw(_) => Ok(None),
        Progress::Report(table) => Ok(Some(table)),
    }
}

/// What becomes of a run of `trials` trials that is handed `reads`.
///
/// If one of the reads it takes failed, the run ended with the error of the
/// first of them. Otherwise it holds the tally of the random integers it has
/// taken, and it is complete as soon as these are `trials` many.
pub proof fn lemma_run_over<E>(trials: nat, reads: Seq<Result<u32, E>>)
    ensures
        match run_over(start(trials), reads) {
            Ok(end) => {
                &&& all_succeed(taken(trials, reads), reads)
                &&& end == RunState { trials, rolled: tally(drawn(taken(trials, reads), reads)) }
            },
            Err(error) => is_first_failure(error, taken(trials, reads), reads),
        },
    decreases reads.len(),
{
    if reads.len() == 0 {
        lemma_tally_total(drawn(0, reads));
        assert(tally(drawn(0, reads)) =~= Multiset::<u32>::empty());
    } else {
        let before = reads.drop_last();
        let count: nat = taken(trials, before);
        lemma_run_over(trials, before);
        lemma_tally_total(drawn(count, before));
        assert(drawn(count, before) =~= drawn(count, reads));
        assert(forall|i: int| 0 <= i < before.len() ==> before[i] == reads[i]);
        match (run_over(start(trials), before), reads.last()) {
            (Ok(_), Ok(random_int)) => {
                if before.len() < trials {
                    assert(drawn(reads.len(), reads) =~= drawn(count, reads).push(random_int));
                    lemma_tally_push(drawn(count, reads), random_int);
                }
            },
            (Ok(_), Err(error)) => {
                if before.len() < trials {
                    assert(reads[count as int] == Err::<u32, E>(error));
                }
            },
            (Err(error), _) => {
                let i: int = choose|i: int|
                    0 <= i < count && all_succeed(i as nat, before) && before[i] == Err::<u32, E>(
                        error,
                    );
                assert(all_succeed(i as nat, reads) && reads[i] == Err::<u32, E>(error));
            },
        }
    }
}

} // verus!
