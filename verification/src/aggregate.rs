//! The run over a log: from its records to the cycles it holds.
//!
//! A run begins seeking: it reads the pressure of each record until one lies
//! above the threshold, and takes the displacement of that record as its
//! first. From then on it is armed: each record gives a displacement and a
//! reading for the range of the cycle under way. Where the displacement
//! turns from sign-positive to sign-negative the cycle closes. It is kept if
//! it took more than 150 samples, and dropped as noise otherwise.

use std::collections::HashMap;
use vstd::prelude::*;
use vstd::std_specs::hash::*;
use crate::config::{Config, Settings};
use crate::extremum::MinMaxValue;
use crate::number::{greater, greater_than, is_sign_negative, is_sign_positive, sign_negative};
use crate::record::{lookup, Record, RecordError, Tokens};

verus! {

/// A cycle is kept only if it took more samples than this.
pub const NOISE_LIMIT: usize = 150;

/// The sample count with which the cycle after a crossing begins.
pub const RESTART: usize = 3;

/// The cycles that a run has kept: each under its number, counted from 1 in
/// the order in which they closed, with its range and its sample count.
pub type Dataset = HashMap<usize, (MinMaxValue, usize)>;

/// The record that stopped a run, by the number of its line (counted from 1),
/// and why it could not be read.
#[derive(Debug, Clone, Copy, PartialEq, Eq, Structural)]
pub struct FatalParseError {
    pub line: usize,
    pub kind: RecordError,
}

/// The state of a run.
pub struct Run {
    /// How many records the run has taken.
    pub lines: nat,
    /// The displacement of the record before, once the run is armed.
    pub last: Option<u32>,
    /// The range of the cycle under way.
    pub current: MinMaxValue,
    /// The sample count of the cycle under way.
    pub samples: nat,
    /// The cycles kept so far, in the order in which they closed.
    pub cycles: Seq<(MinMaxValue, nat)>,
}

/// A run that stopped: at which line, and why.
pub struct Failure {
    pub line: nat,
    pub kind: RecordError,
}

impl Run {
    /// The state before the first record.
    pub open spec fn start() -> Run {
        Run {
            lines: 0,
            last: None,
            current: MinMaxValue::empty(),
            samples: 1,
            cycles: Seq::empty(),
        }
    }
}

/// Whether the displacement turns from sign-positive to sign-negative.
pub open spec fn crossing(last: u32, now: u32) -> bool {
    !sign_negative(last) && sign_negative(now)
}

/// The state after one more record, or why the record could not be read.
pub open spec fn step(run: Run, record: Tokens, settings: Settings) -> Result<Run, RecordError> {
    match run.last {
        None => match lookup(record, settings.pressure) {
            Err(kind) => Err(kind),
            Ok(pressure) => if greater(pressure, settings.threshold) {
                match lookup(record, settings.displacement) {
                    Err(kind) => Err(kind),
                    Ok(now) => Ok(Run { lines: run.lines + 1, last: Some(now), ..run }),
                }
            } else {
                Ok(Run { lines: run.lines + 1, ..run })
            },
        },
        Some(last) => match lookup(record, settings.displacement) {
            Err(kind) => Err(kind),
            Ok(now) => match lookup(record, settings.min_max) {
                Err(kind) => Err(kind),
                Ok(value) => {
                    let seen = run.current.with(value);
                    if crossing(last, now) {
                        Ok(
                            Run {
                                lines: run.lines + 1,
                                last: Some(now),
                                current: MinMaxValue::empty(),
                                samples: RESTART as nat,
                                cycles: if run.samples > NOISE_LIMIT {
                                    run.cycles.push((seen, run.samples))
                                } else {
                                    run.cycles
                                },
                            },
                        )
                    } else {
                        Ok(
                            Run {
                                lines: run.lines + 1,
                                last: Some(now),
                                current: seen,
                                samples: run.samples + 1,
                                cycles: run.cycles,
                            },
                        )
                    }
                },
            },
        },
    }
}

/// The state after all of `records`, or the first record that could not be
/// read.
pub open spec fn outcome(records: Seq<Tokens>, settings: Settings) -> Result<Run, Failure>
    decreases records.len(),
{
    if records.len() == 0 {
        Ok(Run::start())
    } else {
        match outcome(records.drop_last(), settings) {
            Err(failure) => Err(failure),
            Ok(run) => match step(run, records.last(), settings) {
                Ok(next) => Ok(next),
                Err(kind) => Err(Failure { line: records.len(), kind }),
            },
        }
    }
}

/// The dataset that holds `cycles`: the first under 1, the second under 2,
/// and so on.
pub open spec fn dataset_of(cycles: Seq<(MinMaxValue, nat)>) -> Map<usize, (MinMaxValue, usize)> {
    Map::new(
        |k: usize| 1 <= k <= cycles.len(),
        |k: usize| (cycles[k - 1].0, cycles[k - 1].1 as usize),
    )
}

/// What a list of records holds, each record as its tokens.
pub open spec fn records_view(records: Seq<Record>) -> Seq<Tokens> {
    Seq::new(records.len(), |i: int| records[i]@)
}

/// A dataset of `n` cycles has the keys from 1 to `n`, and as many entries.
pub proof fn lemma_dataset_keys(cycles: Seq<(MinMaxValue, nat)>)
    requires
        cycles.len() <= usize::MAX,
    ensures
        dataset_of(cycles).dom().finite(),
        dataset_of(cycles).len() == cycles.len(),
        forall|k: usize| dataset_of(cycles).contains_key(k) <==> 1 <= k <= cycles.len(),
        forall|k: usize|
            1 <= k <= cycles.len() ==> #[trigger] dataset_of(cycles)[k] == (
                cycles[k - 1].0,
                cycles[k - 1].1 as usize,
            ),
    decreases cycles.len(),
{
    if cycles.len() == 0 {
        assert(dataset_of(cycles).dom() =~= Set::<usize>::empty());
    } else {
        let before = cycles.drop_last();
        lemma_dataset_keys(before);
        lemma_dataset_grows(before, cycles.last());
        assert(before.push(cycles.last()) =~= cycles);
    }
}

/// Keeping one more cycle puts it under the next free number and leaves the
/// others where they are.
pub proof fn lemma_dataset_grows(cycles: Seq<(MinMaxValue, nat)>, cycle: (MinMaxValue, nat))
    requires
        cycles.len() < usize::MAX,
    ensures
        dataset_of(cycles.push(cycle)) == dataset_of(cycles).insert(
            (cycles.len() + 1) as usize,
            (cycle.0, cycle.1 as usize),
        ),
        !dataset_of(cycles).contains_key((cycles.len() + 1) as usize),
{
    let grown = cycles.push(cycle);
    let key = (cycles.len() + 1) as usize;
    let put = dataset_of(cycles).insert(key, (cycle.0, cycle.1 as usize));
    assert forall|k: usize| dataset_of(grown).contains_key(k) <==> put.contains_key(k) by {}
    assert forall|k: usize| dataset_of(grown).contains_key(k) implies dataset_of(grown)[k]
        == put[k] by {
        if k != key {
            assert(grown[k - 1] == cycles[k - 1]);
        }
    }
    assert(dataset_of(grown) =~= put);
}

/// Where a prefix of the records stops the run, so does the whole.
proof fn lemma_failure_stays(records: Seq<Tokens>, settings: Settings, n: int)
    requires
        0 <= n <= records.len(),
        outcome(records.take(n), settings) is Err,
    ensures
        outcome(records, settings) == outcome(records.take(n), settings),
    decreases records.len() - n,
{
    if n < records.len() {
        assert(records.drop_last().take(n) =~= records.take(n));
        lemma_failure_stays(records.drop_last(), settings, n);
    } else {
        assert(records.take(n) =~= records);
    }
}

/// What holds of a run after any records: it is armed only after a record,
/// it has kept no more cycles than it has taken records, no sample count is
/// more than one above the number of records, and each kept cycle took more
/// samples than the noise limit.
pub open spec fn sound(run: Run) -> bool {
    &&& run.last is Some ==> run.lines >= 1
    &&& run.cycles.len() <= run.lines
    &&& 1 <= run.samples <= run.lines + 1
    &&& forall|i: int|
        0 <= i < run.cycles.len() ==> NOISE_LIMIT < (#[trigger] run.cycles[i]).1 <= run.lines
}

/// One record keeps a run sound, and counts as one line.
pub proof fn lemma_step_sound(run: Run, record: Tokens, settings: Settings)
    requires
        sound(run),
    ensures
        step(run, record, settings) matches Ok(next) ==> sound(next) && next.lines == run.lines + 1,
{
}

/// A run that read all its records is sound and has taken them all. One that
/// stopped names a line of the log.
pub proof fn lemma_outcome_sound(records: Seq<Tokens>, settings: Settings)
    ensures
        match outcome(records, settings) {
            Ok(run) => sound(run) && run.lines == records.len(),
            Err(failure) => 1 <= failure.line <= records.len(),
        },
    decreases records.len(),
{
    if records.len() > 0 {
        lemma_outcome_sound(records.drop_last(), settings);
        if let Ok(run) = outcome(records.drop_last(), settings) {
            lemma_step_sound(run, records.last(), settings);
        }
    }
}

/// No cycle of `NOISE_LIMIT` samples or fewer is among the cycles kept: a
/// record adds at most one cycle, and only at a crossing that finds more
/// samples than that. The cycle added holds the range up to and with the
/// reading of the crossing, and the sample count at the crossing.
pub proof fn lemma_step_keeps_long_cycles(run: Run, record: Tokens, settings: Settings)
    ensures
        step(run, record, settings) matches Ok(next) ==> {
            ||| next.cycles == run.cycles
            ||| {
                &&& run.samples > NOISE_LIMIT
                &&& run.last matches Some(last)
                &&& lookup(record, settings.displacement) matches Ok(now)
                &&& lookup(record, settings.min_max) matches Ok(value)
                &&& crossing(last, now)
                &&& next.cycles == run.cycles.push((run.current.with(value), run.samples))
            }
        },
        step(run, record, settings) matches Ok(next) ==> (run.samples <= NOISE_LIMIT
            ==> next.cycles == run.cycles),
{
}

/// A crossing closes the cycle under way, kept or dropped: the next begins
/// with the empty range and a sample count of three.
pub proof fn lemma_crossing_restarts(run: Run, record: Tokens, settings: Settings)
    requires
        run.last matches Some(last) && lookup(record, settings.displacement) matches Ok(now)
            && crossing(last, now),
        lookup(record, settings.min_max) is Ok,
    ensures
        step(run, record, settings) matches Ok(next) && next.samples == RESTART
            && next.current.is_empty(),
{
}

/// Without a crossing an armed run counts one more sample and takes the
/// reading into the range of the cycle under way.
pub proof fn lemma_sample_counts(run: Run, record: Tokens, settings: Settings)
    requires
        run.last matches Some(last) && lookup(record, settings.displacement) matches Ok(now)
            && !crossing(last, now),
        lookup(record, settings.min_max) is Ok,
    ensures
        step(run, record, settings) matches Ok(next) && next.samples == run.samples + 1
            && next.current == run.current.with(lookup(record, settings.min_max)->Ok_0)
            && next.cycles == run.cycles,
{
}

/// The pressure decides only once: an armed run stays armed, and a run that
/// is still seeking counts no sample, takes in no reading and keeps no cycle.
pub proof fn lemma_armed_for_good(run: Run, record: Tokens, settings: Settings)
    ensures
        step(run, record, settings) matches Ok(next) ==> {
            &&& run.last is Some ==> next.last is Some
            &&& run.last is None ==> next.current == run.current && next.samples == run.samples
                && next.cycles == run.cycles
        },
{
}

/// Every cycle that a run over `records` keeps took more samples than the
/// noise limit, and the dataset holds the cycles under the numbers from 1 to
/// their count, without a gap.
pub proof fn lemma_dataset_of_run(records: Seq<Tokens>, settings: Settings)
    requires
        records.len() <= usize::MAX,
    ensures
        outcome(records, settings) matches Ok(run) ==> {
            let dataset = dataset_of(run.cycles);
            &&& dataset.dom().finite()
            &&& dataset.len() == run.cycles.len()
            &&& forall|k: usize| dataset.contains_key(k) <==> 1 <= k <= dataset.len()
            &&& forall|k: usize| dataset.contains_key(k) ==> (#[trigger] dataset[k]).1 > NOISE_LIMIT
            &&& forall|k: usize|
                dataset.contains_key(k) ==> (#[trigger] dataset[k]).1 == run.cycles[k - 1].1
        },
{
    lemma_outcome_sound(records, settings);
    if let Ok(run) = outcome(records, settings) {
        lemma_dataset_keys(run.cycles);
    }
}

/// A run in progress.
pub struct Aggregator {
    lines: usize,
    last: Option<u32>,
    current: MinMaxValue,
    samples: usize,
    dataset: Dataset,
    cycles: Ghost<Seq<(MinMaxValue, nat)>>,
}

impl View for Aggregator {
    type V = Run;

    closed spec fn view(&self) -> Run {
        Run {
            lines: self.lines as nat,
            last: self.last,
            current: self.current,
            samples: self.samples as nat,
            cycles: self.cycles@,
        }
    }
}

impl Aggregator {
    /// What holds of every run in progress: the dataset holds the cycles kept
    /// so far, and the run is sound.
    pub closed spec fn wf(&self) -> bool {
        &&& self.dataset@ == dataset_of(self.cycles@)
        &&& sound(self@)
    }

    /// A run in progress is sound.
    pub proof fn lemma_wf_sound(&self)
        requires
            self.wf(),
        ensures
            sound(self@),
    {
    }

    /// A run before its first record.
    pub fn new() -> (r: Aggregator)
        ensures
            r.wf(),
            r@ == Run::start(),
    {
        let r = Aggregator {
            lines: 0,
            last: None,
            current: MinMaxValue::default(),
            samples: 1,
            dataset: HashMap::new(),
            cycles: Ghost(Seq::empty()),
        };
        assert(r.dataset@ =~= dataset_of(r.cycles@));
        r
    }

    /// Takes one more record into the run.
    ///
    /// Where the record cannot be read the run is left as it was, and the
    /// error names the line: the number of records taken before, and one.
    pub fn feed(&mut self, record: &Record, config: &Config) -> (r: Result<(), FatalParseError>)
        requires
            old(self).wf(),
            old(self)@.lines + 1 < usize::MAX,
        ensures
            final(self).wf(),
            match step(old(self)@, record@, config@) {
                Ok(next) => r is Ok && final(self)@ == next,
                Err(kind) => r == Err::<(), FatalParseError>(
                    FatalParseError { line: (old(self)@.lines + 1) as usize, kind },
                ) && final(self)@ == old(self)@,
            },
    {
        broadcast use group_hash_axioms;

        let line = self.lines + 1;
        match self.last {
            None => {
                let pressure = match record.get(config.pressure_name()) {
                    Ok(bits) => bits,
                    Err(kind) => {
                        return Err(FatalParseError { line, kind });
                    },
                };
                if greater_than(pressure, config.pressure_threshold) {
                    let now = match record.get(config.displacement_name()) {
                        Ok(bits) => bits,
                        Err(kind) => {
                            return Err(FatalParseError { line, kind });
                        },
                    };
                    self.last = Some(now);
                }
            },
            Some(last) => {
                let now = match record.get(config.displacement_name()) {
                    Ok(bits) => bits,
                    Err(kind) => {
                        return Err(FatalParseError { line, kind });
                    },
                };
                let value = match record.get(config.min_max_name()) {
                    Ok(bits) => bits,
                    Err(kind) => {
                        return Err(FatalParseError { line, kind });
                    },
                };
                self.current.insert(value);
                if is_sign_positive(last) && is_sign_negative(now) {
                    if self.samples > NOISE_LIMIT {
                        proof {
                            lemma_dataset_keys(self.cycles@);
                            lemma_dataset_grows(self.cycles@, (self.current, self.samples as nat));
                        }
                        let count = self.dataset.len() + 1;
                        self.dataset.insert(count, (self.current, self.samples));
                        proof {
                            self.cycles@ = self.cycles@.push((self.current, self.samples as nat));
                        }
                    }
                    self.current = MinMaxValue::default();
                    self.samples = RESTART;
                } else {
                    self.samples = self.samples + 1;
                }
                self.last = Some(now);
            },
        }
        self.lines = line;
        Ok(())
    }

    /// How many records the run has taken.
    pub fn lines(&self) -> (r: usize)
        ensures
            r == self@.lines,
    {
        self.lines
    }

    /// The displacement of the record before, once the run is armed.
    pub fn last(&self) -> (r: Option<u32>)
        ensures
            r == self@.last,
    {
        self.last
    }

    /// The range of the cycle under way.
    pub fn current(&self) -> (r: MinMaxValue)
        ensures
            r == self@.current,
    {
        self.current
    }

    /// The sample count of the cycle under way.
    pub fn samples(&self) -> (r: usize)
        ensures
            r == self@.samples,
    {
        self.samples
    }

    /// The cycles kept so far.
    pub fn dataset(&self) -> (r: &Dataset)
        requires
            self.wf(),
        ensures
            r@ == dataset_of(self@.cycles),
    {
        &self.dataset
    }

    /// Ends the run and hands out the cycles kept. The cycle under way is
    /// dropped.
    pub fn finish(self) -> (r: Dataset)
        requires
            self.wf(),
        ensures
            r@ == dataset_of(self@.cycles),
    {
        self.dataset
    }
}

/// Runs over `records` and hands out the cycles kept, or the first record
/// that could not be read. The cycle under way at the end is dropped.
pub fn map_data(records: &Vec<Record>, config: &Config) -> (r: Result<Dataset, FatalParseError>)
    requires
        records.len() < usize::MAX,
    ensures
        match outcome(records_view(records@), config@) {
            Ok(run) => r is Ok && r->Ok_0@ == dataset_of(run.cycles),
            Err(failure) => r is Err && r->Err_0 == (FatalParseError {
                line: failure.line as usize,
                kind: failure.kind,
            }) && 1 <= failure.line <= records.len(),
        },
        r matches Ok(dataset) ==> {
            &&& forall|k: usize| dataset@.contains_key(k) <==> 1 <= k <= dataset@.len()
            &&& forall|k: usize| dataset@.contains_key(k) ==> (#[trigger] dataset@[k]).1 > NOISE_LIMIT
        },
{
    proof {
        lemma_outcome_sound(records_view(records@), config@);
        lemma_dataset_of_run(records_view(records@), config@);
    }
    let ghost all = records_view(records@);
    let mut run = Aggregator::new();
    let mut i: usize = 0;
    assert(all.take(0) =~= Seq::<Tokens>::empty());
    while i < records.len()
        invariant
            i <= records.len() < usize::MAX,
            all == records_view(records@),
            run.wf(),
            run@.lines == i,
            outcome(all.take(i as int), config@) == Ok::<Run, Failure>(run@),
        decreases records.len() - i,
    {
        proof {
            assert(all.take(i + 1).drop_last() =~= all.take(i as int));
            assert(all.take(i + 1).last() == records@[i as int]@);
        }
        match run.feed(&records[i], config) {
            Ok(()) => {},
            Err(error) => {
                proof {
                    lemma_failure_stays(all, config@, i + 1);
                }
                return Err(error);
            },
        }
        i += 1;
    }
    assert(all.take(i as int) =~= all);
    Ok(run.finish())
}

} // verus!
