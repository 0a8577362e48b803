//! The world of one trial: the prisoners, the light, the day, and what has
//! truly happened, advanced one interrogation at a time.

use vstd::prelude::*;
use crate::prisoner::{
    count_true, count_true_spec, knowledge_after, lemma_count_true_le_len, lemma_count_true_mono,
    lemma_count_true_full, lemma_count_true_none, lemma_count_true_single, target_of, Prisoner,
};

verus! {

/// Why a trial could not be run or carried on.
#[derive(Debug, Clone, Copy, PartialEq, Eq, Structural)]
pub enum SimulationError {
    /// A world needs at least one prisoner.
    NoPrisoners,
    /// Counts of prisoners are held in a `u32`.
    TooManyPrisoners,
    /// The day counter is at its largest value and the trial is still running.
    DayLimitReached,
    /// An experiment needs at least one trial.
    NoRepetitions,
    /// Counts of trials are held in a `u32`.
    TooManyRepetitions,
}

/// What one finished trial observed.
#[derive(Debug, Clone, Copy, PartialEq, Eq, Structural)]
pub struct SimulationResult {
    /// The first day on which every prisoner had truly been interrogated.
    pub last_prisoner_interrogated_on_day: u32,
    /// The day on which a prisoner came to know that all had been.
    pub prisoners_freed_on_day: u32,
}

/// Relies on rand::thread_rng and rand::Rng::gen_range: a value drawn from
/// `0..n`, which it asserts is not empty.
#[verifier::external_body]
fn random_index(n: usize) -> (r: usize)
    requires
        n > 0,
    ensures
        r < n,
{
    rand::Rng::gen_range(&mut rand::thread_rng(), 0..n)
}

/// One trial's state.
pub struct WorldState {
    pub prisoners: Vec<Prisoner>,
    /// Which prisoners have truly been interrogated at least once.
    pub interrogated_prisoners: Vec<bool>,
    pub day: u32,
    pub light_is_on: bool,
    /// Set on the first day on which every prisoner has been interrogated.
    pub last_prisoner_interrogated_on_day: Option<u32>,
    /// Set when a prisoner has come to know that all were interrogated.
    pub freed: bool,
}

impl WorldState {
    pub open spec fn count(&self) -> int {
        self.prisoners@.len() as int
    }

    pub open spec fn wf(&self) -> bool {
        let n = self.count();
        &&& 1 <= n <= u32::MAX
        &&& self.interrogated_prisoners@.len() == n
        &&& forall|i: int| 0 <= i < n ==> (#[trigger] self.prisoners@[i])@.len() == n
        // No prisoner ever believes something false.
        &&& forall|i: int, j: int|
            0 <= i < n && 0 <= j < n && #[trigger] self.prisoners@[i]@[j] ==> self.interrogated_prisoners@[j]
        // The light left yesterday speaks only the truth about yesterday's prisoner.
        &&& (!self.freed && self.light_is_on) ==> (self.day > 0
            && self.interrogated_prisoners@[target_of(self.day - 1, n)])
        &&& (self.last_prisoner_interrogated_on_day is Some
            <==> count_true_spec(self.interrogated_prisoners@) == n)
        &&& (self.last_prisoner_interrogated_on_day matches Some(d) ==> d <= self.day)
        &&& self.freed ==> self.last_prisoner_interrogated_on_day is Some
    }

    /// A world of `n` prisoners on its first morning.
    pub open spec fn is_fresh(&self, n: int) -> bool {
        &&& self.wf()
        &&& self.count() == n
        &&& self.day == 0
        &&& !self.light_is_on
        &&& !self.freed
        &&& self.last_prisoner_interrogated_on_day is None
        &&& forall|j: int| 0 <= j < n ==> !self.interrogated_prisoners@[j]
        &&& forall|i: int, j: int| 0 <= i < n && 0 <= j < n ==> !#[trigger] self.prisoners@[i]@[j]
    }

    /// `next` and `r` are what a day on which prisoner `chosen` is
    /// interrogated makes of this world.
    pub open spec fn advanced(&self, chosen: int, next: WorldState, r: Result<bool, SimulationError>) -> bool {
        let n = self.count();
        let known = knowledge_after(self.prisoners@[chosen]@, self.day, self.light_is_on, chosen);
        let truth = self.interrogated_prisoners@.update(chosen, true);
        let done = count_true_spec(known) == n;
        if self.freed {
            r == Ok::<bool, SimulationError>(true) && next == *self
        } else if self.day == u32::MAX {
            r == Err::<bool, SimulationError>(SimulationError::DayLimitReached) && next == *self
        } else {
            &&& next.count() == n
            &&& next.prisoners@[chosen]@ == known
            &&& forall|i: int| 0 <= i < n && i != chosen ==> next.prisoners@[i] == self.prisoners@[i]
            &&& next.interrogated_prisoners@ == truth
            &&& next.light_is_on == known[target_of(self.day as int, n)]
            &&& next.last_prisoner_interrogated_on_day == if self.last_prisoner_interrogated_on_day is None
                && count_true_spec(truth) == n {
                Some(self.day)
            } else {
                self.last_prisoner_interrogated_on_day
            }
            &&& r == Ok::<bool, SimulationError>(done)
            &&& next.freed == done
            &&& next.day == if done { self.day } else { (self.day + 1) as u32 }
        }
    }

    /// `next` is what `days` days that do not free the prisoners make of
    /// this world, each day on some prisoner.
    pub open spec fn reaches(&self, next: WorldState, days: nat) -> bool
        decreases days,
    {
        if days == 0 {
            next == *self
        } else {
            exists|mid: WorldState, chosen: int|
                self.reaches(mid, (days - 1) as nat) && 0 <= chosen < mid.count()
                    && #[trigger] mid.advanced(chosen, next, Ok::<bool, SimulationError>(false))
        }
    }

    /// `next` is where a run of days from this world ends with the
    /// prisoners freed.
    pub open spec fn frees(&self, next: WorldState) -> bool {
        exists|days: nat, mid: WorldState, chosen: int|
            #[trigger] self.reaches(mid, days) && 0 <= chosen < mid.count()
                && #[trigger] mid.advanced(chosen, next, Ok::<bool, SimulationError>(true))
    }

    /// `next` is what the days on which prisoners `choices[0]`,
    /// `choices[1]`, ... are interrogated, in that order, make of this world;
    /// only the last of those days may free the prisoners.
    pub open spec fn follows(&self, choices: Seq<int>, next: WorldState) -> bool
        decreases choices.len(),
    {
        if choices.len() == 0 {
            next == *self
        } else {
            exists|mid: WorldState, done: bool|
                self.follows(choices.drop_last(), mid) && !mid.freed && 0 <= choices.last() < mid.count()
                    && #[trigger] mid.advanced(choices.last(), next, Ok::<bool, SimulationError>(done))
        }
    }

    /// A world of `prisoner_count` prisoners, none interrogated, light off.
    pub fn new(prisoner_count: usize) -> (r: WorldState)
        requires
            1 <= prisoner_count <= u32::MAX,
        ensures
            r.is_fresh(prisoner_count as int),
    {
        let mut prisoners: Vec<Prisoner> = Vec::new();
        let mut i: usize = 0;
        while i < prisoner_count
            invariant
                i <= prisoner_count,
                prisoners@.len() == i,
                forall|k: int| 0 <= k < i ==> (#[trigger] prisoners@[k])@ == Seq::new(prisoner_count as nat, |j: int| false),
            decreases prisoner_count - i,
        {
            prisoners.push(Prisoner::new(prisoner_count));
            i = i + 1;
        }
        let interrogated_prisoners = vec![false; prisoner_count];
        let r = WorldState {
            prisoners,
            interrogated_prisoners,
            day: 0,
            light_is_on: false,
            last_prisoner_interrogated_on_day: None,
            freed: false,
        };
        proof {
            let n = prisoner_count as int;
            assert(r.prisoners@.len() == n);
            assert(forall|i: int, j: int| 0 <= i < n && 0 <= j < n ==> !#[trigger] r.prisoners@[i]@[j]);
            lemma_count_true_none(r.interrogated_prisoners@);
        }
        r
    }

    /// One day on which prisoner `chosen` is interrogated: the prisoner takes
    /// its turn at the light, and the world records what truly happened.
    /// Returns whether the prisoners are freed.
    pub fn iterate_with(&mut self, chosen: usize) -> (r: Result<bool, SimulationError>)
        requires
            old(self).wf(),
            chosen < old(self).count(),
        ensures
            final(self).wf(),
            old(self).advanced(chosen as int, *final(self), r),
    {
        if self.freed {
            return Ok(true);
        }
        if self.day == u32::MAX {
            return Err(SimulationError::DayLimitReached);
        }
        let ghost start = *self;
        let ghost n = self.count();
        let prisoner_count = self.prisoners.len();

        // Mark the chosen prisoner as truly interrogated.
        self.interrogated_prisoners.set(chosen, true);

        let light = self.prisoners[chosen].select_light_position(self.day, self.light_is_on, chosen);
        self.light_is_on = light;

        let ghost known = self.prisoners@[chosen as int]@;
        let ghost truth = self.interrogated_prisoners@;
        proof {
            assert(known == knowledge_after(start.prisoners@[chosen as int]@, start.day, start.light_is_on, chosen as int));
            assert(forall|i: int| 0 <= i < n && i != chosen ==> self.prisoners@[i] == start.prisoners@[i]);
            assert forall|i: int, j: int| 0 <= i < n && 0 <= j < n && #[trigger] self.prisoners@[i]@[j] implies truth[j] by {
                if i != chosen {
                    assert(start.prisoners@[i]@[j]);
                } else {
                    let before = start.prisoners@[chosen as int]@;
                    assert(before.len() == n);
                    if j != chosen && !(start.day > 0 && start.light_is_on && j == target_of(start.day - 1, n)) {
                        assert(known[j] == before[j]);
                        assert(start.prisoners@[chosen as int]@[j]);
                    }
                }
            }
            assert forall|i: int| 0 <= i < n implies (#[trigger] self.prisoners@[i])@.len() == n by {
                assert(start.prisoners@[i]@.len() == n);
            }
            lemma_count_true_mono(start.interrogated_prisoners@, truth);
            lemma_count_true_le_len(truth);
            assert forall|j: int| 0 <= j < n && #[trigger] known[j] implies truth[j] by {
                assert(self.prisoners@[chosen as int]@[j]);
            }
            lemma_count_true_mono(known, truth);
        }

        let actual_count = count_true(self.interrogated_prisoners.as_slice());
        let reported_count = self.prisoners[chosen].count_known();

        // Record the first day on which every prisoner has been interrogated.
        if self.last_prisoner_interrogated_on_day.is_none() && actual_count == prisoner_count as u32 {
            self.last_prisoner_interrogated_on_day = Some(self.day);
        }

        // The chosen prisoner now knows that all have been interrogated.
        if reported_count == prisoner_count as u32 {
            self.freed = true;
            return Ok(true);
        }

        self.day = self.day + 1;
        Ok(false)
    }

    /// One day on which a prisoner drawn uniformly at random is interrogated.
    pub fn iterate(&mut self) -> (r: Result<bool, SimulationError>)
        requires
            old(self).wf(),
        ensures
            final(self).wf(),
            exists|chosen: int| 0 <= chosen < old(self).count() && old(self).advanced(chosen, *final(self), r),
            final(self).count() == old(self).count(),
            r == Ok::<bool, SimulationError>(true) ==> final(self).freed && final(self).day == old(self).day,
            r == Ok::<bool, SimulationError>(false) ==> !final(self).freed && final(self).day == old(self).day + 1,
            r is Err ==> r == Err::<bool, SimulationError>(SimulationError::DayLimitReached)
                && *final(self) == *old(self) && !old(self).freed && old(self).day == u32::MAX,
    {
        let chosen = random_index(self.prisoners.len());
        self.iterate_with(chosen)
    }

    /// The most prisoners that any one prisoner knows to have been
    /// interrogated.
    pub fn best_known(&self) -> (r: u32)
        requires
            self.wf(),
        ensures
            exists|i: int| 0 <= i < self.count() && r == count_true_spec(#[trigger] self.prisoners@[i]@),
            forall|i: int| 0 <= i < self.count() ==> count_true_spec(#[trigger] self.prisoners@[i]@) <= r,
    {
        assert(self.prisoners@[0]@.len() == self.count());
        let mut best: u32 = self.prisoners[0].count_known();
        let mut i: usize = 1;
        while i < self.prisoners.len()
            invariant
                self.wf(),
                1 <= i <= self.count(),
                exists|k: int| 0 <= k < i && best == count_true_spec(#[trigger] self.prisoners@[k]@),
                forall|k: int| 0 <= k < i ==> count_true_spec(#[trigger] self.prisoners@[k]@) <= best,
            decreases self.count() - i,
        {
            assert(self.prisoners@[i as int]@.len() == self.count());
            let known = self.prisoners[i].count_known();
            if known > best {
                best = known;
            }
            i = i + 1;
        }
        best
    }

    /// What a finished trial observed.
    pub fn result(&self) -> (r: SimulationResult)
        requires
            self.wf(),
            self.freed,
        ensures
            Some(r.last_prisoner_interrogated_on_day) == self.last_prisoner_interrogated_on_day,
            r.prisoners_freed_on_day == self.day,
            r.last_prisoner_interrogated_on_day <= r.prisoners_freed_on_day,
    {
        let last = match self.last_prisoner_interrogated_on_day {
            Some(d) => d,
            None => 0,
        };
        SimulationResult { last_prisoner_interrogated_on_day: last, prisoners_freed_on_day: self.day }
    }

    /// Runs days until the prisoners are freed (`Ok(true)`) or, where
    /// `log_period` is not zero, until a day that is a multiple of it begins
    /// (`Ok(false)`), so that the caller can report progress and go on.
    pub fn run(&mut self, log_period: u32) -> (r: Result<bool, SimulationError>)
        requires
            old(self).wf(),
        ensures
            final(self).wf(),
            final(self).count() == old(self).count(),
            final(self).day >= old(self).day,
            old(self).freed ==> r == Ok::<bool, SimulationError>(true) && *final(self) == *old(self),
            r == Ok::<bool, SimulationError>(true) ==> final(self).freed,
            r == Ok::<bool, SimulationError>(false) ==> !final(self).freed && log_period > 0
                && final(self).day % log_period == 0 && final(self).day > old(self).day,
            r is Err ==> r == Err::<bool, SimulationError>(SimulationError::DayLimitReached)
                && !final(self).freed && final(self).day == u32::MAX,
            old(self).is_fresh(1) ==> r == Ok::<bool, SimulationError>(true) && final(self).day == 0
                && final(self).last_prisoner_interrogated_on_day == Some(0u32),
            r == Ok::<bool, SimulationError>(true) && !old(self).freed ==> old(self).frees(*final(self)),
            r == Ok::<bool, SimulationError>(false) || r is Err ==> exists|days: nat| old(self).reaches(*final(self), days),
            log_period > 0 ==> forall|d: int|
                old(self).day < d < final(self).day ==> #[trigger] (d % (log_period as int)) != 0,
    {
        let ghost start = *self;
        let ghost mut days: nat = 0;
        loop
            invariant
                start == *old(self),
                start.reaches(*self, days),
                self.wf(),
                self.count() == start.count(),
                self.day >= start.day,
                start.freed ==> *self == start,
                start.is_fresh(1) ==> *self == start,
                self.day > start.day ==> !self.freed,
                log_period > 0 ==> forall|d: int|
                    start.day < d <= self.day ==> #[trigger] (d % (log_period as int)) != 0,
            decreases u32::MAX - self.day,
        {
            let ghost before = *self;
            let step = self.iterate();
            proof {
                let chosen = choose|c: int| 0 <= c < before.count() && before.advanced(c, *self, step);
                if start.is_fresh(1) {
                    lemma_single_prisoner_freed_on_first_day(before, chosen, *self, step);
                }
                if step == Ok::<bool, SimulationError>(false) {
                    assert(before.advanced(chosen, *self, Ok::<bool, SimulationError>(false)));
                    days = days + 1;
                    assert(start.reaches(*self, days));
                } else if step == Ok::<bool, SimulationError>(true) && !start.freed {
                    assert(before.advanced(chosen, *self, Ok::<bool, SimulationError>(true)));
                    assert(start.frees(*self));
                }
            }
            match step {
                Err(e) => {
                    return Err(e);
                },
                Ok(true) => {
                    return Ok(true);
                },
                Ok(false) => {
                    if log_period > 0 && self.day % log_period == 0 {
                        return Ok(false);
                    }
                },
            }
        }
    }
}

/// One trial of `prisoner_count` prisoners, run until they are freed.
pub fn run_simulation(prisoner_count: usize) -> (r: Result<SimulationResult, SimulationError>)
    ensures
        prisoner_count == 0 <==> r == Err::<SimulationResult, SimulationError>(SimulationError::NoPrisoners),
        prisoner_count > u32::MAX <==> r == Err::<SimulationResult, SimulationError>(SimulationError::TooManyPrisoners),
        r matches Err(e) ==> e == SimulationError::NoPrisoners || e == SimulationError::TooManyPrisoners
            || e == SimulationError::DayLimitReached,
        r matches Ok(res) ==> res.last_prisoner_interrogated_on_day <= res.prisoners_freed_on_day,
        r == Err::<SimulationResult, SimulationError>(SimulationError::DayLimitReached) ==> exists|
            start: WorldState,
            end: WorldState,
            days: nat,
        |
            start.is_fresh(prisoner_count as int) && #[trigger] start.reaches(end, days) && !end.freed
                && end.day == u32::MAX,
        r matches Ok(res) ==> exists|start: WorldState, end: WorldState|
            start.is_fresh(prisoner_count as int) && #[trigger] start.frees(end)
                && end.last_prisoner_interrogated_on_day == Some(res.last_prisoner_interrogated_on_day)
                && end.day == res.prisoners_freed_on_day,
        r matches Ok(res) ==> exists|start: WorldState, choices: Seq<int>, end: WorldState|
            start.is_fresh(prisoner_count as int) && #[trigger] start.follows(choices, end) && end.freed
                && end.last_prisoner_interrogated_on_day == Some(res.last_prisoner_interrogated_on_day)
                && end.day == res.prisoners_freed_on_day,
        prisoner_count == 1 ==> r == Ok::<SimulationResult, SimulationError>(
            SimulationResult { last_prisoner_interrogated_on_day: 0, prisoners_freed_on_day: 0 },
        ),
{
    if prisoner_count == 0 {
        return Err(SimulationError::NoPrisoners);
    }
    if prisoner_count > u32::MAX as usize {
        return Err(SimulationError::TooManyPrisoners);
    }
    let mut state = WorldState::new(prisoner_count);
    let ghost start = state;
    let outcome = state.run(0);
    match outcome {
        Ok(done) => {
            assert(done);
            assert(start.frees(state));
            proof {
                lemma_frees_by_choices(start, state);
            }
            Ok(state.result())
        },
        Err(e) => {
            assert(exists|days: nat| start.reaches(state, days));
            Err(e)
        },
    }
}

/// Belief never runs ahead of the truth: once the prisoners are freed,
/// every prisoner has been interrogated, on a day no later than the current
/// one.
pub proof fn lemma_freed_after_all_interrogated(w: WorldState)
    requires
        w.wf(),
        w.freed,
    ensures
        count_true_spec(w.interrogated_prisoners@) == w.count(),
        w.last_prisoner_interrogated_on_day matches Some(d) && d <= w.day,
{
}

/// No prisoner ever knows of more interrogations than have truly happened.
pub proof fn lemma_knowledge_within_truth(w: WorldState, i: int)
    requires
        w.wf(),
        0 <= i < w.count(),
    ensures
        count_true_spec(w.prisoners@[i]@) <= count_true_spec(w.interrogated_prisoners@),
{
    assert(w.prisoners@[i]@.len() == w.count());
    assert forall|j: int| 0 <= j < w.count() && #[trigger] w.prisoners@[i]@[j] implies w.interrogated_prisoners@[j] by {
    }
    lemma_count_true_mono(w.prisoners@[i]@, w.interrogated_prisoners@);
}

/// With a single prisoner, the first day frees the prisoners, and it is also
/// the day on which all were interrogated.
pub proof fn lemma_single_prisoner_freed_on_first_day(
    w: WorldState,
    chosen: int,
    next: WorldState,
    r: Result<bool, SimulationError>,
)
    requires
        w.is_fresh(1),
        0 <= chosen < 1,
        w.advanced(chosen, next, r),
    ensures
        r == Ok::<bool, SimulationError>(true),
        next.freed,
        next.day == 0,
        next.last_prisoner_interrogated_on_day == Some(0u32),
{
    let known = knowledge_after(w.prisoners@[0]@, w.day, w.light_is_on, 0);
    assert(w.prisoners@[0]@.len() == 1);
    lemma_count_true_single(known);
    lemma_count_true_single(w.interrogated_prisoners@.update(0, true));
}

/// Days that do not free the prisoners are days on which some sequence of
/// prisoners is chosen, one per day.
pub proof fn lemma_reaches_by_choices(start: WorldState, end: WorldState, days: nat)
    requires
        !start.freed,
        start.reaches(end, days),
    ensures
        !end.freed,
        exists|choices: Seq<int>| choices.len() == days && #[trigger] start.follows(choices, end),
    decreases days,
{
    if days > 0 {
        let (mid, chosen) = choose|mid: WorldState, chosen: int|
            start.reaches(mid, (days - 1) as nat) && 0 <= chosen < mid.count()
                && #[trigger] mid.advanced(chosen, end, Ok::<bool, SimulationError>(false));
        lemma_reaches_by_choices(start, mid, (days - 1) as nat);
        let before = choose|c: Seq<int>| c.len() == days - 1 && #[trigger] start.follows(c, mid);
        let choices = before.push(chosen);
        assert(choices.drop_last() == before);
        assert(choices.last() == chosen);
        assert(start.follows(choices.drop_last(), mid) && !mid.freed && 0 <= choices.last() < mid.count()
            && mid.advanced(choices.last(), end, Ok::<bool, SimulationError>(false)));
        assert(start.follows(choices, end));
    } else {
        assert(start.follows(Seq::<int>::empty(), end));
    }
}

/// A trial that frees the prisoners is a sequence of chosen prisoners whose
/// last day frees them.
pub proof fn lemma_frees_by_choices(start: WorldState, end: WorldState)
    requires
        !start.freed,
        start.frees(end),
    ensures
        end.freed,
        exists|choices: Seq<int>| #[trigger] start.follows(choices, end),
{
    let (days, mid, chosen) = choose|days: nat, mid: WorldState, chosen: int|
        #[trigger] start.reaches(mid, days) && 0 <= chosen < mid.count()
            && #[trigger] mid.advanced(chosen, end, Ok::<bool, SimulationError>(true));
    lemma_reaches_by_choices(start, mid, days);
    let before = choose|c: Seq<int>| c.len() == days && #[trigger] start.follows(c, mid);
    let choices = before.push(chosen);
    assert(choices.drop_last() == before);
    assert(choices.last() == chosen);
    assert(start.follows(choices.drop_last(), mid) && !mid.freed && 0 <= choices.last() < mid.count()
        && mid.advanced(choices.last(), end, Ok::<bool, SimulationError>(true)));
    assert(start.follows(choices, end));
}

/// Prisoner `k` is among `choices[0..=d]`.
pub open spec fn chosen_by(choices: Seq<int>, k: int, d: int) -> bool {
    exists|j: int| 0 <= j <= d && j < choices.len() && choices[j] == k
}

/// Every one of `n` prisoners is among `choices[0..=d]`.
pub open spec fn all_chosen_by(choices: Seq<int>, n: int, d: int) -> bool {
    forall|k: int| 0 <= k < n ==> #[trigger] chosen_by(choices, k, d)
}

/// The day on which all were interrogated is the day on which the last
/// prisoner not yet seen is chosen: for any order of choices from a fresh
/// world, it is recorded exactly when some prefix of the choices holds every
/// prisoner, as the end of the shortest such prefix.
pub proof fn lemma_all_interrogated_day(start: WorldState, choices: Seq<int>, end: WorldState)
    requires
        start.is_fresh(start.count()),
        start.follows(choices, end),
    ensures
        end.count() == start.count(),
        end.day == choices.len() - if end.freed { 1int } else { 0int },
        forall|k: int| 0 <= k < start.count() ==> (#[trigger] end.interrogated_prisoners@[k]
            <==> exists|j: int| 0 <= j < choices.len() && choices[j] == k),
        end.interrogated_prisoners@.len() == start.count(),
        end.last_prisoner_interrogated_on_day is None ==> !all_chosen_by(choices, start.count(), choices.len() - 1),
        end.last_prisoner_interrogated_on_day matches Some(d) ==> d < choices.len(),
        end.last_prisoner_interrogated_on_day matches Some(d) ==> all_chosen_by(choices, start.count(), d as int)
            && forall|e: int| e < d ==> !#[trigger] all_chosen_by(choices, start.count(), e),
    decreases choices.len(),
{
    let n = start.count();
    if choices.len() == 0 {
        assert(!all_chosen_by(choices, n, -1)) by {
            assert(!chosen_by(choices, 0, -1));
        }
    } else {
        let prefix = choices.drop_last();
        let c = choices.last();
        let (mid, done) = choose|mid: WorldState, done: bool|
            start.follows(prefix, mid) && !mid.freed && 0 <= c < mid.count()
                && #[trigger] mid.advanced(c, end, Ok::<bool, SimulationError>(done));
        lemma_all_interrogated_day(start, prefix, mid);
        let last = choices.len() - 1;
        assert forall|e: int| e <= last - 1 && #[trigger] all_chosen_by(choices, n, e)
            implies all_chosen_by(prefix, n, e) && all_chosen_by(prefix, n, last - 1) by {
            assert forall|k: int| 0 <= k < n implies #[trigger] chosen_by(prefix, k, e) by {
                assert(chosen_by(choices, k, e));
                let j = choose|j: int| 0 <= j <= e && j < choices.len() && choices[j] == k;
                assert(prefix[j] == k);
            }
            assert forall|k: int| 0 <= k < n implies #[trigger] chosen_by(prefix, k, last - 1) by {
                assert(chosen_by(choices, k, e));
                let j = choose|j: int| 0 <= j <= e && j < choices.len() && choices[j] == k;
                assert(prefix[j] == k);
            }
        }
        assert forall|k: int| 0 <= k < n implies (#[trigger] end.interrogated_prisoners@[k]
            <==> exists|j: int| 0 <= j < choices.len() && choices[j] == k) by {
            if exists|j: int| 0 <= j < choices.len() && choices[j] == k {
                let j = choose|j: int| 0 <= j < choices.len() && choices[j] == k;
                if j < last {
                    assert(prefix[j] == k);
                }
            }
            if mid.interrogated_prisoners@[k] {
                let j = choose|j: int| 0 <= j < prefix.len() && prefix[j] == k;
                assert(choices[j] == k);
            }
        }
        lemma_count_true_full(end.interrogated_prisoners@);
        lemma_count_true_full(mid.interrogated_prisoners@);
        match mid.last_prisoner_interrogated_on_day {
            Some(d) => {
                assert(all_chosen_by(choices, n, d as int)) by {
                    assert forall|k: int| 0 <= k < n implies #[trigger] chosen_by(choices, k, d as int) by {
                        assert(chosen_by(prefix, k, d as int));
                        let j = choose|j: int| 0 <= j <= d && j < prefix.len() && prefix[j] == k;
                        assert(choices[j] == k);
                    }
                }
            },
            None => {
                if end.last_prisoner_interrogated_on_day is None {
                    let k = choose|k: int| 0 <= k < n && !#[trigger] end.interrogated_prisoners@[k];
                    assert(!all_chosen_by(choices, n, last)) by {
                        if all_chosen_by(choices, n, last) {
                            assert(chosen_by(choices, k, last));
                            let j = choose|j: int| 0 <= j <= last && j < choices.len() && choices[j] == k;
                            assert(exists|j: int| 0 <= j < choices.len() && choices[j] == k);
                        }
                    }
                } else {
                    assert(all_chosen_by(choices, n, last)) by {
                        assert forall|k: int| 0 <= k < n implies #[trigger] chosen_by(choices, k, last) by {
                            assert(end.interrogated_prisoners@[k]);
                            let j = choose|j: int| 0 <= j < choices.len() && choices[j] == k;
                            assert(0 <= j <= last);
                        }
                    }
                }
            },
        }
    }
}

} // verus!
