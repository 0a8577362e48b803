//! A prisoner's private knowledge and the day-counter protocol that decides
//! the light.

use vstd::prelude::*;

verus! {

/// Number of `true` entries in `s`.
pub open spec fn count_true_spec(s: Seq<bool>) -> nat
    decreases s.len(),
{
    if s.len() == 0 {
        0
    } else {
        count_true_spec(s.drop_last()) + if s.last() { 1nat } else { 0nat }
    }
}

pub proof fn lemma_count_true_le_len(s: Seq<bool>)
    ensures
        count_true_spec(s) <= s.len(),
    decreases s.len(),
{
    if s.len() > 0 {
        lemma_count_true_le_len(s.drop_last());
    }
}

/// Where `a` holds, `b` holds too: `b` counts at least as many entries.
pub proof fn lemma_count_true_mono(a: Seq<bool>, b: Seq<bool>)
    requires
        a.len() == b.len(),
        forall|i: int| 0 <= i < a.len() && #[trigger] a[i] ==> b[i],
    ensures
        count_true_spec(a) <= count_true_spec(b),
    decreases a.len(),
{
    if a.len() > 0 {
        lemma_count_true_mono(a.drop_last(), b.drop_last());
    }
}

/// A sequence with no `true` entry counts none.
pub proof fn lemma_count_true_none(s: Seq<bool>)
    requires
        forall|i: int| 0 <= i < s.len() ==> !#[trigger] s[i],
    ensures
        count_true_spec(s) == 0,
    decreases s.len(),
{
    if s.len() > 0 {
        lemma_count_true_none(s.drop_last());
    }
}

/// A sequence counts as many entries as it has exactly when all are set.
pub proof fn lemma_count_true_full(s: Seq<bool>)
    ensures
        count_true_spec(s) == s.len() <==> forall|i: int| 0 <= i < s.len() ==> #[trigger] s[i],
    decreases s.len(),
{
    if s.len() > 0 {
        lemma_count_true_full(s.drop_last());
        lemma_count_true_le_len(s.drop_last());
        if forall|i: int| 0 <= i < s.len() ==> #[trigger] s[i] {
            assert forall|i: int| 0 <= i < s.drop_last().len() implies #[trigger] s.drop_last()[i] by {
                assert(s[i]);
            }
        }
        if count_true_spec(s) == s.len() {
            assert forall|i: int| 0 <= i < s.len() implies #[trigger] s[i] by {
                if i < s.len() - 1 {
                    assert(s.drop_last()[i]);
                }
            }
        }
    }
}

/// A sequence of one entry counts one where that entry is set.
pub proof fn lemma_count_true_single(s: Seq<bool>)
    requires
        s.len() == 1,
        s[0],
    ensures
        count_true_spec(s) == 1,
{
    assert(s.drop_last().len() == 0);
    assert(count_true_spec(s.drop_last()) == 0);
}

/// Counts the entries of `values` that are `true`.
pub fn count_true(values: &[bool]) -> (r: u32)
    requires
        values@.len() <= u32::MAX,
    ensures
        r == count_true_spec(values@),
{
    let mut sum: u32 = 0;
    let mut i: usize = 0;
    while i < values.len()
        invariant
            i <= values@.len(),
            values@.len() <= u32::MAX,
            sum == count_true_spec(values@.subrange(0, i as int)),
        decreases values@.len() - i,
    {
        proof {
            let next = values@.subrange(0, i + 1);
            assert(next.drop_last() == values@.subrange(0, i as int));
            lemma_count_true_le_len(next);
        }
        if values[i] {
            sum = sum + 1;
        }
        i = i + 1;
    }
    assert(values@.subrange(0, values@.len() as int) == values@);
    sum
}

/// The prisoner that day `day` is about, among `n` prisoners.
pub open spec fn target_of(day: int, n: int) -> int {
    day % n
}

/// What a prisoner knows after its turn on `day`, having found the light as
/// `light_is_on`: itself, and yesterday's prisoner if the light is on.
pub open spec fn knowledge_after(known: Seq<bool>, day: u32, light_is_on: bool, self_index: int) -> Seq<bool> {
    let k = known.update(self_index, true);
    if day > 0 && light_is_on {
        k.update(target_of(day - 1, known.len() as int), true)
    } else {
        k
    }
}

/// One prisoner: which prisoners it knows to have been interrogated.
pub struct Prisoner {
    pub known_visited_prisoners: Vec<bool>,
}

impl View for Prisoner {
    type V = Seq<bool>;

    open spec fn view(&self) -> Seq<bool> {
        self.known_visited_prisoners@
    }
}

impl Prisoner {
    /// A prisoner that knows of no interrogation yet.
    pub fn new(prisoner_count: usize) -> (r: Prisoner)
        ensures
            r@ == Seq::new(prisoner_count as nat, |i: int| false),
    {
        let known_visited_prisoners = vec![false; prisoner_count];
        assert(known_visited_prisoners@ == Seq::new(prisoner_count as nat, |i: int| false));
        Prisoner { known_visited_prisoners }
    }

    /// The prisoners that day `day` is about: one, `day` modulo the count.
    pub fn get_todays_prisoner_indexes(&self, day: u32) -> (r: Vec<usize>)
        requires
            self@.len() > 0,
        ensures
            r@.len() == 1,
            r@[0] == target_of(day as int, self@.len() as int),
    {
        let prisoner_count = self.known_visited_prisoners.len();
        let day_index = (day as usize) % prisoner_count;
        vec![day_index]
    }

    /// The prisoner's turn on `day`: it learns of itself and, where the light
    /// is on, of yesterday's prisoner; it leaves the light on where it knows
    /// of today's prisoner.
    pub fn select_light_position(&mut self, day: u32, light_is_on: bool, self_index: usize) -> (r: bool)
        requires
            self_index < old(self)@.len(),
        ensures
            final(self)@ == knowledge_after(old(self)@, day, light_is_on, self_index as int),
            r == final(self)@[target_of(day as int, old(self)@.len() as int)],
    {
        let ghost start = self@;
        self.known_visited_prisoners.set(self_index, true);
        if day > 0 && light_is_on {
            let yesterday = self.get_todays_prisoner_indexes(day - 1);
            self.known_visited_prisoners.set(yesterday[0], true);
        }
        assert(self@ == knowledge_after(start, day, light_is_on, self_index as int));
        let today = self.get_todays_prisoner_indexes(day);
        let r = self.known_visited_prisoners[today[0]];
        r
    }

    /// How many prisoners this prisoner knows to have been interrogated.
    pub fn count_known(&self) -> (r: u32)
        requires
            self@.len() <= u32::MAX,
        ensures
            r == count_true_spec(self@),
    {
        count_true(self.known_visited_prisoners.as_slice())
    }
}

} // verus!
