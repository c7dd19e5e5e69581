//! The dice mechanics: rolling dice and keeping the highest ones.
use vstd::prelude::*;
use rand::Rng;
use crate::ast::DiceModifier;

verus! {

/// A source of die rolls.
pub trait DieRoller {
    /// Every die rolled so far, in order: its number of sides and the face that came up.
    spec fn draws(&self) -> Seq<(u64, u64)>;

    /// Rolls one die whose faces are numbered from 1 to `sides`.
    fn roll(&mut self, sides: u64) -> (r: u64)
        requires
            sides >= 1,
        ensures
            1 <= r <= sides,
            final(self).draws() == old(self).draws().push((sides, r)),
    ;
}

#[verifier::external_type_specification]
#[verifier::external_body]
pub struct ExThreadRng(rand::rngs::ThreadRng);

/// Calls rand's `Rng::gen_range(1..=sides)` on a `ThreadRng`; the contract claims a value
/// in that range, which rand documents for a non-empty range. The thread's generator draws
/// fresh random words, so the sampling loop ends.
#[verifier::external_body]
fn gen_die_thread(rng: &mut rand::rngs::ThreadRng, sides: u64) -> (r: u64)
    requires
        sides >= 1,
    ensures
        1 <= r <= sides,
{
    rng.gen_range(1..=sides)
}

/// Dice rolled with the thread's random generator, with a record of every die rolled.
pub struct ThreadRoller {
    rng: rand::rngs::ThreadRng,
    log: Ghost<Seq<(u64, u64)>>,
}

impl ThreadRoller {
    /// A roller on `rng` that has rolled nothing yet.
    pub fn new(rng: rand::rngs::ThreadRng) -> (r: ThreadRoller)
        ensures
            r.draws() == Seq::<(u64, u64)>::empty(),
    {
        ThreadRoller { rng, log: Ghost(Seq::empty()) }
    }
}

impl DieRoller for ThreadRoller {
    closed spec fn draws(&self) -> Seq<(u64, u64)> {
        self.log@
    }

    fn roll(&mut self, sides: u64) -> (r: u64) {
        let r = gen_die_thread(&mut self.rng, sides);
        self.log = Ghost(self.log@.push((sides, r)));
        r
    }
}

/// The dice of a roll of `rolls` with `sides` faces each, as the roller records them.
pub open spec fn roll_draws(sides: u64, rolls: Seq<u64>) -> Seq<(u64, u64)> {
    Seq::new(rolls.len(), |i: int| (sides, rolls[i]))
}

/// Rolls `count` dice with `sides` faces each, in order.
pub fn roll_dice<R: DieRoller>(rng: &mut R, count: u64, sides: u64) -> (rolls: Vec<u64>)
    requires
        sides >= 1,
    ensures
        rolls@.len() == count,
        forall|i: int| 0 <= i < rolls@.len() ==> 1 <= #[trigger] rolls@[i] <= sides,
        final(rng).draws() == old(rng).draws() + roll_draws(sides, rolls@),
        final(rng).draws().len() == old(rng).draws().len() + count,
        forall|i: int| 0 <= i < old(rng).draws().len() ==> #[trigger] final(rng).draws()[i] == old(
            rng,
        ).draws()[i],
        forall|i: int|
            0 <= i < count ==> #[trigger] final(rng).draws()[old(rng).draws().len() + i] == (
                sides,
                rolls@[i],
            ),
{
    let ghost before = rng.draws();
    let mut rolls: Vec<u64> = Vec::new();
    let mut n: u64 = 0;
    assert(roll_draws(sides, rolls@) =~= Seq::<(u64, u64)>::empty());
    assert(before + Seq::<(u64, u64)>::empty() =~= before);
    while n < count
        invariant
            sides >= 1,
            n <= count,
            rolls@.len() == n,
            forall|i: int| 0 <= i < rolls@.len() ==> 1 <= #[trigger] rolls@[i] <= sides,
            rng.draws() == before + roll_draws(sides, rolls@),
        decreases count - n,
    {
        let ghost prior = rolls@;
        let r = rng.roll(sides);
        rolls.push(r);
        assert(roll_draws(sides, rolls@) =~= roll_draws(sides, prior).push((sides, r)));
        assert(before + roll_draws(sides, rolls@) =~= (before + roll_draws(sides, prior)).push((sides, r)));
        n = n + 1;
    }
    proof {
        lemma_roll_draws_sides(before, sides, rolls@);
    }
    rolls
}

/// The record after a roll: what came before is kept, and each die follows with `sides` faces
/// and the face that came up.
pub proof fn lemma_roll_draws_sides(before: Seq<(u64, u64)>, sides: u64, rolls: Seq<u64>)
    ensures
        (before + roll_draws(sides, rolls)).len() == before.len() + rolls.len(),
        forall|i: int| 0 <= i < before.len() ==> #[trigger] (before + roll_draws(sides, rolls))[i] == before[i],
        forall|i: int|
            0 <= i < rolls.len() ==> #[trigger] (before + roll_draws(sides, rolls))[before.len() + i] == (
                sides,
                rolls[i],
            ),
{
}

/// The rolls of `s` run from highest to lowest.
pub open spec fn is_desc(s: Seq<u64>) -> bool {
    forall|i: int, j: int| 0 <= i <= j < s.len() ==> s[i] >= s[j]
}

/// The first position in `s` whose roll is at most `x`, or the length of `s` when there is none:
/// where `x` goes in a sequence that runs from highest to lowest.
pub open spec fn desc_slot(s: Seq<u64>, x: u64) -> int
    decreases s.len(),
{
    if s.len() == 0 {
        0
    } else if x >= s[0] {
        0
    } else {
        1 + desc_slot(s.drop_first(), x)
    }
}

/// `s` with `x` put in its place from highest to lowest.
pub open spec fn insert_desc(s: Seq<u64>, x: u64) -> Seq<u64> {
    s.insert(desc_slot(s, x), x)
}

/// The rolls of `s` from highest to lowest.
pub open spec fn sort_desc(s: Seq<u64>) -> Seq<u64>
    decreases s.len(),
{
    if s.len() == 0 {
        s
    } else {
        insert_desc(sort_desc(s.drop_last()), s.last())
    }
}

/// The smaller of two counts.
pub open spec fn min_len(a: int, b: int) -> int {
    if a <= b {
        a
    } else {
        b
    }
}

/// The rolls that count: all of them, or the `k` highest from highest to lowest.
pub open spec fn spec_keep(rolls: Seq<u64>, modifier: Option<DiceModifier>) -> Seq<u64> {
    match modifier {
        None => rolls,
        Some(DiceModifier::KeepHighest(k)) => sort_desc(rolls).take(
            min_len(k as int, rolls.len() as int),
        ),
    }
}

/// The place of `x` lies within `s`; every roll before it is higher than `x`, and the roll at it,
/// if any, is at most `x`.
pub proof fn lemma_desc_slot(s: Seq<u64>, x: u64)
    ensures
        0 <= desc_slot(s, x) <= s.len(),
        forall|j: int| 0 <= j < desc_slot(s, x) ==> x < #[trigger] s[j],
        desc_slot(s, x) < s.len() ==> x >= s[desc_slot(s, x)],
    decreases s.len(),
{
    if s.len() > 0 && x < s[0] {
        lemma_desc_slot(s.drop_first(), x);
        assert forall|j: int| 0 <= j < desc_slot(s, x) implies x < #[trigger] s[j] by {
            if j > 0 {
                assert(s[j] == s.drop_first()[j - 1]);
            }
        }
    }
}

/// Sorting keeps the number of rolls.
pub proof fn lemma_sort_desc_len(s: Seq<u64>)
    ensures
        sort_desc(s).len() == s.len(),
    decreases s.len(),
{
    if s.len() > 0 {
        lemma_sort_desc_len(s.drop_last());
        lemma_desc_slot(sort_desc(s.drop_last()), s.last());
    }
}

/// Putting a roll in its place keeps a sequence running from highest to lowest.
pub proof fn lemma_insert_desc_sorted(s: Seq<u64>, x: u64)
    requires
        is_desc(s),
    ensures
        is_desc(insert_desc(s, x)),
{
    lemma_desc_slot(s, x);
    let p = desc_slot(s, x);
    let r = insert_desc(s, x);
    assert forall|i: int, j: int| 0 <= i <= j < r.len() implies r[i] >= r[j] by {
        if j < p {
            assert(r[i] == s[i] && r[j] == s[j]);
        } else if j == p {
            assert(r[j] == x);
            if i < p {
                assert(r[i] == s[i]);
            }
        } else {
            assert(r[j] == s[j - 1]);
            if i < p {
                assert(r[i] == s[i]);
            } else if i == p {
                assert(s[p] <= x);
            } else {
                assert(r[i] == s[i - 1]);
            }
        }
    }
}

/// The sorted rolls run from highest to lowest.
pub proof fn lemma_sort_desc_is_desc(s: Seq<u64>)
    ensures
        is_desc(sort_desc(s)),
    decreases s.len(),
{
    if s.len() > 0 {
        lemma_sort_desc_is_desc(s.drop_last());
        lemma_insert_desc_sorted(sort_desc(s.drop_last()), s.last());
    }
}

/// Sorting keeps every roll, each as often as it occurs.
pub proof fn lemma_sort_desc_permutes(s: Seq<u64>)
    ensures
        sort_desc(s).to_multiset() == s.to_multiset(),
    decreases s.len(),
{
    broadcast use vstd::seq_lib::group_to_multiset_ensures;

    if s.len() > 0 {
        lemma_sort_desc_permutes(s.drop_last());
        lemma_desc_slot(sort_desc(s.drop_last()), s.last());
        assert(s =~= s.drop_last().push(s.last()));
    } else {
        assert(sort_desc(s) == s);
    }
}

/// Without a modifier every die counts: all the rolls are kept, in the order they came up.
pub proof fn lemma_keep_all(rolls: Seq<u64>)
    ensures
        spec_keep(rolls, None).len() == rolls.len(),
        forall|i: int| 0 <= i < rolls.len() ==> #[trigger] spec_keep(rolls, None)[i] == rolls[i],
{
}

/// Keeping the `k` highest rolls keeps `min(k, n)` of them, from highest to lowest, each taken from
/// the rolls, and every roll that is left out is at most every roll that is kept.
pub proof fn lemma_keep_highest(rolls: Seq<u64>, k: u32)
    ensures
        ({
            let kept = spec_keep(rolls, Some(DiceModifier::KeepHighest(k)));
            &&& kept.len() == min_len(k as int, rolls.len() as int)
            &&& is_desc(kept)
            &&& kept.to_multiset().subset_of(rolls.to_multiset())
            &&& forall|x: u64|
                #[trigger] rolls.to_multiset().sub(kept.to_multiset()).count(x) > 0 ==> forall|i: int|
                    0 <= i < kept.len() ==> x <= kept[i]
        }),
{
    broadcast use vstd::seq_lib::group_to_multiset_ensures;
    broadcast use vstd::multiset::group_multiset_axioms;

    let sorted = sort_desc(rolls);
    lemma_sort_desc_len(rolls);
    lemma_sort_desc_is_desc(rolls);
    lemma_sort_desc_permutes(rolls);
    let m = min_len(k as int, rolls.len() as int);
    let kept = sorted.take(m);
    let dropped = sorted.skip(m);
    assert(sorted =~= kept + dropped);
    vstd::seq_lib::lemma_multiset_commutative(kept, dropped);
    assert(rolls.to_multiset() =~= kept.to_multiset().add(dropped.to_multiset()));
    assert(rolls.to_multiset().sub(kept.to_multiset()) =~= dropped.to_multiset());
    assert forall|x: u64| #[trigger] rolls.to_multiset().sub(kept.to_multiset()).count(x) > 0 implies
        forall|i: int| 0 <= i < kept.len() ==> x <= kept[i] by {
        assert(dropped.to_multiset().count(x) > 0);
        assert(dropped.contains(x));
        let j = choose|j: int| 0 <= j < dropped.len() && dropped[j] == x;
        assert(sorted[m + j] == x);
        assert forall|i: int| 0 <= i < kept.len() implies x <= kept[i] by {
            assert(kept[i] == sorted[i]);
        }
    }
}

/// Puts `x` into `v`, which runs from highest to lowest, in its place.
fn insert_desc_in(v: &mut Vec<u64>, x: u64)
    ensures
        final(v)@ == insert_desc(old(v)@, x),
{
    let ghost s = v@;
    let mut i: usize = 0;
    assert(s.skip(0) =~= s);
    while i < v.len() && x < v[i]
        invariant
            v@ == s,
            i <= s.len(),
            desc_slot(s, x) == i + desc_slot(s.skip(i as int), x),
        decreases s.len() - i,
    {
        assert(s.skip(i as int).drop_first() =~= s.skip(i + 1));
        i = i + 1;
    }
    v.insert(i, x);
}

/// The rolls of `rolls` from highest to lowest.
fn sorted_desc(rolls: &Vec<u64>) -> (sorted: Vec<u64>)
    ensures
        sorted@ == sort_desc(rolls@),
{
    let mut sorted: Vec<u64> = Vec::new();
    let mut j: usize = 0;
    assert(rolls@.take(0) =~= Seq::<u64>::empty());
    while j < rolls.len()
        invariant
            j <= rolls@.len(),
            sorted@ == sort_desc(rolls@.take(j as int)),
        decreases rolls@.len() - j,
    {
        assert(rolls@.take(j + 1).drop_last() =~= rolls@.take(j as int));
        insert_desc_in(&mut sorted, rolls[j]);
        j = j + 1;
    }
    assert(rolls@.take(rolls@.len() as int) =~= rolls@);
    sorted
}

/// The rolls that count under `modifier`: all of them, or the `k` highest, from highest to lowest.
pub fn keep_dice(rolls: &Vec<u64>, modifier: Option<DiceModifier>) -> (kept: Vec<u64>)
    ensures
        kept@ == spec_keep(rolls@, modifier),
        modifier is None ==> kept@ == rolls@,
{
    proof {
        lemma_keep_all(rolls@);
    }
    match modifier {
        None => {
            let mut kept: Vec<u64> = Vec::new();
            let mut j: usize = 0;
            while j < rolls.len()
                invariant
                    j <= rolls@.len(),
                    kept@ == rolls@.take(j as int),
                decreases rolls@.len() - j,
            {
                kept.push(rolls[j]);
                j = j + 1;
                assert(kept@ =~= rolls@.take(j as int));
            }
            assert(rolls@.take(rolls@.len() as int) =~= rolls@);
            assert(kept@ == spec_keep(rolls@, modifier));
            kept
        },
        Some(DiceModifier::KeepHighest(k)) => {
            let mut sorted = sorted_desc(rolls);
            proof {
                lemma_sort_desc_len(rolls@);
            }
            let n = if (k as usize) < sorted.len() {
                k as usize
            } else {
                sorted.len()
            };
            assert(n == min_len(k as int, rolls@.len() as int));
            sorted.truncate(n);
            assert(sorted@ =~= sort_desc(rolls@).take(n as int));
            sorted
        },
    }
}

} // verus!
