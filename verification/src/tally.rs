//! Tallies: the faces that a sequence of draws rolls, and how often each.

use crate::face::{face_of, FACES};
use crate::table::{is_report_of, lemma_report_is_unique};
use vstd::multiset::Multiset;
use vstd::prelude::*;

verus! {

/// The faces rolled for a sequence of random integers, in the order drawn.
pub open spec fn rolls(draws: Seq<u32>) -> Seq<u32> {
    draws.map_values(|random_int: u32| face_of(random_int))
}

/// The frequency table of a sequence of random integers: the multiset of the
/// faces rolled for them.
pub open spec fn tally(draws: Seq<u32>) -> Multiset<u32> {
    rolls(draws).to_multiset()
}

/// Whether every face counted in `rolled` is a face of the die.
pub open spec fn on_the_die(rolled: Multiset<u32>) -> bool {
    forall|face: u32| rolled.count(face) > 0 ==> 1 <= face <= FACES
}

/// The sum of the counts that `rolled` holds for the six faces of the die.
pub open spec fn sum_of_counts(rolled: Multiset<u32>) -> nat {
    rolled.count(1) + rolled.count(2) + rolled.count(3) + rolled.count(4) + rolled.count(5)
        + rolled.count(6)
}

/// Handing one more random integer to a tally adds the face that it selects.
pub proof fn lemma_tally_push(draws: Seq<u32>, random_int: u32)
    ensures
        tally(draws.push(random_int)) == tally(draws).insert(face_of(random_int)),
{
    assert(rolls(draws.push(random_int)) =~= rolls(draws).push(face_of(random_int)));
    vstd::seq_lib::to_multiset_build(rolls(draws), face_of(random_int));
}

/// The counts of a tally add up to the number of trials: every draw is
/// counted once, under a face between one and six.
pub proof fn lemma_tally_total(draws: Seq<u32>)
    ensures
        tally(draws).len() == draws.len(),
        on_the_die(tally(draws)),
        sum_of_counts(tally(draws)) == draws.len(),
{
    rolls(draws).to_multiset_ensures();
    assert forall|face: u32| tally(draws).count(face) > 0 implies 1 <= face <= FACES by {
        assert(rolls(draws).contains(face));
    }
    lemma_counts_add_up(tally(draws));
}

/// Where only faces of the die are counted, the counts of the six faces add
/// up to the number of observations.
pub proof fn lemma_counts_add_up(rolled: Multiset<u32>)
    requires
        on_the_die(rolled),
    ensures
        sum_of_counts(rolled) == rolled.len(),
    decreases rolled.len(),
{
    if rolled.len() > 0 {
        lemma_counts_add_up(rolled.remove(rolled.choose()));
    }
}

/// A tally does not depend on the order of the draws: sequences that hold the
/// same random integers, each as often, have the same tally.
pub proof fn lemma_tally_ignores_order(first: Seq<u32>, second: Seq<u32>)
    requires
        first.to_multiset() == second.to_multiset(),
    ensures
        tally(first) == tally(second),
    decreases first.len(),
{
    first.to_multiset_ensures();
    second.to_multiset_ensures();
    if first.len() == 0 {
        assert(first =~= second);
    } else {
        let random_int: u32 = first.last();
        assert(second.to_multiset().count(random_int) > 0);
        let at: int = second.index_of(random_int);
        let first_rest = first.drop_last();
        let second_rest = second.remove(at);
        assert(first_rest =~= first.remove(first.len() - 1));
        lemma_tally_ignores_order(first_rest, second_rest);
        assert(first =~= first_rest.push(random_int));
        lemma_tally_push(first_rest, random_int);
        assert(rolls(second_rest) =~= rolls(second).remove(at));
        rolls(second).to_multiset_ensures();
    }
}

/// The report does not depend on the order of the draws either: draws that
/// differ in order only have the same rows, in the same ascending order.
pub proof fn lemma_report_ignores_order(
    first: Seq<u32>,
    second: Seq<u32>,
    first_rows: Seq<(u32, u32)>,
    second_rows: Seq<(u32, u32)>,
)
    requires
        first.to_multiset() == second.to_multiset(),
        is_report_of(first_rows, tally(first)),
        is_report_of(second_rows, tally(second)),
    ensures
        first_rows == second_rows,
{
    lemma_tally_ignores_order(first, second);
    lemma_report_is_unique(first_rows, second_rows, tally(first));
}

} // verus!
