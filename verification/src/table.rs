//! The frequency table: how often each face has come up.

use std::collections::BTreeMap;
use vstd::multiset::Multiset;
use vstd::prelude::*;
use vstd::std_specs::cmp::OrdSpec;
use vstd::std_specs::iter::IteratorSpec;

verus! {

/// Counts of observed faces, kept in ascending order of face.
///
/// A table is viewed as the multiset of the faces recorded in it: the count of
/// a face is its multiplicity, and the number of recorded trials is the
/// multiset's length. A face that was never recorded has no entry.
#[derive(Debug)]
pub struct FrequencyTable {
    counts: BTreeMap<u32, u32>,
}

impl View for FrequencyTable {
    type V = Multiset<u32>;

    closed spec fn view(&self) -> Multiset<u32> {
        census(self.counts@)
    }
}

impl FrequencyTable {
    /// Only observed faces have an entry.
    #[verifier::type_invariant]
    spec fn observed_only(self) -> bool {
        forall|face: u32| #[trigger] self.counts@.contains_key(face) ==> self.counts@[face] >= 1
    }

    /// An empty table.
    pub fn new() -> (table: Self)
        ensures
            table@ == Multiset::<u32>::empty(),
    {
        let table = FrequencyTable { counts: BTreeMap::new() };
        proof {
            assert forall|face: u32| table@.count(face) == 0 by {
                lemma_census_count(table.counts@, face);
            }
        }
        table
    }

    /// How often `face` has been recorded; zero for a face never seen.
    pub fn count(&self, face: u32) -> (seen: u32)
        ensures
            seen == self@.count(face),
    {
        proof {
            use_type_invariant(self);
            lemma_census_count(self.counts@, face);
        }
        match self.counts.get(&face) {
            Some(seen) => *seen,
            None => 0,
        }
    }

    /// Records one more observation of `face`.
    ///
    /// The count of `face` must still fit: a table counts up to `u32::MAX`
    /// observations of one face.
    pub fn record(&mut self, face: u32)
        requires
            old(self)@.count(face) < u32::MAX,
        ensures
            final(self)@ == old(self)@.insert(face),
    {
        proof {
            use_type_invariant(&*self);
        }
        let seen: u32 = self.count(face);
        let mut counts = BTreeMap::new();
        std::mem::swap(&mut counts, &mut self.counts);
        counts.insert(face, seen + 1);
        self.counts = counts;
        proof {
            assert forall|other: u32| self@.count(other) == old(self)@.insert(face).count(
                other,
            ) by {
                lemma_census_count(self.counts@, other);
                lemma_census_count(old(self).counts@, other);
            }
        }
    }

    /// The rows of the report: each observed face with its count, in ascending
    /// order of face, whatever the order in which the faces were recorded.
    pub fn entries(&self) -> (rows: Vec<(u32, u32)>)
        ensures
            is_report_of(rows@, self@),
    {
        let ghost order = self.counts.iter().remaining();
        let mut rows: Vec<(u32, u32)> = Vec::new();
        for entry in walk: self.counts.iter()
            invariant
                walk.seq() == order,
                vstd::std_specs::btree::increasing_seq(
                    order.map_values(|entry: (&u32, &u32)| *entry.0),
                ),
                rows.len() == walk.index(),
                forall|i: int|
                    0 <= i < rows.len() ==> rows[i].0 == *order[i].0 && rows[i].1 == *order[i].1,
        {
            rows.push((*entry.0, *entry.1));
        }
        proof {
            use_type_invariant(self);
            let faces = order.map_values(|entry: (&u32, &u32)| *entry.0);
            assert forall|i: int, j: int| 0 <= i < j < rows.len() implies rows[i].0
                < rows[j].0 by {
                assert(faces[i].cmp_spec(&faces[j]) is Less);
            }
            assert forall|i: int| 0 <= i < rows.len() implies rows[i].1 > 0 && rows[i].1
                == self@.count(rows[i].0) by {
                assert(self.counts@.contains_key(*order[i].0));
                lemma_census_count(self.counts@, rows[i].0);
            }
            assert forall|face: u32| self@.count(face) > 0 implies exists|i: int|
                0 <= i < rows.len() && rows[i].0 == face by {
                lemma_census_count(self.counts@, face);
                let at: int = order.index_of((&face, &self.counts@[face]));
                assert(rows[at].0 == face);
            }
        }
        rows
    }
}

/// Whether `rows` is the report of the recorded faces `rolled`: one row for
/// each face that occurs, holding the face and its count, the rows in strictly
/// ascending order of face.
pub open spec fn is_report_of(rows: Seq<(u32, u32)>, rolled: Multiset<u32>) -> bool {
    &&& forall|i: int, j: int| 0 <= i < j < rows.len() ==> rows[i].0 < rows[j].0
    &&& forall|i: int|
        0 <= i < rows.len() ==> rows[i].1 > 0 && rows[i].1 == rolled.count(rows[i].0)
    &&& forall|face: u32|
        rolled.count(face) > 0 ==> exists|i: int| 0 <= i < rows.len() && rows[i].0 == face
}

/// The recorded faces `rolled` without any occurrence of `face`.
spec fn without(rolled: Multiset<u32>, face: u32) -> Multiset<u32> {
    rolled.filter(|other: u32| other != face)
}

/// A table has exactly one report: row sequences that report the same recorded
/// faces are equal, so the report does not depend on how the table came about.
pub proof fn lemma_report_is_unique(
    first: Seq<(u32, u32)>,
    second: Seq<(u32, u32)>,
    rolled: Multiset<u32>,
)
    requires
        is_report_of(first, rolled),
        is_report_of(second, rolled),
    ensures
        first == second,
    decreases first.len(),
{
    if first.len() == 0 {
        if second.len() > 0 {
            assert(rolled.count(second[0].0) > 0);
        }
    } else {
        let top = first.last();
        let j: int = choose|j: int| 0 <= j < second.len() && second[j].0 == top.0;
        let other_top = second.last();
        let i: int = choose|i: int| 0 <= i < first.len() && first[i].0 == other_top.0;
        assert(top.0 == other_top.0) by {
            if i < first.len() - 1 {
                assert(first[i].0 < first[first.len() - 1].0);
            }
            if j < second.len() - 1 {
                assert(second[j].0 < second[second.len() - 1].0);
            }
        }
        lemma_report_without_top(first, rolled);
        lemma_report_without_top(second, rolled);
        lemma_report_is_unique(first.drop_last(), second.drop_last(), without(rolled, top.0));
        assert(first =~= first.drop_last().push(top));
        assert(second =~= second.drop_last().push(other_top));
    }
}

/// Dropping the last row of a report leaves the report of the other faces.
proof fn lemma_report_without_top(rows: Seq<(u32, u32)>, rolled: Multiset<u32>)
    requires
        rows.len() > 0,
        is_report_of(rows, rolled),
    ensures
        is_report_of(rows.drop_last(), without(rolled, rows.last().0)),
{
    let rest = without(rolled, rows.last().0);
    let shorter = rows.drop_last();
    assert forall|face: u32| rest.count(face) > 0 implies exists|i: int|
        0 <= i < shorter.len() && shorter[i].0 == face by {
        let i: int = choose|i: int| 0 <= i < rows.len() && rows[i].0 == face;
        assert(shorter[i].0 == face);
    }
}

/// The multiset that a map from face to count stands for.
spec fn census(counts: Map<u32, u32>) -> Multiset<u32> {
    Multiset::from_map(
        Map::new(|face: u32| counts.contains_key(face), |face: u32| counts[face] as nat),
    )
}

/// The count of a face in the multiset is its entry in the map, or zero without one.
proof fn lemma_census_count(counts: Map<u32, u32>, face: u32)
    requires
        counts.dom().finite(),
    ensures
        census(counts).count(face) == if counts.contains_key(face) {
            counts[face] as nat
        } else {
            0
        },
{
    let weights = Map::new(|face: u32| counts.contains_key(face), |face: u32| counts[face] as nat);
    assert(weights.dom() =~= counts.dom());
}

} // verus!
