//! Subsets of the candidate universe, and the filters that narrow them.

use crate::score::{score_of, Score, MAX_SPACES};
use crate::universe::{rows, Universe};
use std::collections::HashSet;
use vstd::prelude::*;
use vstd::set_lib::lemma_len_subset;

verus! {

/// The combinations of a universe that are still possible, by their indices.
pub struct Subset<'a> {
    pub original: &'a Universe,
    pub members: HashSet<u32>,
}

/// A rule that keeps some combinations and drops the others.
pub trait FilterSet {
    /// Whether the filter can judge every combination of `full_set`.
    spec fn applies_to(&self, full_set: Seq<Seq<u8>>) -> bool;

    /// Whether the filter keeps `combination`.
    spec fn keeps(&self, combination: Seq<u8>) -> bool;

    /// The members whose combinations the filter keeps.
    fn apply(&self, full_set: &Vec<Vec<u8>>, members: &HashSet<u32>) -> (kept: HashSet<u32>)
        requires
            self.applies_to(rows(full_set@)),
            forall|index: u32| members@.contains(index) ==> index < full_set.len(),
        ensures
            forall|index: u32|
                kept@.contains(index) <==> members@.contains(index) && self.keeps(
                    rows(full_set@)[index as int],
                ),
    ;
}

/// The indices in `members` whose combinations `filter` keeps.
pub open spec fn kept_members<F: FilterSet + ?Sized>(
    filter: &F,
    full_set: Seq<Seq<u8>>,
    members: Set<u32>,
) -> Set<u32> {
    Set::new(|index: u32| members.contains(index) && filter.keeps(full_set[index as int]))
}

/// Keeps the combinations against which `guess` earns exactly `score`.
pub struct ScoreFilter<'a> {
    pub score: &'a Score,
    pub guess: &'a Vec<u8>,
}

impl FilterSet for ScoreFilter<'_> {
    open spec fn applies_to(&self, full_set: Seq<Seq<u8>>) -> bool {
        &&& self.guess.len() <= MAX_SPACES
        &&& forall|i: int|
            0 <= i < full_set.len() ==> (#[trigger] full_set[i]).len() == self.guess.len()
    }

    open spec fn keeps(&self, combination: Seq<u8>) -> bool {
        score_of(self.guess@, combination) == *self.score
    }

    fn apply(&self, full_set: &Vec<Vec<u8>>, members: &HashSet<u32>) -> (kept: HashSet<u32>) {
        let mut output: HashSet<u32> = HashSet::new();
        for index in iter: members.iter()
            invariant
                self.applies_to(rows(full_set@)),
                forall|index: u32| members@.contains(index) ==> index < full_set.len(),
                iter.seq().unref().to_set() == members@,
                forall|i: u32|
                    output@.contains(i) <==> iter.seq().unref().take(
                        iter.index() as int,
                    ).contains(i) && score_of(self.guess@, rows(full_set@)[i as int])
                        == *self.score,
                iter.index() == iter.seq().len() ==> forall|i: u32|
                    output@.contains(i) <==> members@.contains(i) && score_of(
                        self.guess@,
                        rows(full_set@)[i as int],
                    ) == *self.score,
        {
            let ghost seen = iter.seq().unref().take(iter.index() as int);
            let ghost all = iter.seq().unref();
            proof {
                assert(all.to_set().contains(all[iter.index() as int]));
                assert(rows(full_set@)[*index as int] == full_set[*index as int]@);
            }
            if Score::compute(self.guess, &full_set[*index as usize]) == *self.score {
                output.insert(*index);
            }
            proof {
                assert forall|i: u32| seen.push(*index).contains(i) <==> seen.contains(i) || i
                    == *index by {
                    if seen.contains(i) {
                        let k = choose|k: int| 0 <= k < seen.len() && seen[k] == i;
                        assert(seen.push(*index)[k] == i);
                    }
                    if i == *index {
                        assert(seen.push(*index)[seen.len() as int] == i);
                    }
                }
                assert(all.take(all.len() as int) =~= all);
            }
        }
        output
    }
}

/// The members of `members`, each once, in the order in which the set hands
/// them out.
pub fn member_list(members: &HashSet<u32>) -> (list: Vec<u32>)
    ensures
        list@.to_set() == members@,
        list@.no_duplicates(),
        list@.len() == members@.len(),
{
    let mut list: Vec<u32> = Vec::new();
    for member in iter: members.iter()
        invariant
            iter.seq().unref().to_set() == members@,
            iter.seq().no_duplicates(),
            iter.seq().len() == members@.len(),
            list@ == iter.seq().unref().take(iter.index() as int),
            iter.index() == iter.seq().len() ==> list@ == iter.seq().unref(),
    {
        list.push(*member);
    }
    list
}

impl<'a> Subset<'a> {
    /// The indices of the members.
    pub open spec fn view(&self) -> Set<u32> {
        self.members@
    }

    /// Whether the subset lies within a well-formed universe.
    pub open spec fn wf(&self) -> bool {
        &&& self.original.wf()
        &&& self.members@.finite()
        &&& forall|index: u32|
            self.members@.contains(index) ==> index < self.original.combinations.len()
    }

    /// The number of members.
    pub fn len(&self) -> (len: usize)
        ensures
            len == self.members@.len(),
    {
        self.members.len()
    }

    /// Whether the combination at `index` is a member.
    pub fn contains(&self, index: u32) -> (found: bool)
        ensures
            found == self.members@.contains(index),
    {
        self.members.contains(&index)
    }

    /// The subset of the members that `filter` keeps. The receiver is left
    /// as it was; what comes back may be empty.
    pub fn make_subset(&self, filter: &impl FilterSet) -> (narrowed: Subset<'a>)
        requires
            self.wf(),
            filter.applies_to(self.original@),
        ensures
            narrowed.wf(),
            narrowed.original == self.original,
            narrowed.members@ == kept_members(filter, self.original@, self.members@),
            narrowed.members@.subset_of(self.members@),
            narrowed.members@.len() <= self.members@.len(),
    {
        let members = filter.apply(&self.original.combinations, &self.members);
        proof {
            assert(members@ =~= kept_members(filter, self.original@, self.members@));
            lemma_filter_narrows(filter, self.original@, self.members@);
        }
        Subset { original: self.original, members }
    }
}

impl Universe {
    /// The subset that holds every combination of the universe.
    pub fn as_subset(&self) -> (subset: Subset<'_>)
        requires
            self.wf(),
        ensures
            subset.wf(),
            subset.original == self,
            forall|index: u32| subset.members@.contains(index) <==> index < self.combinations.len(),
            subset.members@.len() == self.combinations.len(),
    {
        let count: u32 = self.combinations.len() as u32;
        let mut members: HashSet<u32> = HashSet::new();
        let mut index: u32 = 0;
        while index < count
            invariant
                index <= count,
                members@.finite(),
                members@.len() == index,
                forall|member: u32| members@.contains(member) <==> member < index,
            decreases count - index,
        {
            members.insert(index);
            index += 1;
        }
        Subset { original: self, members }
    }
}

/// A filter only ever removes members: what it keeps is a subset of what it
/// was given, and no larger.
pub proof fn lemma_filter_narrows<F: FilterSet + ?Sized>(
    filter: &F,
    full_set: Seq<Seq<u8>>,
    members: Set<u32>,
)
    requires
        members.finite(),
    ensures
        kept_members(filter, full_set, members).subset_of(members),
        kept_members(filter, full_set, members).finite(),
        kept_members(filter, full_set, members).len() <= members.len(),
{
    lemma_len_subset(kept_members(filter, full_set, members), members);
}

/// Filtering by the score that a guess earns against one of the members
/// keeps that member.
pub proof fn lemma_true_score_keeps_member(
    filter: ScoreFilter,
    full_set: Seq<Seq<u8>>,
    members: Set<u32>,
    member: u32,
)
    requires
        members.contains(member),
        *filter.score == score_of(filter.guess@, full_set[member as int]),
    ensures
        kept_members(&filter, full_set, members).contains(member),
{
}

} // verus!
