//! Event ids that contest a state key.

use crate::ids::texts;
use crate::state_map::StateMap;
use vstd::prelude::*;

verus! {

/// Event ids contesting one state key.
///
/// Two forks disputing a key is the modal conflict, so two ids stay inline.
#[verifier::external_body]
pub struct ConflictVec {
    ids: smallvec::SmallVec<[String; 2]>,
}

/// Conflicting event ids for each contested state key.
pub type ConflictMap = StateMap<ConflictVec>;

/// The ids that a [`ConflictVec`] holds, in their order.
pub uninterp spec fn contestants(contest: ConflictVec) -> Seq<Seq<char>>;

/// `smallvec::SmallVec::new`: a vector that holds nothing.
#[verifier::external_body]
fn no_contestants() -> (contest: ConflictVec)
    ensures
        contestants(contest) == Seq::<Seq<char>>::empty(),
{
    ConflictVec { ids: smallvec::SmallVec::new() }
}

/// `smallvec::SmallVec::push`: the vector holds one item more, at its end.
#[verifier::external_body]
fn push_contestant(contest: &mut ConflictVec, id: String)
    ensures
        contestants(*final(contest)) == contestants(*old(contest)).push(id@),
{
    contest.ids.push(id);
}

/// `smallvec::SmallVec::into_vec` on a copy: the items in their order.
#[verifier::external_body]
fn list_contestants(contest: &ConflictVec) -> (ids: Vec<String>)
    ensures
        texts(ids@) == contestants(*contest),
{
    contest.ids.clone().into_vec()
}

impl ConflictVec {
    pub fn from_ids(ids: &Vec<String>) -> (contest: ConflictVec)
        ensures
            contestants(contest) == texts(ids@),
    {
        let mut contest = no_contestants();
        let mut i: usize = 0;
        assert(contestants(contest) =~= texts(ids@.take(0)));
        while i < ids.len()
            invariant
                i <= ids.len(),
                contestants(contest) == texts(ids@.take(i as int)),
            decreases ids.len() - i,
        {
            push_contestant(&mut contest, ids[i].clone());
            i += 1;
            assert(contestants(contest) =~= texts(ids@.take(i as int)));
        }
        assert(ids@.take(i as int) =~= ids@);
        contest
    }

    pub fn ids(&self) -> (ids: Vec<String>)
        ensures
            texts(ids@) == contestants(*self),
    {
        list_contestants(self)
    }
}

/// The ids that go into a contest come out of it, in their order.
pub proof fn lemma_contestants_come_back(ids: Vec<String>, contest: ConflictVec, back: Vec<String>)
    requires
        call_ensures(ConflictVec::from_ids, (&ids,), contest),
        call_ensures(ConflictVec::ids, (&contest,), back),
    ensures
        back@.len() == ids@.len(),
        forall|i: int| 0 <= i < ids@.len() ==> (#[trigger] back@[i])@ == ids@[i]@,
{
    assert(texts(back@).len() == back@.len());
    assert(texts(ids@).len() == ids@.len());
    assert forall|i: int| 0 <= i < ids@.len() implies (#[trigger] back@[i])@ == ids@[i]@ by {
        assert(texts(back@)[i] == back@[i]@);
        assert(texts(ids@)[i] == ids@[i]@);
    }
}

} // verus!
