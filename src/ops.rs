//! Decisions of the higher-level git operations.
use vstd::prelude::*;

use crate::store::ObjectId;

verus! {

/// The commit that a cherry-pick of `cherry`, whose parents are `parents`,
/// replays against when put on `head`: a root commit is its own base, a
/// commit with one parent has that parent, and a merge has `head` where it is
/// one of its parents, else its first parent.
pub open spec fn cherry_pick_base_of(parents: Seq<Seq<u8>>, cherry: Seq<u8>, head: Seq<u8>) -> Seq<u8> {
    if parents.len() == 0 {
        cherry
    } else if parents.len() == 1 {
        parents[0]
    } else if parents.contains(head) {
        head
    } else {
        parents[0]
    }
}

pub open spec fn ids_view(v: Seq<ObjectId>) -> Seq<Seq<u8>> {
    v.map_values(|id: ObjectId| id@)
}

pub fn cherry_pick_base(parents: &Vec<ObjectId>, cherry: &ObjectId, head: &ObjectId) -> (r: ObjectId)
    ensures
        r@ == cherry_pick_base_of(ids_view(parents@), cherry@, head@),
{
    let ghost ps = ids_view(parents@);
    if parents.len() == 0 {
        return *cherry;
    }
    if parents.len() == 1 {
        assert(ps[0] == parents@[0]@);
        return parents[0];
    }
    let mut i: usize = 0;
    while i < parents.len()
        invariant
            i <= parents@.len(),
            ps == ids_view(parents@),
            forall|j: int| 0 <= j < i ==> ps[j] != head@,
        decreases parents@.len() - i,
    {
        if parents[i].same(head) {
            assert(ps[i as int] == head@);
            return *head;
        }
        i = i + 1;
    }
    assert(!ps.contains(head@)) by {
        if ps.contains(head@) {
            let j = choose|j: int| 0 <= j < ps.len() && ps[j] == head@;
        }
    }
    assert(ps[0] == parents@[0]@);
    parents[0]
}

} // verus!
