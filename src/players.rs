//! Grouping of scored records by player.
use vstd::prelude::*;
use std::collections::HashMap;

verus! {

broadcast use vstd::std_specs::hash::group_hash_axioms;

/// Some record carries group number `g`.
pub open spec fn has_member(groups: Seq<usize>, g: int) -> bool {
    exists|k: int| 0 <= k < groups.len() && groups[k] == g
}

/// Numbers the distinct player ids of `ids`. Returns the group number of each
/// record and the number of groups: two records share a group exactly when
/// they share a player, and every group has a record.
pub fn group_players(ids: &Vec<i32>) -> (r: (Vec<usize>, usize))
    ensures
        r.0.len() == ids.len(),
        forall|k: int| 0 <= k < ids.len() ==> #[trigger] r.0[k] < r.1,
        forall|j: int, k: int|
            0 <= j < ids.len() && 0 <= k < ids.len() ==> (#[trigger] r.0[j] == #[trigger] r.0[k]
                <==> ids[j] == ids[k]),
        forall|g: int| 0 <= g < r.1 ==> #[trigger] has_member(r.0@, g),
{
    let mut m: HashMap<i32, usize> = HashMap::new();
    let mut firsts: Vec<usize> = Vec::new();
    let mut r: Vec<usize> = Vec::new();
    let mut i: usize = 0;
    while i < ids.len()
        invariant
            i <= ids.len(),
            r.len() == i,
            forall|g: int| 0 <= g < firsts.len() ==> #[trigger] firsts[g] < i && r[firsts[g] as int] == g,
            forall|k: int| 0 <= k < i ==> #[trigger] r[k] < firsts.len(),
            forall|k: int| 0 <= k < i ==> m@.contains_key(#[trigger] ids[k]) && m@[ids[k]] == r[k],
            forall|id: i32| #[trigger] m@.contains_key(id) ==> m@[id] < firsts.len() && ids[firsts[m@[id] as int] as int] == id,
        decreases ids.len() - i,
    {
        let id = ids[i];
        match m.get(&id) {
            Some(g) => {
                r.push(*g);
            },
            None => {
                let g = firsts.len();
                firsts.push(i);
                m.insert(id, g);
                r.push(g);
            },
        }
        i = i + 1;
    }
    proof {
        assert forall|g: int| 0 <= g < firsts.len() implies #[trigger] has_member(r@, g) by {
            assert(r[firsts[g] as int] == g);
        }
        assert forall|j: int, k: int|
            0 <= j < ids.len() && 0 <= k < ids.len() implies (#[trigger] r[j] == #[trigger] r[k]
                <==> ids[j] == ids[k]) by {
            assert(m@.contains_key(ids[j]));
            assert(m@.contains_key(ids[k]));
        }
    }
    (r, firsts.len())
}

} // verus!
