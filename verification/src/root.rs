use vstd::prelude::*;
use crate::record::Info;

verus! {

/// `m` is the smallest `parent_id` that occurs in `records`.
pub open spec fn is_least_parent(records: Seq<Info>, m: i32) -> bool {
    &&& exists|i: int| 0 <= i < records.len() && #[trigger] records[i].parent_id == m
    &&& forall|i: int| 0 <= i < records.len() ==> m <= #[trigger] records[i].parent_id
}

/// The marker that roots carry as `parent_id`: the least `parent_id` present,
/// and 0 when there are no rows at all.
pub fn select_root(records: &Vec<Info>) -> (root: i32)
    ensures
        records@.len() == 0 ==> root == 0,
        records@.len() > 0 ==> is_least_parent(records@, root),
{
    if records.len() == 0 {
        return 0;
    }
    let mut root: i32 = records[0].parent_id;
    let mut i: usize = 1;
    while i < records.len()
        invariant
            1 <= i <= records.len(),
            exists|j: int| 0 <= j < i && #[trigger] records@[j].parent_id == root,
            forall|j: int| 0 <= j < i ==> root <= #[trigger] records@[j].parent_id,
        decreases records.len() - i,
    {
        if records[i].parent_id < root {
            root = records[i].parent_id;
        }
        i += 1;
    }
    root
}

} // verus!
