use vstd::prelude::*;
use crate::forest_laws::distinct_ids;
use crate::record::Info;
use crate::tree::{build_forest, forest_of, nodes, Dept};

verus! {

/// Why a set of rows is refused.
#[derive(Debug, Clone, Copy, PartialEq, Eq, Structural)]
pub enum TreeError {
    /// Two rows carry the same id; `id` is the first id that comes a second
    /// time.
    InvalidInput { id: i32 },
}

/// Row `j` is the first row whose id an earlier row carries already.
pub open spec fn first_repeat(records: Seq<Info>, j: int) -> bool {
    &&& 0 <= j < records.len()
    &&& distinct_ids(records.take(j))
    &&& exists|i: int| 0 <= i < j && #[trigger] records[i].id == records[j].id
}

/// Checks that no two rows share an id. On failure the error names the id of
/// the first row that repeats an earlier one.
pub fn check_distinct_ids(records: &Vec<Info>) -> (checked: Result<(), TreeError>)
    ensures
        checked is Ok <==> distinct_ids(records@),
        checked matches Err(TreeError::InvalidInput { id }) ==> exists|j: int|
            first_repeat(records@, j) && #[trigger] records@[j].id == id,
{
    let mut j: usize = 0;
    assert(records@.take(0) =~= Seq::<Info>::empty());
    while j < records.len()
        invariant
            j <= records.len(),
            distinct_ids(records@.take(j as int)),
        decreases records.len() - j,
    {
        let id = records[j].id;
        let mut i: usize = 0;
        while i < j
            invariant
                i <= j < records.len(),
                id == records@[j as int].id,
                distinct_ids(records@.take(j as int)),
                forall|x: int| 0 <= x < i ==> #[trigger] records@[x].id != id,
            decreases j - i,
        {
            if records[i].id == id {
                proof {
                    assert(first_repeat(records@, j as int));
                    assert(records@[i as int].id == records@[j as int].id);
                    assert(!distinct_ids(records@));
                }
                return Err(TreeError::InvalidInput { id });
            }
            i += 1;
        }
        proof {
            let longer = records@.take(j + 1);
            let shorter = records@.take(j as int);
            assert forall|a: int, b: int| 0 <= a < b < longer.len() implies #[trigger] longer[a].id
                != #[trigger] longer[b].id by {
                if b < j {
                    assert(shorter[a].id != shorter[b].id);
                } else {
                    assert(records@[a].id != id);
                }
            }
        }
        j += 1;
    }
    assert(records@.take(records@.len() as int) =~= records@);
    Ok(())
}

/// Builds the forest as `build_forest` does, after refusing rows that share
/// an id.
pub fn try_build_forest(records: &Vec<Info>, root_parent_id: i32) -> (built: Result<
    Vec<Dept>,
    TreeError,
>)
    ensures
        built is Ok <==> distinct_ids(records@),
        built matches Ok(forest) ==> nodes(forest@) == forest_of(records@, root_parent_id),
        built matches Err(TreeError::InvalidInput { id }) ==> exists|j: int|
            first_repeat(records@, j) && #[trigger] records@[j].id == id,
{
    match check_distinct_ids(records) {
        Ok(()) => Ok(build_forest(records, root_parent_id)),
        Err(e) => Err(e),
    }
}

} // verus!
