use vstd::prelude::*;

verus! {

/// One flat row of a hierarchy. Only `id` and `parent_id` drive the tree logic;
/// the other fields travel along untouched.
#[derive(Debug, PartialEq, Eq)]
pub struct Info {
    pub id: i32,
    pub parent_id: i32,
    pub name: String,
    pub status: i32,
    /// Seconds since the epoch at which the row was soft-deleted, if it was.
    pub deleted_at: Option<u64>,
}

impl Clone for Info {
    fn clone(&self) -> (res: Self)
        ensures
            res == *self,
    {
        Info {
            id: self.id,
            parent_id: self.parent_id,
            name: self.name.clone(),
            status: self.status,
            deleted_at: self.deleted_at,
        }
    }
}

impl Info {
    /// The id of the row this one hangs under, or the root marker.
    pub fn get_parent_id(&self) -> (p: i32)
        ensures
            p == self.parent_id,
    {
        self.parent_id
    }

    /// The row's own id.
    pub fn get_id(&self) -> (i: i32)
        ensures
            i == self.id,
    {
        self.id
    }

    /// A row is live while it carries no deletion time.
    pub open spec fn live(&self) -> bool {
        self.deleted_at is None
    }

    /// Whether the row is live.
    pub fn is_live(&self) -> (b: bool)
        ensures
            b == self.live(),
    {
        self.deleted_at.is_none()
    }
}

} // verus!
