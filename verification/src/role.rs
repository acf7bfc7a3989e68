use vstd::prelude::*;

verus! {

/// One role row.
#[derive(Debug, PartialEq, Eq)]
pub struct Role {
    pub id: i32,
    pub name: String,
    pub sign: String,
    pub status: i32,
}

/// A role together with the ids of the menus it grants.
#[derive(Debug)]
pub struct InfoWithMenuIds {
    pub info: Role,
    pub menu_ids: Vec<i32>,
}

impl From<Role> for InfoWithMenuIds {
    /// The role with no menu ids yet.
    fn from(data: Role) -> (out: InfoWithMenuIds)
        ensures
            out.info == data,
            out.menu_ids@.len() == 0,
    {
        InfoWithMenuIds { info: data, menu_ids: Vec::new() }
    }
}

/// An empty `Vec` has no value in specifications, so the result of `from` is
/// stated on `from` itself.
impl vstd::std_specs::convert::FromSpecImpl<Role> for InfoWithMenuIds {
    open spec fn obeys_from_spec() -> bool {
        false
    }

    open spec fn from_spec(v: Role) -> InfoWithMenuIds {
        arbitrary()
    }
}

/// The role that stands in the way of `id` taking a sign: the role `found`
/// under that sign, when an id is given and the role found is another one.
pub open spec fn sign_holder(found: Option<Role>, id: Option<i32>) -> Option<Role> {
    if id is Some && found is Some && found->Some_0.id != id->Some_0 {
        found
    } else {
        None
    }
}

/// Decides whether a sign is taken by another role. `found` is the role that
/// carries the sign, if any; `id` is the role asking for it. The role found is
/// returned when `id` is given and differs from its id; in every other case
/// nothing is returned.
pub fn get_by_sign(found: Option<Role>, id: Option<i32>) -> (holder: Option<Role>)
    ensures
        holder == sign_holder(found, id),
{
    match (id, found) {
        (Some(id), Some(role)) => {
            if role.id != id {
                Some(role)
            } else {
                None
            }
        },
        _ => None,
    }
}

} // verus!
