//! Decisions of the administration command line that do not touch the
//! database: the storage sub-commands and the scope of a permission.
use vstd::prelude::*;

verus! {

/// Management of the application database's migrations.
#[derive(Clone, Copy, Debug, PartialEq, Eq, Structural)]
pub enum StorageCommand {
    /// Applies the pending migrations.
    Migrate,
    /// Reverts the applied migrations down to (and excluding) the target
    /// version (0 reverts them all).
    Revert { target: i64 },
}

/// What a permission applies to.
#[derive(Clone, Copy, Debug, PartialEq, Eq)]
pub enum ResourceScope<I> {
    /// One resource.
    Specific(I),
    /// Every resource that the group manages.
    ManagedByGroup(I),
    /// Every resource.
    Global,
}

/// The options of a permission name no scope, or more than one.
#[derive(Clone, Copy, Debug, PartialEq, Eq, Structural)]
pub struct AmbiguousScope;

impl AmbiguousScope {
    /// The message that describes the error to a person.
    pub fn message(&self) -> (s: &'static str)
        ensures
            s@ == "préciser exactement l'un de --resource-id, --resource-group-id ou --global"@,
    {
        "préciser exactement l'un de --resource-id, --resource-group-id ou --global"
    }
}

/// The scope that exactly one of the three options names: a resource, the
/// resources of a group, or all of them; refused when none or several are
/// given.
pub fn resolve_resource<I>(resource_id: Option<I>, resource_group_id: Option<I>, global: bool) -> (r:
    Result<ResourceScope<I>, AmbiguousScope>)
    ensures
        match (resource_id, resource_group_id, global) {
            (Some(id), None, false) => r == Ok::<ResourceScope<I>, AmbiguousScope>(ResourceScope::Specific(id)),
            (None, Some(group_id), false) => r == Ok::<ResourceScope<I>, AmbiguousScope>(
                ResourceScope::ManagedByGroup(group_id),
            ),
            (None, None, true) => r == Ok::<ResourceScope<I>, AmbiguousScope>(ResourceScope::Global),
            _ => r == Err::<ResourceScope<I>, AmbiguousScope>(AmbiguousScope),
        },
{
    match (resource_id, resource_group_id, global) {
        (Some(id), None, false) => Ok(ResourceScope::Specific(id)),
        (None, Some(group_id), false) => Ok(ResourceScope::ManagedByGroup(group_id)),
        (None, None, true) => Ok(ResourceScope::Global),
        _ => Err(AmbiguousScope),
    }
}

} // verus!
