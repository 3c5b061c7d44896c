use content::{resolve_resource, ResourceScope, StorageCommand};

#[test]
fn resolve_resource_accepts_exactly_one_scope() {
    let id = 0x5eed_u128;
    assert!(matches!(
        resolve_resource(Some(id), None, false),
        Ok(ResourceScope::Specific(specific_id)) if specific_id == id
    ));
    assert!(matches!(
        resolve_resource(None, Some(id), false),
        Ok(ResourceScope::ManagedByGroup(group_id)) if group_id == id
    ));
    assert!(matches!(resolve_resource::<u128>(None, None, true), Ok(ResourceScope::Global)));
}

#[test]
fn resolve_resource_rejects_ambiguous_or_empty_scope() {
    let id = 0x5eed_u128;
    assert!(resolve_resource::<u128>(None, None, false).is_err());
    assert!(resolve_resource(Some(id), Some(id), false).is_err());
    assert!(resolve_resource(Some(id), None, true).is_err());
}

#[test]
fn ambiguous_scope_message_names_the_options() {
    let err = resolve_resource(Some(1u64), Some(2u64), true).unwrap_err();
    assert!(err.message().contains("--resource-group-id"));
}

#[test]
fn storage_commands_compare_by_value() {
    assert_eq!(StorageCommand::Revert { target: 0 }, StorageCommand::Revert { target: 0 });
    assert_ne!(StorageCommand::Migrate, StorageCommand::Revert { target: 3 });
}
