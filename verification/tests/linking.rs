use hld::identity::FileIdentity;
use hld::link::LinkAction;
use hld::link::merge_group_model;
use hld::link::plan_group;
use hld::link::plan_link;

fn id(dev: u64, ino: u64) -> FileIdentity {
    FileIdentity { dev, ino }
}

#[test]
fn same_identity_needs_no_action() {
    assert_eq!(plan_link(&id(1, 7), &id(1, 7)), LinkAction::AlreadyLinked);
}

#[test]
fn same_device_different_identity_links() {
    assert_eq!(plan_link(&id(1, 7), &id(1, 8)), LinkAction::MakeLink);
}

#[test]
fn cross_device_never_links() {
    assert_eq!(plan_link(&id(1, 7), &id(2, 7)), LinkAction::CrossDevice);
    assert_eq!(plan_link(&id(1, 7), &id(2, 8)), LinkAction::CrossDevice);
}

#[test]
fn group_plan_judges_each_candidate() {
    let ids = vec![id(1, 7), id(1, 7), id(1, 8), id(2, 9)];
    let acts = plan_group(&ids);
    assert_eq!(
        acts,
        vec![LinkAction::AlreadyLinked, LinkAction::MakeLink, LinkAction::CrossDevice]
    );
}

#[test]
fn same_device_members_share_identity_after_merge() {
    let ids = vec![id(1, 7), id(1, 8), id(2, 9)];
    let post = merge_group_model(&ids);
    assert_eq!(post[0], id(1, 7));
    assert_eq!(post[1], id(1, 7));
    assert_eq!(post[2], id(2, 9));
}

#[test]
fn second_run_performs_no_further_links() {
    let ids = vec![id(1, 7), id(1, 7), id(1, 8), id(2, 9), id(3, 7)];
    let post = merge_group_model(&ids);
    let acts = plan_group(&post);
    for a in acts {
        assert_ne!(a, LinkAction::MakeLink);
    }
}

#[test]
fn merge_is_idempotent() {
    let ids = vec![id(1, 7), id(1, 8), id(2, 9)];
    let once = merge_group_model(&ids);
    let twice = merge_group_model(&once);
    assert_eq!(once, twice);
}

#[test]
fn same_device_compares_devices_only() {
    let a = id(1, 2);
    assert!(a.same_device(&id(1, 9)));
    assert!(!a.same_device(&id(2, 2)));
}
