use likes::allot::{AllotError, CanisterNodeMapList, CapacityAction, CanisterStateArg, SplitPlan};
use likes::node_id::NodeId;
use likes::slot::{slot, slot_of_checksum, SLOT_MODULUS, SLOT_SIZE};

fn id(b: u8) -> NodeId {
    NodeId::from_slice(&[b, b, 1])
}

fn provisioned(parts: u32) -> CanisterNodeMapList {
    let owner = id(200);
    let mut table = CanisterNodeMapList::with_owner(owner.clone());
    let plan = table.batch_create_canisters(&owner, parts).unwrap();
    for (i, (start, end)) in plan.into_iter().enumerate() {
        table.push_part(id(i as u8), start, end);
    }
    table
}

#[test]
fn slot_of_check_string() {
    // CRC-16/CMS of "123456789" is 0xaee7.
    assert_eq!(slot("123456789"), 0xaee7);
    assert!(slot("u1") < SLOT_MODULUS);
}

#[test]
fn slot_modulus_skips_last_slot() {
    assert_eq!(slot_of_checksum(65535), 0);
    assert_eq!(slot_of_checksum(65534), 65534);
    assert_eq!(slot_of_checksum(0), 0);
    assert_eq!(SLOT_SIZE, 65536);
}

#[test]
fn bulk_provision_four_parts() {
    let table = provisioned(4);
    let list = table.allot_canister_list();
    let ranges: Vec<(u32, u32)> = list.iter().map(|e| (e.start_node, e.end_node)).collect();
    assert_eq!(ranges, vec![(0, 16383), (16384, 32767), (32768, 49151), (49152, 65535)]);
    for i in 0..4 {
        for j in 0..4 {
            if i != j {
                assert!(list[i].canister_id != list[j].canister_id);
            }
        }
    }
}

#[test]
fn bulk_provision_last_part_takes_remainder() {
    let owner = id(9);
    let table = CanisterNodeMapList::with_owner(owner.clone());
    let plan = table.batch_create_canisters(&owner, 3).unwrap();
    assert_eq!(plan, vec![(0, 21844), (21845, 43689), (43690, 65535)]);
    let one = table.batch_create_canisters(&owner, 1).unwrap();
    assert_eq!(one, vec![(0, 65535)]);
    let all = table.batch_create_canisters(&owner, 65536).unwrap();
    assert_eq!(all.len(), 65536);
    assert_eq!(all[65535], (65535, 65535));
}

#[test]
fn bulk_provision_rejections() {
    let owner = id(9);
    let table = CanisterNodeMapList::with_owner(owner.clone());
    assert_eq!(table.batch_create_canisters(&id(8), 4), Err(AllotError::NotOwner));
    assert_eq!(table.batch_create_canisters(&owner, 0), Err(AllotError::InvalidParts));
    assert_eq!(table.batch_create_canisters(&owner, 65537), Err(AllotError::InvalidParts));
    let mut full = CanisterNodeMapList::with_owner(owner.clone());
    full.push_part(id(1), 0, 65535);
    assert_eq!(full.batch_create_canisters(&owner, 4), Err(AllotError::AlreadyProvisioned));
    assert_eq!(full.batch_create_canisters(&id(8), 4), Err(AllotError::NotOwner));
}

#[test]
fn route_picks_owning_range() {
    let table = provisioned(4);
    let s = slot("u1");
    let expected = id((s / 16384) as u8);
    assert_eq!(table.get_correlation_canister("u1"), expected);
    assert_eq!(table.route_slot(0), id(0));
    assert_eq!(table.route_slot(16384), id(1));
    assert_eq!(table.route_slot(65535), id(3));
}

#[test]
fn route_on_empty_table_is_null() {
    let table = CanisterNodeMapList::new();
    assert!(table.get_correlation_canister("u1").is_null());
    assert!(table.route_slot(100).is_null());
}

#[test]
fn known_nodes() {
    let table = provisioned(2);
    assert!(table.is_exisr(&id(0)));
    assert!(table.is_exisr(&id(1)));
    assert!(!table.is_exisr(&id(2)));
}

#[test]
fn split_at_midpoint() {
    let mut table = provisioned(4);
    let plan = table.split_plan(&id(0)).unwrap();
    assert_eq!(plan, SplitPlan { start_node: 0, mid_node: 8192, end_node: 16383 });
    let target = table.commit_split(&id(0), id(50), plan).unwrap();
    assert_eq!(target.canister_id, id(50));
    assert_eq!((target.start_node, target.end_node), (8193, 16383));
    let list = table.allot_canister_list();
    assert_eq!(list.len(), 5);
    assert_eq!((list[0].start_node, list[0].end_node), (0, 8192));
    assert_eq!(list[0].canister_id, id(0));
    assert_eq!((list[4].start_node, list[4].end_node), (8193, 16383));
    assert_eq!(table.route_slot(8192), id(0));
    assert_eq!(table.route_slot(8193), id(50));
    assert_eq!(table.route_slot(16383), id(50));
    assert_eq!(table.route_slot(16384), id(1));
}

#[test]
fn split_rejections() {
    let mut table = provisioned(4);
    assert_eq!(table.split_plan(&id(77)), Err(AllotError::UnknownNode));
    let plan = table.split_plan(&id(1)).unwrap();
    let stale = SplitPlan { start_node: 0, mid_node: 5, end_node: 10 };
    assert_eq!(table.commit_split(&id(1), id(60), stale).err(), Some(AllotError::StaleRange));
    assert_eq!(table.commit_split(&id(77), id(60), plan).err(), Some(AllotError::UnknownNode));
    assert_eq!(table.allot_canister_list().len(), 4);

    let owner = id(9);
    let mut small = CanisterNodeMapList::with_owner(owner);
    small.push_part(id(1), 10, 11);
    assert_eq!(small.split_plan(&id(1)), Err(AllotError::RangeTooSmall));
    small.push_part(id(2), 20, 22);
    assert_eq!(
        small.split_plan(&id(2)),
        Ok(SplitPlan { start_node: 20, mid_node: 21, end_node: 22 })
    );
}

#[test]
fn split_twice_keeps_routing_total() {
    let mut table = provisioned(2);
    let p = table.split_plan(&id(1)).unwrap();
    table.commit_split(&id(1), id(10), p).unwrap();
    let p = table.split_plan(&id(10)).unwrap();
    table.commit_split(&id(10), id(11), p).unwrap();
    let list = table.allot_canister_list();
    let mut ranges: Vec<(u32, u32)> = list.iter().map(|e| (e.start_node, e.end_node)).collect();
    ranges.sort();
    assert_eq!(ranges[0].0, 0);
    for w in ranges.windows(2) {
        assert_eq!(w[0].1 + 1, w[1].0);
    }
    assert_eq!(ranges.last().unwrap().1, 65535);
    for s in [0u32, 32767, 32768, 49152, 49153, 57345, 65535] {
        assert!(!table.route_slot(s).is_null());
    }
}

#[test]
fn capacity_reports() {
    let table = provisioned(4);
    let full = CanisterStateArg { canister_id: id(2), is_full: true };
    let calm = CanisterStateArg { canister_id: id(2), is_full: false };
    assert_eq!(table.expand_memory(&id(2), &calm), Ok(CapacityAction::Ignore));
    assert_eq!(
        table.expand_memory(&id(2), &full),
        Ok(CapacityAction::Split(SplitPlan { start_node: 32768, mid_node: 40960, end_node: 49151 }))
    );
    assert_eq!(table.expand_memory(&id(99), &full), Err(AllotError::UnknownNode));
    let stranger = CanisterStateArg { canister_id: id(99), is_full: true };
    assert_eq!(table.expand_memory(&id(2), &stranger), Err(AllotError::UnknownNode));
}

#[test]
fn node_ids() {
    assert!(NodeId::null().is_null());
    assert!(!id(1).is_null());
    assert!(id(1).same_as(&id(1)));
    assert!(!id(1).same_as(&id(2)));
    assert!(!id(1).same_as(&NodeId::from_slice(&[1, 1])));
    assert_eq!(id(3).duplicate(), id(3));
}
