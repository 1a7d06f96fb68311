use std::collections::BTreeMap;
use thin_merge::error::MergeError;
use thin_merge::metadata::{
    build_output_device, build_output_superblock, get_device_root_and_details,
    metadata_snap_location, open_modes, patch_superblock_snap, plan_merge,
    update_device_details, DetailsNode, DeviceDetail, OpenModes, OutputDevice, OutputSuperblock,
    Plan, Superblock,
};

fn detail(mapped_blocks: u64) -> DeviceDetail {
    DeviceDetail {
        mapped_blocks,
        transaction_id: 0,
        creation_time: 0,
        snapshotted_time: 1,
    }
}

fn device(dev_id: u32, mapped_blocks: u64) -> OutputDevice {
    OutputDevice {
        dev_id,
        mapped_blocks,
        transaction: 0,
        creation_time: 0,
        snap_time: 1,
    }
}

// The devices 10 and 20, empty, and 30, with 24 mapped blocks; 40 is a
// snapshot that shares the tree of 30, and 50 has a tree but no details.
fn pool() -> (BTreeMap<u64, u64>, BTreeMap<u64, DeviceDetail>) {
    let roots = BTreeMap::from([(10, 101), (20, 102), (30, 103), (40, 103), (50, 105)]);
    let details = BTreeMap::from([
        (10, detail(0)),
        (20, detail(0)),
        (30, detail(24)),
        (40, detail(24)),
        (60, detail(1)),
    ]);
    (roots, details)
}

fn superblock() -> Superblock {
    Superblock {
        version: 2,
        time: 2,
        transaction_id: 3,
        metadata_snap: 0,
        data_sm_root: vec![1; 128],
        mapping_root: 7,
        details_root: 8,
        data_block_size: 128,
    }
}

#[test]
fn a_device_is_found_by_its_id() {
    let (roots, details) = pool();
    assert_eq!(
        get_device_root_and_details(30, &roots, &details),
        Ok((103, detail(24)))
    );
}

#[test]
fn a_device_without_a_mapping_tree() {
    let (roots, details) = pool();
    let e = get_device_root_and_details(60, &roots, &details).unwrap_err();
    assert_eq!(e, MergeError::NoMappingTree(60));
    assert_eq!(
        e.message(),
        "Unable to find mapping tree for the device 60"
    );
    // in neither tree: the mapping tree is looked at first
    assert_eq!(
        get_device_root_and_details(70, &roots, &details),
        Err(MergeError::NoMappingTree(70))
    );
}

#[test]
fn a_device_without_details() {
    let (roots, details) = pool();
    let e = get_device_root_and_details(50, &roots, &details).unwrap_err();
    assert_eq!(e, MergeError::NoDetails(50));
    // a device that is missing from either tree is reported in the same words
    assert_eq!(e.message(), "Unable to find mapping tree for the device 50");
}

#[test]
fn a_device_with_a_mapping_tree_alone() {
    let roots = BTreeMap::from([(7, 100)]);
    let details = BTreeMap::new();
    let e = get_device_root_and_details(7, &roots, &details).unwrap_err();
    assert_eq!(e.message(), "Unable to find mapping tree for the device 7");
    let e = plan_merge(7, None, false, &roots, &details).unwrap_err();
    assert_eq!(e.message(), "Unable to find mapping tree for the device 7");
}

#[test]
fn device_ids_are_written_in_decimal() {
    assert_eq!(
        MergeError::NoMappingTree(0).message(),
        "Unable to find mapping tree for the device 0"
    );
    assert_eq!(
        MergeError::NoMappingTree(u64::MAX).message(),
        "Unable to find mapping tree for the device 18446744073709551615"
    );
    assert_eq!(
        MergeError::NoDetails(1009).message(),
        "Unable to find mapping tree for the device 1009"
    );
}

#[test]
fn without_a_snapshot_the_origin_is_dumped() {
    let (roots, details) = pool();
    assert_eq!(
        plan_merge(30, None, false, &roots, &details),
        Ok(Plan::Dump {
            device: device(30, 24),
            root: 103
        })
    );
    // rebase means nothing without a snapshot
    assert_eq!(
        plan_merge(30, None, true, &roots, &details),
        Ok(Plan::Dump {
            device: device(30, 24),
            root: 103
        })
    );
}

#[test]
fn a_merge_keeps_the_origin_and_lays_the_snapshot_over_it() {
    let (roots, details) = pool();
    assert_eq!(
        plan_merge(30, Some(20), false, &roots, &details),
        Ok(Plan::Merge {
            device: device(30, 24),
            base_root: 103,
            overlay_root: 102
        })
    );
    assert_eq!(
        plan_merge(20, Some(30), false, &roots, &details),
        Ok(Plan::Merge {
            device: device(20, 0),
            base_root: 102,
            overlay_root: 103
        })
    );
}

#[test]
fn a_rebase_keeps_the_snapshot_and_lays_the_origin_over_it() {
    let (roots, details) = pool();
    assert_eq!(
        plan_merge(30, Some(20), true, &roots, &details),
        Ok(Plan::Merge {
            device: device(20, 0),
            base_root: 102,
            overlay_root: 103
        })
    );
}

#[test]
fn devices_with_one_tree_are_dumped() {
    let (roots, details) = pool();
    assert_eq!(
        plan_merge(30, Some(40), false, &roots, &details),
        Ok(Plan::Dump {
            device: device(30, 24),
            root: 103
        })
    );
    assert_eq!(
        plan_merge(30, Some(40), true, &roots, &details),
        Ok(Plan::Dump {
            device: device(40, 24),
            root: 103
        })
    );
    // a device with itself
    assert_eq!(
        plan_merge(10, Some(10), false, &roots, &details),
        Ok(Plan::Dump {
            device: device(10, 0),
            root: 101
        })
    );
}

#[test]
fn a_missing_device_fails_the_plan() {
    let (roots, details) = pool();
    assert_eq!(
        plan_merge(70, Some(30), false, &roots, &details),
        Err(MergeError::NoMappingTree(70))
    );
    assert_eq!(
        plan_merge(30, Some(70), false, &roots, &details),
        Err(MergeError::NoMappingTree(70))
    );
    assert_eq!(
        plan_merge(30, Some(50), true, &roots, &details),
        Err(MergeError::NoDetails(50))
    );
    // the origin is looked up first
    assert_eq!(
        plan_merge(50, Some(70), false, &roots, &details),
        Err(MergeError::NoDetails(50))
    );
    assert_eq!(
        plan_merge(70, None, false, &roots, &details),
        Err(MergeError::NoMappingTree(70))
    );
}

#[test]
fn the_output_device_has_the_details_of_the_kept_device() {
    let details = DeviceDetail {
        mapped_blocks: 24,
        transaction_id: 5,
        creation_time: 6,
        snapshotted_time: 7,
    };
    assert_eq!(
        build_output_device(30, &details),
        OutputDevice {
            dev_id: 30,
            mapped_blocks: 24,
            transaction: 5,
            creation_time: 6,
            snap_time: 7,
        }
    );
    // the id is cut to 32 bits
    assert_eq!(build_output_device((1 << 32) + 9, &details).dev_id, 9);
}

#[test]
fn the_output_superblock_is_built_from_the_input() {
    assert_eq!(
        build_output_superblock(&superblock(), 16384),
        OutputSuperblock {
            uuid: String::new(),
            time: 2,
            transaction: 3,
            flags: None,
            version: Some(2),
            data_block_size: 128,
            nr_data_blocks: 16384,
            metadata_snap: None,
        }
    );
}

#[test]
fn no_current_metadata_snap() {
    let sb = superblock();
    assert_eq!(metadata_snap_location(&sb), Err(MergeError::NoMetadataSnap));
    assert_eq!(
        MergeError::NoMetadataSnap.message(),
        "no current metadata snap"
    );
    let sb = Superblock {
        metadata_snap: 99,
        ..superblock()
    };
    assert_eq!(metadata_snap_location(&sb), Ok(99));
}

#[test]
fn the_snapshot_superblock_gets_the_data_space_map_root() {
    let actual = Superblock {
        metadata_snap: 99,
        ..superblock()
    };
    let snap = Superblock {
        version: 2,
        time: 1,
        transaction_id: 2,
        metadata_snap: 0,
        data_sm_root: vec![0; 128],
        mapping_root: 17,
        details_root: 18,
        data_block_size: 128,
    };
    let patched = patch_superblock_snap(&actual, snap);
    assert_eq!(patched.data_sm_root, vec![1; 128]);
    assert_eq!(patched.time, 1);
    assert_eq!(patched.transaction_id, 2);
    assert_eq!(patched.metadata_snap, 0);
    assert_eq!(patched.mapping_root, 17);
    assert_eq!(patched.details_root, 18);
    assert_eq!(patched.version, 2);
    assert_eq!(patched.data_block_size, 128);
}

#[test]
fn the_mapped_blocks_are_written_into_the_details_leaf() {
    let mut node = DetailsNode::Leaf {
        values: vec![
            DeviceDetail {
                mapped_blocks: 0,
                transaction_id: 5,
                creation_time: 6,
                snapshotted_time: 7,
            },
            detail(3),
        ],
    };
    assert_eq!(update_device_details(&mut node, 24), Ok(()));
    match node {
        DetailsNode::Leaf { values } => assert_eq!(
            values,
            vec![
                DeviceDetail {
                    mapped_blocks: 24,
                    transaction_id: 5,
                    creation_time: 6,
                    snapshotted_time: 7,
                },
                detail(3),
            ]
        ),
        DetailsNode::Internal => panic!("the node is a leaf"),
    }
}

#[test]
fn unexpected_node_type() {
    let mut node = DetailsNode::Internal;
    let e = update_device_details(&mut node, 24).unwrap_err();
    assert_eq!(e, MergeError::UnexpectedNodeType);
    assert_eq!(e.message(), "unexpected node type");
}

#[test]
fn the_input_is_exclusive_unless_the_metadata_snapshot_is_read() {
    assert_eq!(
        open_modes(false),
        OpenModes {
            input_exclusive: true,
            output_sync: true
        }
    );
    assert_eq!(
        open_modes(true),
        OpenModes {
            input_exclusive: false,
            output_sync: true
        }
    );
}
