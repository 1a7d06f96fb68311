use vstd::prelude::*;
use std::collections::BTreeMap;
use crate::error::{MergeError, decimal};

verus! {

/// What the merge reads of a superblock of the pool.
#[derive(Debug)]
pub struct Superblock {
    pub version: u32,
    pub time: u32,
    pub transaction_id: u64,
    /// Where the metadata snapshot lies; 0 where the pool holds none.
    pub metadata_snap: u64,
    pub data_sm_root: Vec<u8>,
    pub mapping_root: u64,
    pub details_root: u64,
    pub data_block_size: u32,
}

/// The details record of a device.
#[derive(Clone, Copy, Debug, PartialEq, Eq, Structural)]
pub struct DeviceDetail {
    pub mapped_blocks: u64,
    pub transaction_id: u64,
    pub creation_time: u32,
    pub snapshotted_time: u32,
}

/// The superblock of the output, as the writer takes it.
#[derive(Debug, PartialEq, Eq)]
pub struct OutputSuperblock {
    pub uuid: String,
    pub time: u32,
    pub transaction: u64,
    pub flags: Option<u32>,
    pub version: Option<u32>,
    pub data_block_size: u32,
    pub nr_data_blocks: u64,
    pub metadata_snap: Option<u64>,
}

/// The device of the output, as the writer takes it.
#[derive(Clone, Copy, Debug, PartialEq, Eq, Structural)]
pub struct OutputDevice {
    pub dev_id: u32,
    pub mapped_blocks: u64,
    pub transaction: u64,
    pub creation_time: u32,
    pub snap_time: u32,
}

/// The root of the details tree of the output, decoded.
#[derive(Debug)]
pub enum DetailsNode {
    Internal,
    Leaf { values: Vec<DeviceDetail> },
}

/// What is to be written.
#[derive(Clone, Copy, Debug, PartialEq, Eq, Structural)]
pub enum Plan {
    /// The mappings of the one tree at `root`, as they are.
    Dump { device: OutputDevice, root: u64 },
    /// The mappings of the tree at `overlay_root` laid over those of the
    /// tree at `base_root`.
    Merge { device: OutputDevice, base_root: u64, overlay_root: u64 },
}

/// How the engines of a run are opened.
#[derive(Clone, Copy, Debug, PartialEq, Eq, Structural)]
pub struct OpenModes {
    /// The input is opened for this run alone.
    pub input_exclusive: bool,
    /// The output is written synchronously.
    pub output_sync: bool,
}

/// How the engines are opened: the input exclusively unless the metadata
/// snapshot is read, which a live pool may hold; the output for
/// synchronous writes, so that the details are patched after the restore.
pub fn open_modes(use_metadata_snap: bool) -> (r: OpenModes)
    ensures
        r == (OpenModes { input_exclusive: !use_metadata_snap, output_sync: true }),
{
    OpenModes { input_exclusive: !use_metadata_snap, output_sync: true }
}

/// The place of the metadata snapshot that the superblock names, or the
/// error where the pool holds none.
pub fn metadata_snap_location(sb: &Superblock) -> (r: Result<u64, MergeError>)
    ensures
        sb.metadata_snap == 0 ==> r == Err::<u64, MergeError>(MergeError::NoMetadataSnap),
        sb.metadata_snap != 0 ==> r == Ok::<u64, MergeError>(sb.metadata_snap),
{
    if sb.metadata_snap == 0 {
        Err(MergeError::NoMetadataSnap)
    } else {
        Ok(sb.metadata_snap)
    }
}

/// The superblock of the metadata snapshot with the root of the data space
/// map of the pool's superblock `actual`: the snapshot carries no valid
/// one.
pub fn patch_superblock_snap(actual: &Superblock, snap: Superblock) -> (r: Superblock)
    ensures
        r.data_sm_root@ == actual.data_sm_root@,
        r.version == snap.version,
        r.time == snap.time,
        r.transaction_id == snap.transaction_id,
        r.metadata_snap == snap.metadata_snap,
        r.mapping_root == snap.mapping_root,
        r.details_root == snap.details_root,
        r.data_block_size == snap.data_block_size,
{
    let mut patched = snap;
    patched.data_sm_root = actual.data_sm_root.clone();
    patched
}

/// The mapping root and the details of the device `dev_id`, or the error
/// that names the tree which lacks it, the mapping tree first.
pub fn get_device_root_and_details(
    dev_id: u64,
    roots: &BTreeMap<u64, u64>,
    details: &BTreeMap<u64, DeviceDetail>,
) -> (r: Result<(u64, DeviceDetail), MergeError>)
    ensures
        r == found_device(dev_id, roots@, details@),
{
    broadcast use vstd::std_specs::btree::group_btree_axioms;

    let root: u64 = match roots.get(&dev_id) {
        Some(root) => *root,
        None => {
            return Err(MergeError::NoMappingTree(dev_id));
        },
    };
    match details.get(&dev_id) {
        Some(detail) => Ok((root, *detail)),
        None => Err(MergeError::NoDetails(dev_id)),
    }
}

/// What is found of the device `dev_id` in the two top-level trees: its
/// root and details, or the tree that lacks it, the mapping tree first.
pub open spec fn found_device(
    dev_id: u64,
    roots: Map<u64, u64>,
    details: Map<u64, DeviceDetail>,
) -> Result<(u64, DeviceDetail), MergeError> {
    if !roots.contains_key(dev_id) {
        Err(MergeError::NoMappingTree(dev_id))
    } else if !details.contains_key(dev_id) {
        Err(MergeError::NoDetails(dev_id))
    } else {
        Ok((roots[dev_id], details[dev_id]))
    }
}

/// The superblock of the output for the superblock `sb` of the input and
/// the number of data blocks that its data space map has.
pub fn build_output_superblock(sb: &Superblock, nr_data_blocks: u64) -> (r: OutputSuperblock)
    ensures
        r.uuid@ == Seq::<char>::empty(),
        r.time == sb.time,
        r.transaction == sb.transaction_id,
        r.flags is None,
        r.version == Some(sb.version),
        r.data_block_size == sb.data_block_size,
        r.nr_data_blocks == nr_data_blocks,
        r.metadata_snap is None,
{
    OutputSuperblock {
        uuid: String::new(),
        time: sb.time,
        transaction: sb.transaction_id,
        flags: None,
        version: Some(sb.version),
        data_block_size: sb.data_block_size,
        nr_data_blocks,
        metadata_snap: None,
    }
}

/// The device of the output for the device `dev_id` with the details
/// `details`.
pub open spec fn output_device(dev_id: u64, details: DeviceDetail) -> OutputDevice {
    OutputDevice {
        dev_id: dev_id as u32,
        mapped_blocks: details.mapped_blocks,
        transaction: details.transaction_id,
        creation_time: details.creation_time,
        snap_time: details.snapshotted_time,
    }
}

/// The device of the output: the details of the device that is kept,
/// under the low 32 bits of its id.
pub fn build_output_device(dev_id: u64, details: &DeviceDetail) -> (r: OutputDevice)
    ensures
        r == output_device(dev_id, *details),
{
    OutputDevice {
        dev_id: #[verifier::truncate]
        (dev_id as u32),
        mapped_blocks: details.mapped_blocks,
        transaction: details.transaction_id,
        creation_time: details.creation_time,
        snap_time: details.snapshotted_time,
    }
}

/// What is to be written for the origin `origin_id`, the snapshot
/// `snap_id` and the mode.
///
/// Without a snapshot the origin is dumped. With one, the output device
/// is the snapshot in rebase mode and the origin else; where both have
/// the same mapping tree that tree is dumped, and else the two are merged:
/// the snapshot over the origin, and in rebase mode the origin over the
/// snapshot. A device that is not found is an error, the origin first.
pub open spec fn planned(
    origin_id: u64,
    snap_id: Option<u64>,
    rebase: bool,
    roots: Map<u64, u64>,
    details: Map<u64, DeviceDetail>,
) -> Result<Plan, MergeError> {
    match found_device(origin_id, roots, details) {
        Err(e) => Err(e),
        Ok((origin_root, origin_details)) => match snap_id {
            None => Ok(
                Plan::Dump { device: output_device(origin_id, origin_details), root: origin_root },
            ),
            Some(snap_id) => match found_device(snap_id, roots, details) {
                Err(e) => Err(e),
                Ok((snap_root, snap_details)) => {
                    let device = if rebase {
                        output_device(snap_id, snap_details)
                    } else {
                        output_device(origin_id, origin_details)
                    };
                    if origin_root == snap_root {
                        Ok(Plan::Dump { device, root: origin_root })
                    } else if rebase {
                        Ok(Plan::Merge { device, base_root: snap_root, overlay_root: origin_root })
                    } else {
                        Ok(Plan::Merge { device, base_root: origin_root, overlay_root: snap_root })
                    }
                },
            },
        },
    }
}

/// Decides what is to be written.
pub fn plan_merge(
    origin_id: u64,
    snap_id: Option<u64>,
    rebase: bool,
    roots: &BTreeMap<u64, u64>,
    details: &BTreeMap<u64, DeviceDetail>,
) -> (r: Result<Plan, MergeError>)
    ensures
        r == planned(origin_id, snap_id, rebase, roots@, details@),
{
    let (origin_root, origin_details) = match get_device_root_and_details(
        origin_id,
        roots,
        details,
    ) {
        Ok(found) => found,
        Err(e) => {
            return Err(e);
        },
    };
    match snap_id {
        Some(snap_id) => {
            let (snap_root, snap_details) = match get_device_root_and_details(
                snap_id,
                roots,
                details,
            ) {
                Ok(found) => found,
                Err(e) => {
                    return Err(e);
                },
            };
            let device = if rebase {
                build_output_device(snap_id, &snap_details)
            } else {
                build_output_device(origin_id, &origin_details)
            };
            if origin_root == snap_root {
                Ok(Plan::Dump { device, root: origin_root })
            } else if rebase {
                Ok(Plan::Merge { device, base_root: snap_root, overlay_root: origin_root })
            } else {
                Ok(Plan::Merge { device, base_root: origin_root, overlay_root: snap_root })
            }
        },
        None => {
            let device = build_output_device(origin_id, &origin_details);
            Ok(Plan::Dump { device, root: origin_root })
        },
    }
}

/// Writes the number of mapped blocks into the one record of the details
/// leaf of the output.
pub fn update_device_details(node: &mut DetailsNode, mapped_blocks: u64) -> (r: Result<
    (),
    MergeError,
>)
    requires
        (*old(node)) is Leaf ==> (*old(node))->values@.len() > 0,
    ensures
        (*old(node)) is Internal ==> (*final(node)) is Internal && r == Err::<(), MergeError>(
            MergeError::UnexpectedNodeType,
        ),
        (*old(node)) is Leaf ==> (*final(node)) is Leaf && r == Ok::<(), MergeError>(())
            && (*final(node))->values@ == (*old(node))->values@.update(
            0,
            DeviceDetail { mapped_blocks, ..(*old(node))->values@[0] },
        ),
{
    match node {
        DetailsNode::Leaf { values } => {
            let first = values[0];
            values.set(0, DeviceDetail { mapped_blocks, ..first });
            Ok(())
        },
        DetailsNode::Internal => Err(MergeError::UnexpectedNodeType),
    }
}

/// A device that is missing is reported in one line, whichever of the two
/// trees lacks it.
pub proof fn lemma_missing_device_message(
    dev_id: u64,
    roots: Map<u64, u64>,
    details: Map<u64, DeviceDetail>,
)
    ensures
        found_device(dev_id, roots, details) matches Err(e) ==> e.message_text()
            == "Unable to find mapping tree for the device "@ + decimal(dev_id as nat),
        found_device(dev_id, roots, details) is Err <==> !roots.contains_key(dev_id)
            || !details.contains_key(dev_id),
{
}

} // verus!
