use thin_merge::error::MergeError;
use thin_merge::mapping::BlockTime;
use thin_merge::mapping_iterator::Leaf;
use thin_merge::stream::MappingStream;

fn bt(block: u64, time: u32) -> BlockTime {
    BlockTime { block, time }
}

fn leaf(entries: &[(u64, u64, u32)]) -> Leaf {
    Leaf {
        entries: entries.iter().map(|(k, b, t)| (*k, bt(*b, *t))).collect(),
    }
}

// A stream over one leaf with the runs (10, 100, 5) and (20, 7, 2).
fn two_runs() -> MappingStream {
    let mut s = MappingStream::new(vec![3], 4);
    assert_eq!(s.wanted(), &[3]);
    s.supply(vec![leaf(&[
        (10, 100, 1),
        (11, 101, 1),
        (12, 102, 1),
        (13, 103, 1),
        (14, 104, 1),
        (20, 7, 1),
        (21, 8, 1),
    ])])
    .unwrap();
    s
}

#[test]
fn a_new_stream_is_pending_until_supplied() {
    let mut s = MappingStream::new(vec![3], 4);
    assert!(!s.more_mappings());
    assert_eq!(s.get_mapping(), None);
    assert_eq!(s.wanted(), &[3]);
    // without a head nothing is handed out
    assert_eq!(s.consume(1), Ok(None));
    assert_eq!(s.consume_all(), Ok(None));
    assert_eq!(s.skip(1), Ok(()));
    assert_eq!(s.skip_all(), Ok(()));
    assert_eq!(s.wanted(), &[3]);
    s.supply(vec![leaf(&[(1, 2, 3)])]).unwrap();
    assert!(s.more_mappings());
    assert_eq!(s.get_mapping(), Some(&(1, bt(2, 3), 1)));
    assert!(s.wanted().is_empty());
}

#[test]
fn a_stream_over_no_leaves_is_used_up() {
    let mut s = MappingStream::new(Vec::new(), 4);
    assert!(!s.more_mappings());
    assert!(s.wanted().is_empty());
    assert_eq!(s.consume_all(), Ok(None));
}

#[test]
fn consume_bites_a_piece_off_the_head() {
    let mut s = two_runs();
    assert_eq!(s.get_mapping(), Some(&(10, bt(100, 1), 5)));
    assert_eq!(s.consume(2), Ok(Some((10, bt(100, 1), 2))));
    assert_eq!(s.get_mapping(), Some(&(12, bt(102, 1), 3)));
    assert_eq!(s.consume(1), Ok(Some((12, bt(102, 1), 1))));
    assert_eq!(s.get_mapping(), Some(&(13, bt(103, 1), 2)));
    // the whole of what is left: the head gives way to the next run
    assert_eq!(s.consume(2), Ok(Some((13, bt(103, 1), 2))));
    assert_eq!(s.get_mapping(), Some(&(20, bt(7, 1), 2)));
    assert_eq!(s.consume_all(), Ok(Some((20, bt(7, 1), 2))));
    assert!(!s.more_mappings());
    assert!(s.wanted().is_empty());
    assert_eq!(s.consume_all(), Ok(None));
}

#[test]
fn skip_moves_on_without_handing_out() {
    let mut s = two_runs();
    assert_eq!(s.skip(4), Ok(()));
    assert_eq!(s.get_mapping(), Some(&(14, bt(104, 1), 1)));
    assert_eq!(s.skip(1), Ok(()));
    assert_eq!(s.get_mapping(), Some(&(20, bt(7, 1), 2)));
    assert_eq!(s.skip_all(), Ok(()));
    assert_eq!(s.get_mapping(), None);
    assert_eq!(s.skip_all(), Ok(()));
}

#[test]
fn delta_too_large() {
    let mut s = two_runs();
    assert_eq!(s.consume(6), Err(MergeError::DeltaTooLarge));
    assert_eq!(s.skip(6), Err(MergeError::DeltaTooLarge));
    // the head is as it was
    assert_eq!(s.get_mapping(), Some(&(10, bt(100, 1), 5)));
    assert_eq!(MergeError::DeltaTooLarge.message(), "delta too large");
}

#[test]
fn consumed_and_skipped_lengths_add_up_to_the_mapped_blocks() {
    let mut s = two_runs();
    let mut taken = 0;
    let mut turn = 0;
    while let Some(&(_, _, len)) = s.get_mapping() {
        let delta = std::cmp::min(len, 1 + turn % 3);
        if turn % 2 == 0 {
            let piece = s.consume(delta).unwrap().unwrap();
            assert_eq!(piece.2, delta);
        } else {
            s.skip(delta).unwrap();
        }
        taken += delta;
        turn += 1;
    }
    assert_eq!(taken, 7);
}

#[test]
fn the_head_is_pending_across_batches() {
    let mut s = MappingStream::new(vec![0, 1, 2], 1);
    s.supply(vec![leaf(&[(0, 0, 0)])]).unwrap();
    // the run may go on in the next leaf
    assert!(!s.more_mappings());
    assert_eq!(s.wanted(), &[1]);
    s.supply(vec![leaf(&[(1, 1, 0), (5, 5, 0)])]).unwrap();
    assert_eq!(s.get_mapping(), Some(&(0, bt(0, 0), 2)));
    assert!(s.wanted().is_empty());
    assert_eq!(s.consume_all(), Ok(Some((0, bt(0, 0), 2))));
    assert!(!s.more_mappings());
    assert_eq!(s.wanted(), &[2]);
    s.supply(vec![leaf(&[])]).unwrap();
    assert_eq!(s.get_mapping(), Some(&(5, bt(5, 0), 1)));
    assert_eq!(s.consume_all(), Ok(Some((5, bt(5, 0), 1))));
    assert!(!s.more_mappings());
    assert!(s.wanted().is_empty());
}

#[test]
fn an_overflow_in_the_iterator_leaves_the_head() {
    let mut s = MappingStream::new(vec![0], 1);
    s.supply(vec![leaf(&[(1, 1, 0), (u64::MAX, 5, 0), (0, 0, 0)])])
        .unwrap();
    assert_eq!(s.get_mapping(), Some(&(1, bt(1, 0), 1)));
    assert_eq!(s.consume_all(), Err(MergeError::Overflow));
    assert_eq!(s.get_mapping(), Some(&(1, bt(1, 0), 1)));
}
