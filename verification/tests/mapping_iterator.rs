use thin_merge::error::MergeError;
use thin_merge::mapping::{BlockTime, Mapping};
use thin_merge::mapping_iterator::{Leaf, MappingIterator, Pull};

fn bt(block: u64, time: u32) -> BlockTime {
    BlockTime { block, time }
}

fn leaf(entries: &[(u64, u64, u32)]) -> Leaf {
    Leaf {
        entries: entries.iter().map(|(k, b, t)| (*k, bt(*b, *t))).collect(),
    }
}

// Hands the iterator the leaves that it asks for and collects its runs,
// together with the batches of addresses that it asked for.
fn run_all(
    addresses: Vec<u64>,
    leaves: &[Leaf],
    batch_size: usize,
) -> Result<(Vec<Mapping>, Vec<Vec<u64>>), MergeError> {
    let first = addresses.first().copied().unwrap_or(0);
    let mut iter = MappingIterator::new(addresses, batch_size);
    let mut runs = Vec::new();
    let mut asked = Vec::new();
    loop {
        match iter.next_range()? {
            Pull::Run(m) => runs.push(m),
            Pull::Starved => {
                let blocks = iter.wanted().to_vec();
                assert!(!blocks.is_empty());
                let batch = blocks
                    .iter()
                    .map(|b| Leaf {
                        entries: leaves[(b - first) as usize].entries.clone(),
                    })
                    .collect();
                asked.push(blocks);
                iter.supply(batch);
            }
            Pull::End => return Ok((runs, asked)),
        }
    }
}

#[test]
fn runs_are_coalesced_by_key_block_and_time() {
    let leaves = [leaf(&[
        (0, 100, 1),
        (1, 101, 1),
        (2, 102, 1),
        (3, 200, 1), // the data block is not the next one
        (4, 201, 2), // the time differs
        (6, 203, 2), // the key is not the next one
        (7, 204, 2),
    ])];
    let (runs, _) = run_all(vec![5], &leaves, 8).unwrap();
    assert_eq!(
        runs,
        vec![
            (0, bt(100, 1), 3),
            (3, bt(200, 1), 1),
            (4, bt(201, 2), 1),
            (6, bt(203, 2), 2),
        ]
    );
}

#[test]
fn runs_cross_leaves_and_batches() {
    let leaves = [
        leaf(&[(10, 50, 0), (11, 51, 0)]),
        leaf(&[(12, 52, 0)]),
        leaf(&[(13, 53, 0), (14, 54, 0), (20, 0, 0)]),
        leaf(&[(21, 1, 0)]),
        leaf(&[(22, 2, 0)]),
    ];
    for batch_size in 1..=6 {
        let (runs, asked) = run_all(vec![30, 31, 32, 33, 34], &leaves, batch_size).unwrap();
        assert_eq!(runs, vec![(10, bt(50, 0), 5), (20, bt(0, 0), 3)]);
        // every leaf is asked for once, in order, `batch_size` at a time
        let all: Vec<u64> = asked.iter().flatten().copied().collect();
        assert_eq!(all, vec![30, 31, 32, 33, 34]);
        for (i, blocks) in asked.iter().enumerate() {
            if i + 1 < asked.len() {
                assert_eq!(blocks.len(), batch_size);
            } else {
                assert!(blocks.len() <= batch_size);
            }
        }
    }
}

#[test]
fn batches_are_asked_for_as_the_cursor_reaches_them() {
    let mut iter = MappingIterator::new(vec![7, 8, 9], 2);
    assert_eq!(iter.wanted(), &[7, 8]);
    assert_eq!(iter.get(), None);
    iter.supply(vec![leaf(&[(1, 1, 0)]), leaf(&[(5, 5, 0)])]);
    assert!(iter.wanted().is_empty());
    assert_eq!(iter.get(), Some((1, &bt(1, 0))));
    iter.step();
    assert_eq!(iter.get(), Some((5, &bt(5, 0))));
    assert!(iter.wanted().is_empty());
    iter.step();
    assert_eq!(iter.get(), None);
    assert_eq!(iter.wanted(), &[9]);
    iter.supply(vec![leaf(&[(6, 6, 0)])]);
    assert_eq!(iter.get(), Some((6, &bt(6, 0))));
    iter.step();
    assert_eq!(iter.get(), None);
    assert!(iter.wanted().is_empty());
    // stepping at the end changes nothing
    iter.step();
    assert_eq!(iter.get(), None);
    assert_eq!(iter.next_range(), Ok(Pull::End));
}

#[test]
fn empty_leaves_are_skipped() {
    let leaves = [
        leaf(&[]),
        leaf(&[(3, 30, 0)]),
        leaf(&[]),
        leaf(&[]),
        leaf(&[(4, 31, 0)]),
        leaf(&[]),
    ];
    for batch_size in 1..=6 {
        let (runs, asked) = run_all(vec![0, 1, 2, 3, 4, 5], &leaves, batch_size).unwrap();
        assert_eq!(runs, vec![(3, bt(30, 0), 2)]);
        assert_eq!(asked.iter().flatten().count(), 6);
    }
}

#[test]
fn a_device_without_mappings_has_no_runs() {
    let (runs, asked) = run_all(vec![42], &[leaf(&[])], 4).unwrap();
    assert!(runs.is_empty());
    assert_eq!(asked, vec![vec![42]]);

    let mut iter = MappingIterator::new(Vec::new(), 4);
    assert!(iter.wanted().is_empty());
    assert_eq!(iter.next_range(), Ok(Pull::End));
}

#[test]
fn an_open_run_is_kept_while_the_iterator_starves() {
    let mut iter = MappingIterator::new(vec![0, 1], 1);
    assert_eq!(iter.next_range(), Ok(Pull::Starved));
    iter.supply(vec![leaf(&[(0, 9, 0), (1, 10, 0)])]);
    // the run may go on in the next leaf
    assert_eq!(iter.next_range(), Ok(Pull::Starved));
    assert_eq!(iter.next_range(), Ok(Pull::Starved));
    iter.supply(vec![leaf(&[(2, 11, 0), (9, 0, 0)])]);
    assert_eq!(iter.next_range(), Ok(Pull::Run((0, bt(9, 0), 3))));
    assert_eq!(iter.next_range(), Ok(Pull::Run((9, bt(0, 0), 1))));
    assert_eq!(iter.next_range(), Ok(Pull::End));
    assert_eq!(iter.next_range(), Ok(Pull::End));
}

#[test]
fn an_entry_after_the_last_key_is_an_overflow() {
    let leaves = [leaf(&[(u64::MAX, 0, 0), (3, 1, 0)])];
    assert_eq!(run_all(vec![0], &leaves, 1), Err(MergeError::Overflow));
    // the last key alone is a run
    let leaves = [leaf(&[(u64::MAX - 1, 0, 0), (u64::MAX, 1, 0)])];
    let (runs, _) = run_all(vec![0], &leaves, 1).unwrap();
    assert_eq!(runs, vec![(u64::MAX - 1, bt(0, 0), 2)]);
}

#[test]
fn an_entry_after_the_last_data_block_is_an_overflow() {
    let leaves = [leaf(&[(0, u64::MAX, 0), (1, 0, 0)])];
    assert_eq!(run_all(vec![0], &leaves, 1), Err(MergeError::Overflow));
}

#[test]
fn no_two_runs_in_a_row_could_be_one() {
    let mut entries = Vec::new();
    let mut seed: u64 = 7;
    let mut key = 0;
    let mut block = 1000;
    for _ in 0..5000 {
        seed = seed.wrapping_mul(6364136223846793005).wrapping_add(1442695040888963407);
        match (seed >> 33) % 4 {
            0 => key += 2,
            1 => block += 3,
            _ => {}
        }
        entries.push((key, block, ((seed >> 40) % 2) as u32));
        key += 1;
        block += 1;
    }
    let leaves: Vec<Leaf> = entries.chunks(100).map(leaf).collect();
    let addresses: Vec<u64> = (0..leaves.len() as u64).collect();
    let (runs, _) = run_all(addresses, &leaves, 16).unwrap();
    assert_eq!(runs.iter().map(|r| r.2).sum::<u64>(), 5000);
    for pair in runs.windows(2) {
        let (a, b) = (pair[0], pair[1]);
        assert!(
            b.0 != a.0 + a.2 || b.1.block != a.1.block + a.2 || b.1.time != a.1.time,
            "{:?} and {:?} are one run",
            a,
            b
        );
    }
    // and the runs hold the entries, one for one
    let mut points = Vec::new();
    for r in &runs {
        for i in 0..r.2 {
            points.push((r.0 + i, r.1.block + i, r.1.time));
        }
    }
    assert_eq!(points, entries);
}
