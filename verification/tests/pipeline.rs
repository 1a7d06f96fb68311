use thin_merge::error::MergeError;
use thin_merge::mapping::BlockTime;
use thin_merge::mapping_iterator::Leaf;
use thin_merge::merge::Side;
use thin_merge::pipeline::{
    count_mapped, pack_run, Action, Producer, Run, RunBuffer, BUFFER_LEN, QUEUE_DEPTH,
    WRITE_BATCH_SIZE,
};

fn bt(block: u64, time: u32) -> BlockTime {
    BlockTime { block, time }
}

fn run(thin_begin: u64, data_begin: u64, time: u32, len: u64) -> Run {
    Run {
        thin_begin,
        data_begin,
        time,
        len,
    }
}

// A leaf of `n` entries from the key `begin` on, no two of which coalesce.
fn scattered(begin: u64, n: u64) -> Leaf {
    Leaf {
        entries: (0..n)
            .map(|i| (begin + i, bt((begin + i).wrapping_mul(2), 0)))
            .collect(),
    }
}

#[test]
fn sizes_of_the_pipeline() {
    assert_eq!(QUEUE_DEPTH, 4);
    assert_eq!(BUFFER_LEN, 1024);
    assert_eq!(WRITE_BATCH_SIZE, 32);
}

#[test]
fn a_run_is_packed_field_by_field() {
    assert_eq!(pack_run((274, bt(8440, 3), 17)), run(274, 8440, 3, 17));
}

#[test]
fn a_batch_is_handed_out_when_it_is_full() {
    let mut buffer = RunBuffer::new();
    for i in 0..BUFFER_LEN as u64 - 1 {
        assert_eq!(buffer.push((i, bt(i, 0), 1)), None);
    }
    let batch = buffer.push((5000, bt(1, 2), 3)).unwrap();
    assert_eq!(batch.len(), BUFFER_LEN);
    assert_eq!(batch[0], run(0, 0, 0, 1));
    assert_eq!(batch[BUFFER_LEN - 1], run(5000, 1, 2, 3));
    // a new batch has begun
    assert_eq!(buffer.push((1, bt(1, 1), 1)), None);
    assert_eq!(buffer.flush(), Some(vec![run(1, 1, 1, 1)]));
    assert_eq!(buffer.flush(), None);
}

#[test]
fn an_empty_batch_is_not_handed_out() {
    let mut buffer = RunBuffer::new();
    assert_eq!(buffer.flush(), None);
}

#[test]
fn mapped_blocks_are_the_sum_of_the_lengths() {
    let runs = vec![run(274, 8440, 0, 17), run(485, 15480, 0, 7)];
    assert_eq!(count_mapped(0, &runs), Ok(24));
    assert_eq!(count_mapped(100, &runs), Ok(124));
    assert_eq!(count_mapped(5, &Vec::new()), Ok(5));
    // batch by batch, or all at once
    let first = count_mapped(0, &runs[..1].to_vec()).unwrap();
    assert_eq!(count_mapped(first, &runs[1..].to_vec()), Ok(24));
}

#[test]
fn mapped_blocks_overflow() {
    let runs = vec![run(0, 0, 0, u64::MAX), run(0, 0, 0, 1)];
    assert_eq!(count_mapped(0, &runs), Err(MergeError::Overflow));
    assert_eq!(count_mapped(1, &runs[..1].to_vec()), Err(MergeError::Overflow));
    assert_eq!(count_mapped(0, &runs[..1].to_vec()), Ok(u64::MAX));
}

#[test]
fn the_producer_of_a_dump_reads_then_sends() {
    let mut p = Producer::dump_single_device(vec![11, 12], 1);
    assert_eq!(p.poll(), Ok(Action::Read(Side::Base)));
    // polling again asks again
    assert_eq!(p.poll(), Ok(Action::Read(Side::Base)));
    assert_eq!(p.wanted(Side::Base), &[11]);
    assert!(p.wanted(Side::Overlay).is_empty());
    p.supply(Side::Base, vec![scattered(0, 2)]).unwrap();
    assert_eq!(p.poll(), Ok(Action::Continue)); // the run at key 0
    assert_eq!(p.poll(), Ok(Action::Continue)); // the run at key 1 is open
    assert_eq!(p.poll(), Ok(Action::Read(Side::Base)));
    assert_eq!(p.wanted(Side::Base), &[12]);
    p.supply(Side::Base, vec![scattered(2, 1)]).unwrap();
    assert_eq!(p.poll(), Ok(Action::Continue)); // the run at key 1
    assert_eq!(p.poll(), Ok(Action::Continue)); // the run at key 2
    assert_eq!(
        p.poll(),
        Ok(Action::Send(vec![
            run(0, 0, 0, 1),
            run(1, 2, 0, 1),
            run(2, 4, 0, 1)
        ]))
    );
    assert_eq!(p.poll(), Ok(Action::Done));
    assert_eq!(p.poll(), Ok(Action::Done));
}

#[test]
fn the_producer_sends_full_batches_and_the_rest() {
    let n = 2 * BUFFER_LEN as u64 + 10;
    let mut p = Producer::dump_single_device(vec![0], 64);
    let mut sent = Vec::new();
    loop {
        match p.poll().unwrap() {
            Action::Read(side) => {
                assert_eq!(side, Side::Base);
                p.supply(side, vec![scattered(0, n)]).unwrap();
            }
            Action::Send(batch) => sent.push(batch),
            Action::Continue => {}
            Action::Done => break,
        }
    }
    let sizes: Vec<usize> = sent.iter().map(|b| b.len()).collect();
    assert_eq!(sizes, vec![BUFFER_LEN, BUFFER_LEN, 10]);
    let all: Vec<Run> = sent.into_iter().flatten().collect();
    let expected: Vec<Run> = (0..n).map(|i| run(i, 2 * i, 0, 1)).collect();
    assert_eq!(all, expected);
}

#[test]
fn the_producer_of_a_merge_reads_both_sides() {
    let mut p = Producer::merge(vec![1], vec![2], 8);
    assert_eq!(p.poll(), Ok(Action::Read(Side::Base)));
    p.supply(Side::Base, vec![scattered(0, 1)]).unwrap();
    assert_eq!(p.poll(), Ok(Action::Read(Side::Overlay)));
    assert_eq!(p.wanted(Side::Overlay), &[2]);
    p.supply(
        Side::Overlay,
        vec![Leaf {
            entries: vec![(0, bt(77, 1))],
        }],
    )
    .unwrap();
    assert_eq!(p.poll(), Ok(Action::Continue)); // the base run is dropped
    assert_eq!(p.poll(), Ok(Action::Continue)); // the overlay run goes into the batch
    assert_eq!(p.poll(), Ok(Action::Send(vec![run(0, 77, 1, 1)])));
    assert_eq!(p.poll(), Ok(Action::Done));
}

#[test]
fn the_producer_of_nothing_is_done_at_once() {
    let mut p = Producer::merge(vec![1], vec![2], 8);
    p.supply(Side::Base, vec![scattered(0, 0)]).unwrap();
    p.supply(Side::Overlay, vec![scattered(0, 0)]).unwrap();
    assert_eq!(p.poll(), Ok(Action::Done));
}

#[test]
fn the_producer_hands_on_an_error_of_the_merge() {
    let mut p = Producer::merge(vec![1], vec![2], 8);
    p.supply(Side::Base, vec![scattered(0, 1)]).unwrap();
    p.supply(Side::Overlay, vec![scattered(u64::MAX, 1)]).unwrap();
    assert_eq!(p.poll(), Err(MergeError::Overflow));
    assert_eq!(
        MergeError::Overflow.message(),
        "arithmetic overflow in the metadata"
    );
}
