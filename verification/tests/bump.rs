use vello::bump::{next_readback_step, BumpAllocators, ReadbackQueue, ReadbackStep, Reallocation};

const LIMIT: u64 = 128 * 1024 * 1024;

fn sizes() -> BumpAllocators {
    BumpAllocators {
        failed: 0,
        binning: 100,
        ptcl: 100,
        tile: 100,
        seg_counts: 100,
        segments: 100,
        blend_spill: 100,
        lines: 100,
    }
}

#[test]
fn a_frame_that_did_not_fail_changes_nothing() {
    let mut current = sizes();
    let mut report = sizes();
    report.ptcl = 1000;
    assert_eq!(current.reallocate(&report, LIMIT), Reallocation::Sufficient);
    assert_eq!(current, sizes());
}

#[test]
fn a_retried_frame_changes_nothing() {
    let mut current = sizes();
    let mut report = sizes();
    report.failed = 0x20 | 0x1;
    report.ptcl = 1000;
    assert_eq!(current.reallocate(&report, LIMIT), Reallocation::RetryPending);
    assert_eq!(current, sizes());
}

#[test]
fn only_the_buffers_that_ran_out_grow() {
    let mut current = sizes();
    let mut report = sizes();
    report.failed = 1;
    report.ptcl = 1000;
    report.lines = 400;
    report.tile = 50;
    assert_eq!(current.reallocate(&report, LIMIT), Reallocation::Grown);
    let mut expected = sizes();
    expected.ptcl = 1250;
    expected.lines = 500;
    assert_eq!(current, expected);
}

#[test]
fn a_failure_with_nothing_exceeded_grows_nothing() {
    let mut current = sizes();
    let mut report = sizes();
    report.failed = 2;
    assert_eq!(current.reallocate(&report, LIMIT), Reallocation::NothingToGrow);
    assert_eq!(current, sizes());
}

#[test]
fn sixteen_byte_buffers_clamp_sooner() {
    let mut current = sizes();
    let mut report = sizes();
    report.failed = 1;
    report.segments = u32::MAX / 8;
    report.blend_spill = u32::MAX / 8;
    current.reallocate(&report, LIMIT);
    assert_eq!(current.segments, (LIMIT / 16) as u32);
    assert_eq!(current.blend_spill, (LIMIT / 4) as u32);
}

#[test]
fn words_are_read_in_layout_order() {
    let counts = BumpAllocators::from_words([1, 2, 3, 4, 5, 6, 7, 8]);
    assert_eq!(
        counts,
        BumpAllocators {
            failed: 1,
            binning: 2,
            ptcl: 3,
            tile: 4,
            seg_counts: 5,
            segments: 6,
            blend_spill: 7,
            lines: 8,
        }
    );
}

#[test]
fn mapped_bytes_are_read_as_native_words() {
    let mut bytes = Vec::new();
    for word in [9u32, 10, 11, 12, 13, 14, 15, 0x0102_0304] {
        bytes.extend_from_slice(&word.to_ne_bytes());
    }
    let counts = BumpAllocators::from_mapped_bytes(&bytes);
    assert_eq!(counts, BumpAllocators::from_words([9, 10, 11, 12, 13, 14, 15, 0x0102_0304]));
}

#[test]
fn a_readback_is_examined_two_frames_later() {
    let mut queue: ReadbackQueue<u32> = ReadbackQueue::new();
    assert_eq!(queue.take_oldest(), None);
    queue.advance(Some(1));
    assert_eq!(queue.take_oldest(), None);
    queue.advance(Some(2));
    assert_eq!(queue.take_oldest(), Some(1));
    queue.advance(None);
    assert_eq!(queue.take_oldest(), Some(2));
    queue.advance(Some(4));
    assert_eq!(queue.take_oldest(), None);
    queue.advance(Some(5));
    assert_eq!(queue.take_oldest(), Some(4));
}

#[test]
fn a_completed_readback_is_read_without_waiting() {
    assert_eq!(next_readback_step(true, false), ReadbackStep::Read);
    assert_eq!(next_readback_step(true, true), ReadbackStep::Read);
}

#[test]
fn an_incomplete_readback_is_waited_for_once_then_skipped() {
    assert_eq!(next_readback_step(false, false), ReadbackStep::Wait);
    assert_eq!(next_readback_step(false, true), ReadbackStep::Skip);
}
