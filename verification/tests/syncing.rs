use render_graph::cull::cull_shard_plan;
use render_graph::present::{
    classify_acquire, classify_present, classify_wait, AcquireFramebuffer, FrameError, ImageIndex,
    PresentFramebuffer, DEVICE_ERROR_DEVICE_LOST, DEVICE_ERROR_OUT_OF_DATE,
    DEVICE_ERROR_OUT_OF_DEVICE_MEMORY, DEVICE_ERROR_OUT_OF_HOST_MEMORY, DEVICE_SUBOPTIMAL,
    DEVICE_SUCCESS, DEVICE_TIMEOUT,
};
use render_graph::sync::{FrameSync, ReclaimQueue};

#[test]
fn slot_is_never_recordable_before_observed_completion() {
    let mut sync = FrameSync::new(2);
    assert!(sync.can_record(0));
    assert!(sync.can_record(1));
    let signal = sync.submit(0);
    assert_eq!(signal, 1);
    assert!(!sync.can_record(0));
    assert!(sync.can_record(1));
    // observing an unrelated value does not release the slot
    sync.observe(0);
    assert!(!sync.can_record(0));
    sync.observe(1);
    assert!(sync.can_record(0));
}

#[test]
fn observe_releases_only_covered_slots() {
    let mut sync = FrameSync::new(2);
    let s0 = sync.submit(0);
    let s1 = sync.submit(1);
    assert_eq!((s0, s1), (1, 2));
    assert_eq!(sync.wait_target(0), 1);
    assert_eq!(sync.wait_target(1), 2);
    sync.observe(1);
    assert!(sync.can_record(0));
    assert!(!sync.can_record(1));
    sync.observe(2);
    assert!(sync.can_record(1));
}

#[test]
fn frames_rotate_through_slots() {
    let sync = FrameSync::new(3);
    assert_eq!(sync.slot_count(), 3);
    assert_eq!(sync.slot_of_frame(0), 0);
    assert_eq!(sync.slot_of_frame(4), 1);
    assert_eq!(sync.slot_of_frame(11), 2);
}

#[test]
fn reclaim_queue_frees_exactly_the_covered_handles() {
    let mut q = ReclaimQueue::new();
    q.defer(5, 101);
    q.defer(9, 102);
    q.defer(5, 103);
    assert_eq!(q.drain(6), vec![101, 103]);
    assert_eq!(q.drain(8), Vec::<u64>::new());
    assert_eq!(q.drain(9), vec![102]);
}

#[test]
fn acquire_plan_waits_and_bumps() {
    let plan = AcquireFramebuffer::plan(2, true, 10);
    assert_eq!(plan.wait_value, Some(31));
    assert_eq!(plan.bump_to, Some(32));
    let plan2 = AcquireFramebuffer::plan(2, false, 40);
    assert_eq!(plan2.wait_value, None);
    assert_eq!(plan2.bump_to, None);
    let plan3 = AcquireFramebuffer::plan(0, true, 0);
    assert_eq!(plan3.wait_value, Some(0));
    assert_eq!(plan3.bump_to, None);
}

#[test]
fn present_waits_for_render_complete_stage() {
    assert_eq!(PresentFramebuffer::wait_value(0), 15);
    assert_eq!(PresentFramebuffer::wait_value(2), 47);
}

#[test]
fn device_codes_classify_into_the_taxonomy() {
    assert_eq!(classify_acquire(DEVICE_SUCCESS, 1), Ok(ImageIndex(1)));
    assert_eq!(classify_acquire(DEVICE_SUBOPTIMAL, 2), Ok(ImageIndex(2)));
    assert_eq!(
        classify_acquire(DEVICE_ERROR_OUT_OF_DATE, 0),
        Err(FrameError::SwapchainOutOfDate)
    );
    assert_eq!(classify_present(DEVICE_ERROR_DEVICE_LOST), Err(FrameError::DeviceLost));
    assert_eq!(
        classify_present(DEVICE_ERROR_OUT_OF_HOST_MEMORY),
        Err(FrameError::AllocationFailure)
    );
    assert_eq!(
        classify_present(DEVICE_ERROR_OUT_OF_DEVICE_MEMORY),
        Err(FrameError::AllocationFailure)
    );
    assert_eq!(classify_wait(DEVICE_TIMEOUT), Err(FrameError::FenceWaitTimeout));
    assert_eq!(classify_wait(DEVICE_SUCCESS), Ok(()));
    // an unrecognized code is treated as a lost device
    assert_eq!(classify_present(-777), Err(FrameError::DeviceLost));
}

#[test]
fn default_image_index_is_zero() {
    let ix = ImageIndex::default();
    assert_eq!(ix, ImageIndex(0));
}

#[test]
fn cull_work_shards_evenly_with_integration() {
    let plan = cull_shard_plan(3000, 4);
    assert_eq!(plan.parallel, 4);
    assert_eq!(plan.chunk, 750);
    assert_eq!(plan.shards, vec![(0, 750), (750, 750), (1500, 750), (2250, 750)]);
    assert!(plan.integrate);
}

#[test]
fn small_cull_work_stays_on_one_queue() {
    let plan = cull_shard_plan(100, 4);
    assert_eq!(plan.parallel, 1);
    assert_eq!(plan.chunk, 100);
    assert_eq!(plan.shards, vec![(0, 100)]);
    assert!(!plan.integrate);
}

#[test]
fn cull_parallelism_is_capped() {
    let plan = cull_shard_plan(600 * 10, 4);
    assert_eq!(plan.parallel, 4);
    let plan2 = cull_shard_plan(1200, 4);
    assert_eq!(plan2.parallel, 2);
    assert_eq!(plan2.chunk, 600);
}
