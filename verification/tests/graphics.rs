use wren_engine::graphics::{
    device_type_rank, first_suitable, reserve_renderable_slot, select_device, AcquireAction,
    AcquireStatus, DeviceKind, FrameStart, PresentAction, PresentStatus, SwapchainState,
};

#[test]
fn renderable_slots_are_reused() {
    let mut pool: Vec<Option<u32>> = vec![];
    assert_eq!(reserve_renderable_slot(&mut pool), 0);
    assert_eq!(pool, vec![None]);
    pool[0] = Some(7);
    assert_eq!(reserve_renderable_slot(&mut pool), 1);
    pool[1] = Some(8);
    pool[0] = None;
    assert_eq!(reserve_renderable_slot(&mut pool), 0);
    assert_eq!(pool, vec![None, Some(8)]);
}

#[test]
fn device_preference() {
    assert_eq!(device_type_rank(DeviceKind::DiscreteGpu), 0);
    assert_eq!(device_type_rank(DeviceKind::Unknown), 5);
    assert_eq!(select_device(&vec![]), None);
    assert_eq!(
        select_device(&vec![DeviceKind::Cpu, DeviceKind::IntegratedGpu, DeviceKind::IntegratedGpu]),
        Some(1)
    );
    assert_eq!(
        select_device(&vec![DeviceKind::Other, DeviceKind::VirtualGpu, DeviceKind::DiscreteGpu]),
        Some(2)
    );
}

#[test]
fn queue_family_choice() {
    assert_eq!(first_suitable(&vec![false, true, true]), Some(1));
    assert_eq!(first_suitable(&vec![false, false]), None);
}

#[test]
fn swapchain_recreation() {
    let mut s = SwapchainState::new();
    assert_eq!(s.begin_frame([800, 600]), FrameStart::Draw);
    s.on_resized();
    assert_eq!(s.begin_frame([0, 600]), FrameStart::Skip);
    assert!(s.recreate_swapchain);
    assert_eq!(s.begin_frame([800, 600]), FrameStart::RecreateThenDraw);
    assert_eq!(s.begin_frame([800, 600]), FrameStart::Draw);
    assert_eq!(s.after_acquire(AcquireStatus::Acquired { suboptimal: true }), AcquireAction::Draw);
    assert!(s.recreate_swapchain);
    let mut s = SwapchainState::new();
    assert_eq!(s.after_acquire(AcquireStatus::OutOfDate), AcquireAction::Abandon);
    assert!(s.recreate_swapchain);
    let mut s = SwapchainState::new();
    assert_eq!(s.after_acquire(AcquireStatus::Failed), AcquireAction::Fatal);
    assert_eq!(s.after_present(PresentStatus::Presented), PresentAction::Wait);
    assert!(!s.recreate_swapchain);
    assert_eq!(s.after_present(PresentStatus::Failed), PresentAction::Report);
    assert_eq!(s.after_present(PresentStatus::OutOfDate), PresentAction::Recreate);
    assert!(s.recreate_swapchain);
}
