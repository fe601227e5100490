use vstd::prelude::*;

verus! {

/// Something the renderer can draw: a list of vertices and the indices of
/// the triangles that connect them.
pub trait Renderable<V> {
    fn get_vertices(&self) -> Vec<V>;

    fn get_indices(&self) -> Vec<u32>;
}

/// Reserves a slot for a new renderable: the first free slot, or a new
/// free slot at the end when every slot is taken. Returns its index.
pub fn reserve_renderable_slot<T>(pool: &mut Vec<Option<T>>) -> (idx: usize)
    requires
        old(pool)@.len() < usize::MAX,
    ensures
        idx <= old(pool)@.len(),
        idx < final(pool)@.len(),
        final(pool)@[idx as int] is None,
        forall|i: int| 0 <= i < idx ==> old(pool)@[i] is Some,
        idx < old(pool)@.len() ==> final(pool)@ == old(pool)@ && old(pool)@[idx as int] is None,
        idx == old(pool)@.len() ==> final(pool)@ == old(pool)@.push(None),
{
    let mut i: usize = 0;
    while i < pool.len()
        invariant
            0 <= i <= pool@.len(),
            pool@ == old(pool)@,
            forall|j: int| 0 <= j < i ==> pool@[j] is Some,
        decreases pool@.len() - i,
    {
        if pool[i].is_none() {
            return i;
        }
        i = i + 1;
    }
    pool.push(None);
    i
}

/// The kind of a physical device, as the renderer ranks them.
#[derive(Clone, Copy, Debug, PartialEq, Eq, Structural)]
pub enum DeviceKind {
    DiscreteGpu,
    IntegratedGpu,
    VirtualGpu,
    Cpu,
    Other,
    Unknown,
}

/// How strongly a kind of device is preferred: lower is better.
pub open spec fn device_rank(k: DeviceKind) -> int {
    match k {
        DeviceKind::DiscreteGpu => 0,
        DeviceKind::IntegratedGpu => 1,
        DeviceKind::VirtualGpu => 2,
        DeviceKind::Cpu => 3,
        DeviceKind::Other => 4,
        DeviceKind::Unknown => 5,
    }
}

/// Devices are preferred in a fixed order: a discrete GPU, then an
/// integrated one, then a virtual one, then a CPU, then any other device,
/// then one of a kind not known; so among two suitable devices of
/// different kinds, the one earlier in that order is chosen.
pub proof fn law_device_preference_order()
    ensures
        device_rank(DeviceKind::DiscreteGpu) < device_rank(DeviceKind::IntegratedGpu),
        device_rank(DeviceKind::IntegratedGpu) < device_rank(DeviceKind::VirtualGpu),
        device_rank(DeviceKind::VirtualGpu) < device_rank(DeviceKind::Cpu),
        device_rank(DeviceKind::Cpu) < device_rank(DeviceKind::Other),
        device_rank(DeviceKind::Other) < device_rank(DeviceKind::Unknown),
{
}

/// Among the candidates, a device of a kind earlier in the preference order
/// always beats one of a later kind: `select_device` never picks the later
/// one while the earlier one is there.
pub proof fn law_select_prefers_earlier_kinds(kinds: Seq<DeviceKind>, i: int, j: int)
    requires
        0 <= i < kinds.len(),
        0 <= j < kinds.len(),
        kinds[i] == DeviceKind::VirtualGpu || kinds[i] == DeviceKind::IntegratedGpu
            || kinds[i] == DeviceKind::DiscreteGpu,
        kinds[j] == DeviceKind::Cpu || kinds[j] == DeviceKind::Other || kinds[j]
            == DeviceKind::Unknown,
    ensures
        !(forall|k: int| 0 <= k < kinds.len() ==> device_rank(kinds[j]) <= device_rank(#[trigger] kinds[k])),
{
    assert(device_rank(kinds[j]) > device_rank(kinds[i]));
}

/// How strongly a kind of device is preferred: lower is better.
pub fn device_type_rank(k: DeviceKind) -> (r: u32)
    ensures
        r == device_rank(k),
{
    match k {
        DeviceKind::DiscreteGpu => 0,
        DeviceKind::IntegratedGpu => 1,
        DeviceKind::VirtualGpu => 2,
        DeviceKind::Cpu => 3,
        DeviceKind::Other => 4,
        DeviceKind::Unknown => 5,
    }
}

/// Picks the device to render with among the suitable ones: the first of
/// the most preferred kind, or none when there is none.
pub fn select_device(kinds: &Vec<DeviceKind>) -> (r: Option<usize>)
    ensures
        kinds@.len() == 0 <==> r is None,
        r matches Some(i) ==> {
            &&& i < kinds@.len()
            &&& forall|j: int| 0 <= j < kinds@.len() ==> device_rank(kinds@[i as int]) <= device_rank(kinds@[j])
            &&& forall|j: int| 0 <= j < i ==> device_rank(kinds@[j]) > device_rank(kinds@[i as int])
        },
{
    if kinds.len() == 0 {
        return None;
    }
    let mut best: usize = 0;
    let mut i: usize = 1;
    while i < kinds.len()
        invariant
            1 <= i <= kinds@.len(),
            best < i,
            forall|j: int| 0 <= j < i ==> device_rank(kinds@[best as int]) <= device_rank(kinds@[j]),
            forall|j: int| 0 <= j < best ==> device_rank(kinds@[j]) > device_rank(kinds@[best as int]),
        decreases kinds@.len() - i,
    {
        if device_type_rank(kinds[i]) < device_type_rank(kinds[best]) {
            best = i;
        }
        i = i + 1;
    }
    Some(best)
}

/// The index of the first `true` in `flags`, if any: the queue family the
/// renderer uses is the first that can do what it needs.
pub fn first_suitable(flags: &Vec<bool>) -> (r: Option<usize>)
    ensures
        r matches Some(i) ==> i < flags@.len() && flags@[i as int] && forall|j: int|
            0 <= j < i ==> !flags@[j],
        r is None ==> forall|j: int| 0 <= j < flags@.len() ==> !flags@[j],
{
    let mut i: usize = 0;
    while i < flags.len()
        invariant
            0 <= i <= flags@.len(),
            forall|j: int| 0 <= j < i ==> !flags@[j],
        decreases flags@.len() - i,
    {
        if flags[i] {
            return Some(i);
        }
        i = i + 1;
    }
    None
}

/// What the renderer does at the start of a frame.
#[derive(Clone, Copy, Debug, PartialEq, Eq, Structural)]
pub enum FrameStart {
    /// The window has no area: nothing is drawn.
    Skip,
    /// The swapchain is recreated for the window's size, then the frame is
    /// drawn.
    RecreateThenDraw,
    /// The frame is drawn.
    Draw,
}

/// How acquiring the next swapchain image went.
#[derive(Clone, Copy, Debug, PartialEq, Eq, Structural)]
pub enum AcquireStatus {
    Acquired { suboptimal: bool },
    OutOfDate,
    Failed,
}

/// What the renderer does after acquiring an image.
#[derive(Clone, Copy, Debug, PartialEq, Eq, Structural)]
pub enum AcquireAction {
    Draw,
    /// Give up on this frame; the swapchain is recreated on the next one.
    Abandon,
    /// The failure cannot be recovered from.
    Fatal,
}

/// How presenting the frame went.
#[derive(Clone, Copy, Debug, PartialEq, Eq, Structural)]
pub enum PresentStatus {
    Presented,
    OutOfDate,
    Failed,
}

/// What the renderer does after presenting a frame.
#[derive(Clone, Copy, Debug, PartialEq, Eq, Structural)]
pub enum PresentAction {
    /// Wait for the frame to finish.
    Wait,
    /// Nothing now; the swapchain is recreated on the next frame.
    Recreate,
    /// Report the failure and go on.
    Report,
}

/// How a frame starts for a window of size `extent` when `recreate` says
/// whether the swapchain must be recreated: the action, and whether it
/// still must be afterwards.
pub open spec fn sp_begin_frame(recreate: bool, extent: Seq<u32>) -> (FrameStart, bool) {
    if extent[0] == 0 || extent[1] == 0 {
        (FrameStart::Skip, recreate)
    } else if recreate {
        (FrameStart::RecreateThenDraw, false)
    } else {
        (FrameStart::Draw, false)
    }
}

/// After a resize, the next frame of a window with an area recreates the
/// swapchain, and the frame after it does not, unless something else
/// happened in between.
pub proof fn law_resize_recreates_once(extent: Seq<u32>)
    requires
        extent.len() == 2,
        extent[0] != 0,
        extent[1] != 0,
    ensures
        sp_begin_frame(true, extent) == (FrameStart::RecreateThenDraw, false),
        sp_begin_frame(sp_begin_frame(true, extent).1, extent) == (FrameStart::Draw, false),
{
}

/// Whether the swapchain must be recreated before the next frame is drawn.
pub struct SwapchainState {
    pub recreate_swapchain: bool,
}

impl SwapchainState {
    pub fn new() -> (s: Self)
        ensures
            !s.recreate_swapchain,
    {
        SwapchainState { recreate_swapchain: false }
    }

    /// The window was resized: the swapchain no longer fits it.
    pub fn on_resized(&mut self)
        ensures
            final(self).recreate_swapchain,
    {
        self.recreate_swapchain = true;
    }

    /// Decides how a frame for a window of size `extent` starts.
    pub fn begin_frame(&mut self, extent: [u32; 2]) -> (a: FrameStart)
        ensures
            (a, final(self).recreate_swapchain) == sp_begin_frame(
                old(self).recreate_swapchain,
                extent@,
            ),
    {
        if extent[0] == 0 || extent[1] == 0 {
            return FrameStart::Skip;
        }
        if self.recreate_swapchain {
            self.recreate_swapchain = false;
            return FrameStart::RecreateThenDraw;
        }
        FrameStart::Draw
    }

    /// Decides what to do once the next image was, or was not, acquired.
    pub fn after_acquire(&mut self, status: AcquireStatus) -> (a: AcquireAction)
        ensures
            a == match status {
                AcquireStatus::Acquired { .. } => AcquireAction::Draw,
                AcquireStatus::OutOfDate => AcquireAction::Abandon,
                AcquireStatus::Failed => AcquireAction::Fatal,
            },
            final(self).recreate_swapchain == match status {
                AcquireStatus::Acquired { suboptimal } => old(self).recreate_swapchain || suboptimal,
                AcquireStatus::OutOfDate => true,
                AcquireStatus::Failed => old(self).recreate_swapchain,
            },
    {
        match status {
            AcquireStatus::Acquired { suboptimal } => {
                if suboptimal {
                    self.recreate_swapchain = true;
                }
                AcquireAction::Draw
            },
            AcquireStatus::OutOfDate => {
                self.recreate_swapchain = true;
                AcquireAction::Abandon
            },
            AcquireStatus::Failed => AcquireAction::Fatal,
        }
    }

    /// Decides what to do once the frame was, or was not, presented.
    pub fn after_present(&mut self, status: PresentStatus) -> (a: PresentAction)
        ensures
            a == match status {
                PresentStatus::Presented => PresentAction::Wait,
                PresentStatus::OutOfDate => PresentAction::Recreate,
                PresentStatus::Failed => PresentAction::Report,
            },
            final(self).recreate_swapchain == (old(self).recreate_swapchain || status
                == PresentStatus::OutOfDate),
    {
        match status {
            PresentStatus::Presented => PresentAction::Wait,
            PresentStatus::OutOfDate => {
                self.recreate_swapchain = true;
                PresentAction::Recreate
            },
            PresentStatus::Failed => PresentAction::Report,
        }
    }
}

} // verus!
