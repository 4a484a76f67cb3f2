//! The device/output pipeline state: GPU device entries, their surfaces,
//! the logical output space, and the protocol globals the surfaces own.
//!
//! All hardware work (opening device nodes, creating kernel surfaces,
//! rendering, timers) happens outside; the pipeline receives the results as
//! plain values, makes every decision, and describes the follow-up actions
//! in its return values.
//!
//! The repaint loop of one surface moves through Idle, PendingTimer,
//! Rendering, and Submitted or Skipped.  Those states live in the caller's
//! reactor and in this state: a `NextStep::Timer` action asks the caller to
//! arm the timer (PendingTimer); the timer firing starts a repaint
//! (`prepare_render`, Rendering); `render_surface` either queues the frame
//! (`queued` becomes `Some`: Submitted) or asks for a re-test timer
//! (Skipped); the completion event (`frame_finish`) takes the queued frame
//! out and re-arms or halts (Idle).

use vstd::prelude::*;

use crate::formats::{
    DrmFormat, DrmSurfaceDmabufFeedback, FeedbackPairView, PlaneSet, PlaneSetView,
    get_surface_dmabuf_feedback,
};
use crate::layout::{
    OutputEntry, OutputEntryView, OutputMode, OutputSpace, is_strip, output_matches,
    outputs_unmapped, spec_total_width, widths_ok,
};
use crate::scan::{ConnectorReport, DrmScanner, ScanEntry, ScanEvent, spec_connect_entries,
    spec_connect_events, spec_disconnect_events, spec_kept_entries};
use crate::schedule::{
    CompletionDecision, PresentationStamp, SwapError, classify_swap_error, presentation_stamp,
    repaint_delay_micros, retry_delay_micros, spec_classify_swap_error, spec_presentation_stamp,
    spec_repaint_delay_micros, spec_retry_delay_micros,
};

verus! {

/// fourcc code of the ABGR8888 pixel format.
pub const FOURCC_ABGR8888: u32 = 0x34324241;

/// fourcc code of the ARGB8888 pixel format.
pub const FOURCC_ARGB8888: u32 = 0x34325241;

/// The composite identity of one driven output, as surfaces and logical
/// outputs are keyed.
#[derive(Clone, Copy, PartialEq, Eq, Structural, Debug)]
pub struct UdevOutputId {
    pub crtc: u64,
    pub device_id: u64,
}

/// A frame queued for submission, carrying its presentation-feedback token
/// when one was attached.
#[derive(Clone, Copy, PartialEq, Eq, Structural, Debug)]
pub struct PendingFrame {
    pub feedback: Option<u64>,
}

/// How one surface composes its frames: either a plain buffered surface
/// with a damage tracker (the software path), or a plane-aware hardware
/// compositor.  The variant is chosen once at creation and never mutated.
pub enum SurfaceComposition {
    Surface {
        /// Handle of the kernel mode-setting surface.
        surface_handle: u64,
        /// The negotiated buffer format.
        format_code: u32,
        /// The fixed format list the buffered surface was created with.
        supported_codes: Vec<u32>,
        /// The frame queued for submission, if any.
        queued: Option<PendingFrame>,
        /// Whether the buffers were reset and the next repaint must redraw
        /// everything.
        needs_full_redraw: bool,
    },
    Compositor {
        surface_handle: u64,
        format_code: u32,
        /// The planes handed to the hardware compositor.
        planes: PlaneSet,
        queued: Option<PendingFrame>,
        needs_full_redraw: bool,
    },
}

/// Mathematical image of a `SurfaceComposition`: a tag plus the fields of
/// whichever variant is live (`planes` is `Some` exactly on the hardware
/// path).
#[verifier::ext_equal]
pub ghost struct CompositionView {
    pub hardware: bool,
    pub surface_handle: u64,
    pub format_code: u32,
    pub supported_codes: Seq<u32>,
    pub planes: Option<PlaneSetView>,
    pub queued: Option<PendingFrame>,
    pub needs_full_redraw: bool,
}

impl View for SurfaceComposition {
    type V = CompositionView;

    open spec fn view(&self) -> CompositionView {
        match self {
            SurfaceComposition::Surface {
                surface_handle,
                format_code,
                supported_codes,
                queued,
                needs_full_redraw,
            } => CompositionView {
                hardware: false,
                surface_handle: *surface_handle,
                format_code: *format_code,
                supported_codes: supported_codes@,
                planes: None,
                queued: *queued,
                needs_full_redraw: *needs_full_redraw,
            },
            SurfaceComposition::Compositor {
                surface_handle,
                format_code,
                planes,
                queued,
                needs_full_redraw,
            } => CompositionView {
                hardware: true,
                surface_handle: *surface_handle,
                format_code: *format_code,
                supported_codes: Seq::empty(),
                planes: Some(planes@),
                queued: *queued,
                needs_full_redraw: *needs_full_redraw,
            },
        }
    }
}

impl SurfaceComposition {
    /// The negotiated buffer format.
    pub fn format(&self) -> (code: u32)
        ensures
            code == self@.format_code,
    {
        match self {
            SurfaceComposition::Surface { format_code, .. } => *format_code,
            SurfaceComposition::Compositor { format_code, .. } => *format_code,
        }
    }

    /// Handle of the kernel mode-setting surface underneath.
    pub fn surface(&self) -> (handle: u64)
        ensures
            handle == self@.surface_handle,
    {
        match self {
            SurfaceComposition::Surface { surface_handle, .. } => *surface_handle,
            SurfaceComposition::Compositor { surface_handle, .. } => *surface_handle,
        }
    }

    /// Record a frame as queued for submission, with its optional
    /// presentation-feedback token.
    pub fn queue_frame(&mut self, user_data: Option<u64>)
        ensures
            final(self)@ == (CompositionView {
                queued: Some(PendingFrame { feedback: user_data }),
                ..old(self)@
            }),
    {
        match self {
            SurfaceComposition::Surface { queued, .. } => {
                *queued = Some(PendingFrame { feedback: user_data });
            },
            SurfaceComposition::Compositor { queued, .. } => {
                *queued = Some(PendingFrame { feedback: user_data });
            },
        }
    }

    /// Take the queued frame out when the kernel reports it submitted;
    /// `None` when no frame was queued.
    pub fn frame_submitted(&mut self) -> (r: Option<PendingFrame>)
        ensures
            r == old(self)@.queued,
            final(self)@ == (CompositionView { queued: None, ..old(self)@ }),
    {
        match self {
            SurfaceComposition::Surface { queued, .. } => queued.take(),
            SurfaceComposition::Compositor { queued, .. } => queued.take(),
        }
    }

    /// Drop the buffer state so the next repaint redraws everything.
    pub fn reset_buffers(&mut self)
        ensures
            final(self)@ == (CompositionView { needs_full_redraw: true, ..old(self)@ }),
    {
        match self {
            SurfaceComposition::Surface { needs_full_redraw, .. } => {
                *needs_full_redraw = true;
            },
            SurfaceComposition::Compositor { needs_full_redraw, .. } => {
                *needs_full_redraw = true;
            },
        }
    }
}

/// One driven output: the surface composition, the owned protocol global,
/// and the negotiated dma-buf feedback.
pub struct SurfaceData {
    /// The controller driving this output; the key of the entry.
    pub crtc: u64,
    /// The mode-setting device the controller belongs to.
    pub device_node: u64,
    /// The GPU this surface's composition renders on.
    pub render_node: u64,
    /// The protocol global exposing the output to clients.  The entry owns
    /// it exclusively: revoking it on teardown is this entry's duty.
    pub id: Option<u64>,
    /// The negotiated feedback pair; absence is valid and means clients get
    /// no tranche hints.
    pub dmabuf_feedback: Option<DrmSurfaceDmabufFeedback>,
    pub compositor: SurfaceComposition,
}

/// Mathematical image of a `SurfaceData`.
#[verifier::ext_equal]
pub ghost struct SurfaceView {
    pub crtc: u64,
    pub device_node: u64,
    pub render_node: u64,
    pub id: Option<u64>,
    pub dmabuf_feedback: Option<FeedbackPairView>,
    pub compositor: CompositionView,
}

impl View for SurfaceData {
    type V = SurfaceView;

    open spec fn view(&self) -> SurfaceView {
        SurfaceView {
            crtc: self.crtc,
            device_node: self.device_node,
            render_node: self.render_node,
            id: self.id,
            dmabuf_feedback: match self.dmabuf_feedback {
                Some(ref f) => Some(f@),
                None => None,
            },
            compositor: self.compositor@,
        }
    }
}

/// One GPU device entry, alive between its hotplug-add and hotplug-remove.
pub struct BackendData {
    /// The device's stable identifier.
    pub node: u64,
    /// Registration handle of the device's event source in the reactor.
    pub token: u64,
    /// The GPU used for accelerated rendering: the device's render node
    /// when one resolves, else the device itself.
    pub render_node: u64,
    /// Connector scan state, diffed on every device-changed event.
    pub scanner: DrmScanner,
    /// The surfaces driven on this device, keyed by controller.
    pub surfaces: Vec<SurfaceData>,
}

/// Mathematical image of a `BackendData`.
#[verifier::ext_equal]
pub ghost struct BackendView {
    pub node: u64,
    pub token: u64,
    pub render_node: u64,
    pub scan: Seq<ScanEntry>,
    pub surfaces: Seq<SurfaceView>,
}

impl View for BackendData {
    type V = BackendView;

    open spec fn view(&self) -> BackendView {
        BackendView {
            node: self.node,
            token: self.token,
            render_node: self.render_node,
            scan: self.scanner@,
            surfaces: self.surfaces@.map_values(|s: SurfaceData| s@),
        }
    }
}

/// Backend-wide state: the primary GPU, the device entries, and the cursor
/// texture cache.
pub struct UdevData {
    /// The GPU every output's composition ultimately presents through.
    pub primary_gpu: u64,
    /// Whether a cross-GPU buffer allocator is available.
    pub has_allocator: bool,
    pub backends: Vec<BackendData>,
    /// Cursor texture cache: cursor image identity to uploaded texture
    /// handle, append-only within a session.
    pub cursor_images: Vec<(u64, u64)>,
}

/// Mathematical image of a `UdevData`.
#[verifier::ext_equal]
pub ghost struct UdevView {
    pub primary_gpu: u64,
    pub has_allocator: bool,
    pub backends: Seq<BackendView>,
    pub cursor_images: Seq<(u64, u64)>,
}

impl View for UdevData {
    type V = UdevView;

    open spec fn view(&self) -> UdevView {
        UdevView {
            primary_gpu: self.primary_gpu,
            has_allocator: self.has_allocator,
            backends: self.backends@.map_values(|b: BackendData| b@),
            cursor_images: self.cursor_images@,
        }
    }
}

/// The compositor pipeline state.
pub struct Corrosion {
    pub backend_data: UdevData,
    /// The logical output space, mutated only on connect/disconnect.
    pub space: OutputSpace,
    /// The process-wide override that forces the buffered-surface path.
    pub disable_hardware_compositor: bool,
    /// The next protocol global identifier to hand out.
    pub next_global: u64,
    /// The protocol globals currently alive.
    pub live_globals: Vec<u64>,
}

/// Mathematical image of the whole pipeline state.
#[verifier::ext_equal]
pub ghost struct CorrosionView {
    pub backend_data: UdevView,
    pub outputs: Seq<OutputEntryView>,
    pub disable_hardware_compositor: bool,
    pub next_global: u64,
    pub live_globals: Seq<u64>,
}

impl View for Corrosion {
    type V = CorrosionView;

    open spec fn view(&self) -> CorrosionView {
        CorrosionView {
            backend_data: self.backend_data@,
            outputs: self.space@,
            disable_hardware_compositor: self.disable_hardware_compositor,
            next_global: self.next_global,
            live_globals: self.live_globals@,
        }
    }
}

/// Per-device well-formedness: at most one surface per controller, and
/// every surface knows its owning device.
pub open spec fn backend_wf(b: BackendView) -> bool {
    &&& forall|i: int, j: int|
        0 <= i < j < b.surfaces.len() ==> (#[trigger] b.surfaces[i]).crtc != (
        #[trigger] b.surfaces[j]).crtc
    &&& forall|i: int| 0 <= i < b.surfaces.len() ==> (#[trigger] b.surfaces[i]).device_node
        == b.node
}

/// Pipeline-wide well-formedness: device entries are keyed uniquely,
/// surfaces are keyed uniquely per device, protocol globals are alive,
/// fresh identifiers stay fresh, each global has exactly one owner, and the
/// output strip arithmetic stays in range.
pub open spec fn wf(v: CorrosionView) -> bool {
    &&& forall|i: int, j: int|
        0 <= i < j < v.backend_data.backends.len() ==> (
        #[trigger] v.backend_data.backends[i]).node != (#[trigger] v.backend_data.backends[j]).node
    &&& forall|i: int|
        0 <= i < v.backend_data.backends.len() ==> backend_wf(#[trigger] v.backend_data.backends[i])
    &&& forall|i: int, j: int|
        0 <= i < j < v.live_globals.len() ==> v.live_globals[i] != v.live_globals[j]
    &&& forall|i: int|
        0 <= i < v.live_globals.len() ==> #[trigger] v.live_globals[i] < v.next_global
    &&& forall|i: int, k: int|
        0 <= i < v.backend_data.backends.len() && 0 <= k
            < v.backend_data.backends[i].surfaces.len() ==> match (
        #[trigger] v.backend_data.backends[i].surfaces[k]).id {
            Some(g) => v.live_globals.contains(g),
            None => true,
        }
    &&& forall|i: int, k: int, i2: int, k2: int|
        0 <= i < v.backend_data.backends.len() && 0 <= k
            < v.backend_data.backends[i].surfaces.len() && 0 <= i2
            < v.backend_data.backends.len() && 0 <= k2
            < v.backend_data.backends[i2].surfaces.len() && !(i == i2 && k == k2) ==> ((
        #[trigger] v.backend_data.backends[i].surfaces[k]).id is Some ==> (
        #[trigger] v.backend_data.backends[i2].surfaces[k2]).id != v.backend_data.backends[i].surfaces[k].id)
    &&& widths_ok(v.outputs)
    &&& forall|i: int, j: int|
        0 <= i < j < v.outputs.len() ==> !((#[trigger] v.outputs[i]).device_id == (
        #[trigger] v.outputs[j]).device_id && v.outputs[i].crtc == v.outputs[j].crtc)
    &&& forall|i: int| 0 <= i < v.outputs.len() ==> (#[trigger] v.outputs[i]).mode.refresh_hz > 0
}

/// Whether a backend entry for `node` exists.
pub open spec fn backend_exists(v: CorrosionView, node: u64) -> bool {
    exists|i: int|
        0 <= i < v.backend_data.backends.len() && (#[trigger] v.backend_data.backends[i]).node
            == node
}

/// Whether a surface entry keyed (`node`, `crtc`) exists.
pub open spec fn surface_exists(v: CorrosionView, node: u64, crtc: u64) -> bool {
    exists|i: int, k: int|
        0 <= i < v.backend_data.backends.len() && (#[trigger] v.backend_data.backends[i]).node
            == node && 0 <= k < v.backend_data.backends[i].surfaces.len() && (
        #[trigger] v.backend_data.backends[i].surfaces[k]).crtc == crtc
}

/// Whether a logical output keyed (`node`, `crtc`) is mapped.
pub open spec fn output_exists(v: CorrosionView, node: u64, crtc: u64) -> bool {
    exists|i: int| 0 <= i < v.outputs.len() && output_matches(#[trigger] v.outputs[i], node, crtc)
}

impl Corrosion {
    /// A pipeline with no devices, no outputs and no globals.
    /// `disable_hardware_compositor` is the process-wide environment
    /// override that forces the buffered-surface composition path.
    pub fn new(primary_gpu: u64, disable_hardware_compositor: bool) -> (r: Corrosion)
        ensures
            wf(r@),
            r@.backend_data.primary_gpu == primary_gpu,
            r@.backend_data.has_allocator == false,
            r@.backend_data.backends =~= Seq::<BackendView>::empty(),
            r@.backend_data.cursor_images =~= Seq::<(u64, u64)>::empty(),
            r@.outputs =~= Seq::<OutputEntryView>::empty(),
            r@.disable_hardware_compositor == disable_hardware_compositor,
            r@.live_globals =~= Seq::<u64>::empty(),
    {
        Corrosion {
            backend_data: UdevData {
                primary_gpu,
                has_allocator: false,
                backends: Vec::new(),
                cursor_images: Vec::new(),
            },
            space: OutputSpace::new(),
            disable_hardware_compositor,
            next_global: 0,
            live_globals: Vec::new(),
        }
    }

    /// Record whether a cross-GPU buffer allocator could be built.
    pub fn set_allocator(&mut self, present: bool)
        ensures
            final(self)@ == (CorrosionView {
                backend_data: UdevView { has_allocator: present, ..old(self)@.backend_data },
                ..old(self)@
            }),
    {
        self.backend_data.has_allocator = present;
    }

    /// Index of the backend entry for `node`.
    fn find_backend(&self, node: u64) -> (r: Option<usize>)
        ensures
            r matches Some(i) ==> 0 <= i < self@.backend_data.backends.len()
                && self@.backend_data.backends[i as int].node == node,
            r is None ==> !backend_exists(self@, node),
    {
        let mut i: usize = 0;
        while i < self.backend_data.backends.len()
            invariant
                0 <= i <= self.backend_data.backends@.len(),
                self@.backend_data.backends.len() == self.backend_data.backends@.len(),
                forall|j: int|
                    0 <= j < i ==> (#[trigger] self@.backend_data.backends[j]).node != node,
            decreases self.backend_data.backends@.len() - i,
        {
            if self.backend_data.backends[i].node == node {
                proof {
                    assert(self@.backend_data.backends[i as int].node == node);
                }
                return Some(i);
            }
            proof {
                assert(self@.backend_data.backends[i as int].node != node);
            }
            i += 1;
        }
        None
    }

    /// Register a GPU device after its handles were opened.  `token` is the
    /// reactor registration of the device's event source, and
    /// `egl_render_node` is the render node the display driver resolved,
    /// when it resolved one; the device itself is the fallback.  A node
    /// already registered is left untouched.  The caller registers the
    /// render node with the render-capability layer; scanning for
    /// connectors is a separate, later step.  A device whose handles could
    /// not be opened never reaches this point: that failure is fatal for
    /// the device alone, and no entry is created.
    pub fn device_added(&mut self, node: u64, token: u64, egl_render_node: Option<u64>)
        requires
            wf(old(self)@),
        ensures
            wf(final(self)@),
            backend_exists(old(self)@, node) ==> final(self)@ == old(self)@,
            !backend_exists(old(self)@, node) ==> final(self)@ == (CorrosionView {
                backend_data: UdevView {
                    backends: old(self)@.backend_data.backends.push(
                        BackendView {
                            node,
                            token,
                            render_node: match egl_render_node {
                                Some(r) => r,
                                None => node,
                            },
                            scan: Seq::empty(),
                            surfaces: Seq::empty(),
                        },
                    ),
                    ..old(self)@.backend_data
                },
                ..old(self)@
            }),
    {
        if let Some(_i) = self.find_backend(node) {
            proof {
                assert(backend_exists(self@, node));
            }
            return;
        }
        let render_node = match egl_render_node {
            Some(r) => r,
            None => node,
        };
        let entry = BackendData {
            node,
            token,
            render_node,
            scanner: DrmScanner::new(),
            surfaces: Vec::new(),
        };
        let ghost ev = entry@;
        proof {
            assert(ev.scan =~= Seq::<ScanEntry>::empty());
            assert(ev.surfaces =~= Seq::<SurfaceView>::empty());
            assert(ev == (BackendView {
                node,
                token,
                render_node: match egl_render_node {
                    Some(r) => r,
                    None => node,
                },
                scan: Seq::empty(),
                surfaces: Seq::empty(),
            }));
        }
        let ghost prior = self@;
        self.backend_data.backends.push(entry);
        proof {
            assert(self@.backend_data.backends =~~= prior.backend_data.backends.push(ev));
            assert(self@ == (CorrosionView {
                backend_data: UdevView {
                    backends: prior.backend_data.backends.push(ev),
                    ..prior.backend_data
                },
                ..prior
            }));
            assert(wf(self@)) by {
                let bs = self@.backend_data.backends;
                let old_bs = prior.backend_data.backends;
                assert(forall|i: int| 0 <= i < old_bs.len() ==> bs[i] == old_bs[i]);
                assert(bs[old_bs.len() as int].node == node);
                assert(backend_wf(bs[old_bs.len() as int]));
            }
        }
    }
}

/// How revoking a protocol global relates the live-global list before and
/// after: the first occurrence of the identifier, if alive, is removed.
pub open spec fn global_revoked(pre: Seq<u64>, post: Seq<u64>, id: Option<u64>) -> bool {
    match id {
        None => post == pre,
        Some(g) => {
            if pre.contains(g) {
                exists|gi: int|
                    {
                        &&& 0 <= gi < pre.len()
                        &&& pre[gi] == g
                        &&& forall|j: int| 0 <= j < gi ==> pre[j] != g
                        &&& post == pre.remove(gi)
                    }
            } else {
                post == pre
            }
        },
    }
}

/// How tearing the surface keyed `crtc` out of one device entry relates the
/// entry (and the live globals) before and after: the first matching
/// surface, if any, is removed and its protocol global is revoked with it;
/// otherwise neither changes.
pub open spec fn backend_surface_removed(
    b0: BackendView,
    b1: BackendView,
    live0: Seq<u64>,
    live1: Seq<u64>,
    crtc: u64,
) -> bool {
    &&& b1.node == b0.node
    &&& b1.token == b0.token
    &&& b1.render_node == b0.render_node
    &&& b1.scan == b0.scan
    &&& if exists|k: int| 0 <= k < b0.surfaces.len() && (#[trigger] b0.surfaces[k]).crtc == crtc {
        exists|k: int|
            {
                &&& 0 <= k < b0.surfaces.len()
                &&& (#[trigger] b0.surfaces[k]).crtc == crtc
                &&& forall|j: int| 0 <= j < k ==> b0.surfaces[j].crtc != crtc
                &&& b1.surfaces == b0.surfaces.remove(k)
                &&& global_revoked(live0, live1, b0.surfaces[k].id)
            }
    } else {
        b1.surfaces == b0.surfaces && live1 == live0
    }
}

/// How a disconnect of (`node`, `crtc`) relates the pipeline state before
/// and after.  When the device is unknown nothing changes.  Otherwise the
/// surface entry keyed by the controller is dropped (revoking its protocol
/// global with it), the matching logical output is unmapped, and a second
/// disconnect of the same pair finds nothing left to do.
pub open spec fn disconnect_post(
    pre: CorrosionView,
    post: CorrosionView,
    node: u64,
    crtc: u64,
) -> bool {
    &&& post.backend_data.primary_gpu == pre.backend_data.primary_gpu
    &&& post.backend_data.has_allocator == pre.backend_data.has_allocator
    &&& post.backend_data.cursor_images == pre.backend_data.cursor_images
    &&& post.disable_hardware_compositor == pre.disable_hardware_compositor
    &&& post.next_global == pre.next_global
    &&& (!backend_exists(pre, node) ==> post == pre)
    &&& (backend_exists(pre, node) ==> {
        &&& post.backend_data.backends.len() == pre.backend_data.backends.len()
        &&& (forall|i: int|
            0 <= i < pre.backend_data.backends.len() && (
            #[trigger] pre.backend_data.backends[i]).node != node
                ==> post.backend_data.backends[i] == pre.backend_data.backends[i])
        &&& (forall|i: int|
            0 <= i < pre.backend_data.backends.len() && (
            #[trigger] pre.backend_data.backends[i]).node == node ==> backend_surface_removed(
                pre.backend_data.backends[i],
                post.backend_data.backends[i],
                pre.live_globals,
                post.live_globals,
                crtc,
            ))
        &&& outputs_unmapped(pre.outputs, post.outputs, node, crtc)
        &&& !surface_exists(post, node, crtc)
        &&& !output_exists(post, node, crtc)
        &&& (!surface_exists(pre, node, crtc) && !output_exists(pre, node, crtc) ==> post == pre)
    })
}

/// A unique sequence keeps every other element when one index is removed.
proof fn lemma_unique_remove_contains(s: Seq<u64>, gi: int, x: u64)
    requires
        0 <= gi < s.len(),
        s.contains(x),
        x != s[gi],
    ensures
        s.remove(gi).contains(x),
{
    let w = choose|w: int| 0 <= w < s.len() && s[w] == x;
    if w < gi {
        assert(s.remove(gi)[w] == x);
    } else {
        assert(s.remove(gi)[w - 1] == x);
    }
}

impl Corrosion {
    /// Revoke a protocol global: drop its first occurrence from the live
    /// list.  Nothing else of the pipeline state moves.
    #[verifier::loop_isolation(false)]
    fn revoke_global(&mut self, g: u64)
        ensures
            global_revoked(old(self)@.live_globals, final(self)@.live_globals, Some(g)),
            final(self)@ == (CorrosionView {
                live_globals: final(self)@.live_globals,
                ..old(self)@
            }),
    {
        let ghost s0 = self@;
        let ghost pre = self.live_globals@;
        let mut gi: usize = 0;
        while gi < self.live_globals.len()
            invariant
                0 <= gi <= pre.len(),
                self.live_globals@ == pre,
                self@ == s0,
                s0.live_globals == pre,
                forall|j: int| 0 <= j < gi ==> pre[j] != g,
            decreases pre.len() - gi,
        {
            if self.live_globals[gi] == g {
                self.live_globals.remove(gi);
                proof {
                    assert(self.live_globals@ =~= pre.remove(gi as int));
                    assert(self.live_globals@ == pre.remove(gi as int));
                    assert(pre.contains(g));
                    assert(0 <= gi < pre.len() && pre[gi as int] == g && (forall|j: int|
                        0 <= j < gi ==> pre[j] != g) && self.live_globals@ == pre.remove(gi as int));
                    assert(global_revoked(pre, self.live_globals@, Some(g)));
                    assert(self@ == (CorrosionView { live_globals: self.live_globals@, ..s0 }));
                }
                return;
            }
            gi += 1;
        }
        proof {
            assert(!pre.contains(g)) by {
                assert(forall|j: int| 0 <= j < pre.len() ==> pre[j] != g);
            }
            assert(self@ == (CorrosionView { live_globals: self.live_globals@, ..s0 }));
        }
    }

    /// Tear down the surface driven by `crtc` on device `node`: drop its
    /// entry (revoking the protocol global the entry owns) and unmap the
    /// matching logical output.  Disconnecting a pair that is not driven,
    /// or a second time, is a no-op.
    #[verifier::rlimit(100)]
    pub fn connector_disconnected(&mut self, node: u64, _connector: u64, crtc: u64)
        requires
            wf(old(self)@),
        ensures
            wf(final(self)@),
            disconnect_post(old(self)@, final(self)@, node, crtc),
    {
        let ghost prev = self@;
        let bi = match self.find_backend(node) {
            Some(i) => i,
            None => {
                return;
            },
        };
        let ghost b0 = prev.backend_data.backends[bi as int];
        proof {
            assert(backend_exists(prev, node));
        }

        // Take the device entry out, drop the keyed surface, put it back.
        let mut b = self.backend_data.backends.remove(bi);
        let mut k: usize = 0;
        let mut found = false;
        while k < b.surfaces.len()
            invariant_except_break
                !found,
            invariant
                0 <= k <= b@.surfaces.len(),
                b@ == b0,
                forall|j: int| 0 <= j < k ==> (#[trigger] b0.surfaces[j]).crtc != crtc,
                found ==> k < b0.surfaces.len() && b0.surfaces[k as int].crtc == crtc,
            ensures
                b@ == b0,
                forall|j: int| 0 <= j < k ==> (#[trigger] b0.surfaces[j]).crtc != crtc,
                found ==> k < b0.surfaces.len() && b0.surfaces[k as int].crtc == crtc,
                !found ==> k == b0.surfaces.len(),
            decreases b@.surfaces.len() - k,
        {
            if b.surfaces[k].crtc == crtc {
                found = true;
                break;
            }
            proof {
                assert(b0.surfaces[k as int].crtc != crtc);
            }
            k += 1;
        }

        let ghost live0 = prev.live_globals;
        if found {
            let s = b.surfaces.remove(k);
            proof {
                assert(b@.surfaces =~~= b0.surfaces.remove(k as int));
                assert(s@ == b0.surfaces[k as int]);
            }
            let ghost b1 = b@;
            self.backend_data.backends.insert(bi, b);
            proof {
                assert(self@.backend_data.backends =~~= prev.backend_data.backends.update(
                    bi as int,
                    b1,
                ));
            }
            match s.id {
                Some(g) => {
                    proof {
                        assert(prev.live_globals.contains(g));
                    }
                    self.revoke_global(g);
                },
                None => {},
            }
        } else {
            let ghost b1 = b@;
            proof {
                assert(b1 == b0);
            }
            self.backend_data.backends.insert(bi, b);
            proof {
                assert(self@.backend_data.backends =~~= prev.backend_data.backends.update(
                    bi as int,
                    b1,
                ));
                assert(self@.backend_data.backends =~~= prev.backend_data.backends);
            }
        }
        let ghost mid = self@;
        self.space.unmap_output(node, crtc);
        let ghost postv = self@;

        proof {
            let bs0 = prev.backend_data.backends;
            let bs1 = postv.backend_data.backends;
            assert(postv.live_globals == mid.live_globals);
            assert(bs1 == mid.backend_data.backends);

            // Only the entry at `bi` can carry `node`.
            assert(forall|i: int|
                0 <= i < bs0.len() && i != bi ==> (#[trigger] bs0[i]).node != node);

            // The per-backend removal relation.
            assert(forall|i: int|
                0 <= i < bs0.len() && (#[trigger] bs0[i]).node != node ==> bs1[i] == bs0[i]);
            if found {
                let k0 = k as int;
                assert(backend_surface_removed(b0, bs1[bi as int], live0, postv.live_globals, crtc))
                    by {
                    assert(0 <= k0 < b0.surfaces.len() && b0.surfaces[k0].crtc == crtc && (
                    forall|j: int| 0 <= j < k0 ==> b0.surfaces[j].crtc != crtc) && bs1[bi as int].surfaces
                        == b0.surfaces.remove(k0) && global_revoked(
                        live0,
                        postv.live_globals,
                        b0.surfaces[k0].id,
                    ));
                }
            } else {
                assert(forall|j: int|
                    0 <= j < b0.surfaces.len() ==> (#[trigger] b0.surfaces[j]).crtc != crtc);
                assert(backend_surface_removed(b0, bs1[bi as int], live0, postv.live_globals, crtc));
            }

            // No surface keyed (node, crtc) survives.
            assert(!surface_exists(postv, node, crtc)) by {
                assert forall|i: int, k2: int|
                    0 <= i < bs1.len() && (#[trigger] bs1[i]).node == node && 0 <= k2
                        < bs1[i].surfaces.len() implies (#[trigger] bs1[i].surfaces[k2]).crtc != crtc by {
                    assert(bs1.len() == bs0.len());
                    if i != bi {
                        assert(bs1[i] == bs0[i]);
                        assert(bs0[i].node != node);
                    } else {
                        if found {
                            let k0 = k as int;
                            assert(bs1[i].surfaces == b0.surfaces.remove(k0));
                            if k2 < k0 {
                                assert(bs1[i].surfaces[k2] == b0.surfaces[k2]);
                            } else {
                                assert(bs1[i].surfaces[k2] == b0.surfaces[k2 + 1]);
                                assert(b0.surfaces[k2 + 1].crtc != b0.surfaces[k0].crtc);
                            }
                        } else {
                            assert(bs1[i].surfaces[k2] == b0.surfaces[k2]);
                        }
                    }
                }
            }

            // No output keyed (node, crtc) survives.
            assert(!output_exists(postv, node, crtc)) by {
                if exists|i: int|
                    0 <= i < mid.outputs.len() && output_matches(
                        #[trigger] mid.outputs[i],
                        node,
                        crtc,
                    ) {
                    let i0 = choose|i: int|
                        {
                            &&& 0 <= i < mid.outputs.len()
                            &&& output_matches(#[trigger] mid.outputs[i], node, crtc)
                            &&& forall|j: int|
                                0 <= j < i ==> !output_matches(mid.outputs[j], node, crtc)
                            &&& postv.outputs == mid.outputs.remove(i)
                        };
                    assert forall|m: int|
                        0 <= m < postv.outputs.len() implies !output_matches(
                        #[trigger] postv.outputs[m],
                        node,
                        crtc,
                    ) by {
                        if m < i0 {
                            assert(postv.outputs[m] == mid.outputs[m]);
                        } else {
                            assert(postv.outputs[m] == mid.outputs[m + 1]);
                            assert(!(mid.outputs[m + 1].device_id == mid.outputs[i0].device_id
                                && mid.outputs[m + 1].crtc == mid.outputs[i0].crtc));
                        }
                    }
                }
            }

            // A disconnect of a pair that was already gone changes nothing.
            if !surface_exists(prev, node, crtc) && !output_exists(prev, node, crtc) {
                assert(!found) by {
                    if found {
                        assert(0 <= bi < bs0.len() && bs0[bi as int].node == node && (k as int)
                            < bs0[bi as int].surfaces.len() && bs0[bi as int].surfaces[k as int].crtc
                            == crtc);
                    }
                }
                assert(mid.outputs == prev.outputs);
                assert(postv.outputs == prev.outputs);
                assert(postv.backend_data.backends =~~= bs0);
                assert(postv == prev);
            }

            // Well-formedness is preserved.
            assert(wf(postv)) by {
                assert(forall|i: int| 0 <= i < bs1.len() && i != bi ==> bs1[i] == bs0[i]);
                assert(backend_wf(bs1[bi as int])) by {
                    if found {
                        let k0 = k as int;
                        assert forall|x: int, y: int|
                            0 <= x < y < bs1[bi as int].surfaces.len() implies (
                        #[trigger] bs1[bi as int].surfaces[x]).crtc != (
                        #[trigger] bs1[bi as int].surfaces[y]).crtc by {
                            let sx: int = if x < k0 { x } else { x + 1 };
                            let sy: int = if y < k0 { y } else { y + 1 };
                            assert(bs1[bi as int].surfaces[x] == b0.surfaces[sx]);
                            assert(bs1[bi as int].surfaces[y] == b0.surfaces[sy]);
                        }
                        assert forall|x: int|
                            0 <= x < bs1[bi as int].surfaces.len() implies (
                        #[trigger] bs1[bi as int].surfaces[x]).device_node == node by {
                            let sx: int = if x < k0 { x } else { x + 1 };
                            assert(bs1[bi as int].surfaces[x] == b0.surfaces[sx]);
                        }
                    }
                }
                // Live globals stay unique, fresh and owned.
                if found && b0.surfaces[k as int].id is Some {
                    let g = b0.surfaces[k as int].id.unwrap();
                    if live0.contains(g) {
                        let gi = choose|gi: int|
                            {
                                &&& 0 <= gi < live0.len()
                                &&& live0[gi] == g
                                &&& forall|j: int| 0 <= j < gi ==> live0[j] != g
                                &&& postv.live_globals == live0.remove(gi)
                            };
                        assert forall|x: int, y: int|
                            0 <= x < y < postv.live_globals.len() implies postv.live_globals[x]
                            != postv.live_globals[y] by {
                            let sx: int = if x < gi { x } else { x + 1 };
                            let sy: int = if y < gi { y } else { y + 1 };
                            assert(postv.live_globals[x] == live0[sx]);
                            assert(postv.live_globals[y] == live0[sy]);
                        }
                        assert forall|x: int|
                            0 <= x < postv.live_globals.len() implies #[trigger] postv.live_globals[x]
                            < postv.next_global by {
                            let sx: int = if x < gi { x } else { x + 1 };
                            assert(postv.live_globals[x] == live0[sx]);
                        }
                        // Every surviving surface still owns a live global.
                        assert forall|i: int, k2: int|
                            0 <= i < bs1.len() && 0 <= k2 < bs1[i].surfaces.len() implies match (
                        #[trigger] bs1[i].surfaces[k2]).id {
                            Some(g2) => postv.live_globals.contains(g2),
                            None => true,
                        } by {
                            let k0 = k as int;
                            let src: SurfaceView = if i == bi {
                                if k2 < k0 {
                                    b0.surfaces[k2]
                                } else {
                                    b0.surfaces[k2 + 1]
                                }
                            } else {
                                bs0[i].surfaces[k2]
                            };
                            assert(bs1[i].surfaces[k2] == src);
                            match src.id {
                                Some(g2) => {
                                    assert(live0.contains(g2));
                                    assert(g2 != g) by {
                                        if i == bi {
                                            if k2 < k0 {
                                                assert(b0.surfaces[k2].id != b0.surfaces[k0].id);
                                            } else {
                                                assert(b0.surfaces[k2 + 1].id != b0.surfaces[k0].id);
                                            }
                                        } else {
                                            assert(bs0[i].surfaces[k2].id
                                                != bs0[bi as int].surfaces[k0].id);
                                        }
                                    }
                                    lemma_unique_remove_contains(live0, gi, g2);
                                },
                                None => {},
                            }
                        }
                    }
                } else {
                    assert(postv.live_globals == live0);
                    assert forall|i: int, k2: int|
                        0 <= i < bs1.len() && 0 <= k2 < bs1[i].surfaces.len() implies match (
                    #[trigger] bs1[i].surfaces[k2]).id {
                        Some(g2) => postv.live_globals.contains(g2),
                        None => true,
                    } by {
                        if i == bi && found {
                            let k0 = k as int;
                            if k2 < k0 {
                                assert(bs1[i].surfaces[k2] == b0.surfaces[k2]);
                            } else {
                                assert(bs1[i].surfaces[k2] == b0.surfaces[k2 + 1]);
                            }
                        }
                    }
                }
                // Global ownership stays exclusive: the surviving surfaces
                // are a sub-multiset of the old ones.
                assert forall|i: int, k2: int, i2: int, k3: int|
                    0 <= i < bs1.len() && 0 <= k2 < bs1[i].surfaces.len() && 0 <= i2 < bs1.len()
                        && 0 <= k3 < bs1[i2].surfaces.len() && !(i == i2 && k2 == k3) implies ((
                #[trigger] bs1[i].surfaces[k2]).id is Some ==> (#[trigger] bs1[i2].surfaces[k3]).id
                    != bs1[i].surfaces[k2].id) by {
                    let k0 = k as int;
                    let a: int = if i == bi && found && k2 >= k0 {
                        k2 + 1
                    } else {
                        k2
                    };
                    let c: int = if i2 == bi && found && k3 >= k0 {
                        k3 + 1
                    } else {
                        k3
                    };
                    assert(bs1[i].surfaces[k2] == bs0[i].surfaces[a]);
                    assert(bs1[i2].surfaces[k3] == bs0[i2].surfaces[c]);
                }
            }
        }
    }

    /// Whether a surface entry keyed `crtc` exists on the backend at `bi`.
    #[verifier::loop_isolation(false)]
    fn surface_present(&self, bi: usize, crtc: u64) -> (found: bool)
        requires
            bi < self@.backend_data.backends.len(),
        ensures
            found == exists|k: int|
                0 <= k < self@.backend_data.backends[bi as int].surfaces.len() && (
                #[trigger] self@.backend_data.backends[bi as int].surfaces[k]).crtc == crtc,
    {
        let b = &self.backend_data.backends[bi];
        let ghost bv = self@.backend_data.backends[bi as int];
        let mut k: usize = 0;
        while k < b.surfaces.len()
            invariant
                0 <= k <= bv.surfaces.len(),
                b@ == bv,
                forall|j: int| 0 <= j < k ==> (#[trigger] bv.surfaces[j]).crtc != crtc,
            decreases bv.surfaces.len() - k,
        {
            if b.surfaces[k].crtc == crtc {
                proof {
                    assert(bv.surfaces[k as int].crtc == crtc);
                }
                return true;
            }
            proof {
                assert(bv.surfaces[k as int].crtc != crtc);
            }
            k += 1;
        }
        false
    }

    /// Tearing a surface down is idempotent: once a (device, controller)
    /// pair has been disconnected, disconnecting it again changes nothing —
    /// in particular its protocol global is not revoked twice.
    pub proof fn lemma_disconnect_idempotent(
        pre: CorrosionView,
        mid: CorrosionView,
        post: CorrosionView,
        node: u64,
        crtc: u64,
    )
        requires
            disconnect_post(pre, mid, node, crtc),
            disconnect_post(mid, post, node, crtc),
        ensures
            post == mid,
    {
        if backend_exists(pre, node) {
            let i = choose|i: int|
                0 <= i < pre.backend_data.backends.len() && (
                #[trigger] pre.backend_data.backends[i]).node == node;
            assert(mid.backend_data.backends[i].node == node);
            assert(backend_exists(mid, node));
        } else {
            assert(mid == pre);
            assert(!backend_exists(mid, node));
        }
    }

    /// At most one surface entry per controller: in any well-formed
    /// pipeline state, no device entry drives the same controller through
    /// two surface entries.  Every operation of the pipeline requires a
    /// well-formed state and leaves one, so this holds across every
    /// sequence of connect and disconnect events.
    pub proof fn lemma_at_most_one_surface_per_controller(
        v: CorrosionView,
        i: int,
        k1: int,
        k2: int,
    )
        requires
            wf(v),
            0 <= i < v.backend_data.backends.len(),
            0 <= k1 < v.backend_data.backends[i].surfaces.len(),
            0 <= k2 < v.backend_data.backends[i].surfaces.len(),
            k1 != k2,
        ensures
            v.backend_data.backends[i].surfaces[k1].crtc
                != v.backend_data.backends[i].surfaces[k2].crtc,
    {
        assert(backend_wf(v.backend_data.backends[i]));
    }
}

/// Everything a removed sequence element came from is still in the source.
proof fn lemma_remove_subset<A>(s: Seq<A>, i: int)
    requires
        0 <= i < s.len(),
    ensures
        forall|x: A| #[trigger] s.remove(i).contains(x) ==> s.contains(x),
{
    assert forall|x: A| #[trigger] s.remove(i).contains(x) implies s.contains(x) by {
        let w = choose|w: int| 0 <= w < s.remove(i).len() && s.remove(i)[w] == x;
        if w < i {
            assert(s[w] == x);
        } else {
            assert(s[w + 1] == x);
        }
    }
}

/// Removing one index keeps every element that sat at another index.
proof fn lemma_remove_keeps<A>(s: Seq<A>, i: int, w: int)
    requires
        0 <= i < s.len(),
        0 <= w < s.len(),
        w != i,
    ensures
        s.remove(i).contains(s[w]),
{
    if w < i {
        assert(s.remove(i)[w] == s[w]);
    } else {
        assert(s.remove(i)[w - 1] == s[w]);
    }
}

/// How removing a whole device relates the pipeline state before and
/// after: the device entry is dropped, every output that a recorded
/// (connector, controller) pairing was driving is unmapped, no output
/// appears from nowhere, and live protocol globals only go away, never
/// appear.
pub open spec fn device_removed_post(pre: CorrosionView, post: CorrosionView, node: u64) -> bool {
    &&& post.next_global == pre.next_global
    &&& post.backend_data.primary_gpu == pre.backend_data.primary_gpu
    &&& post.backend_data.has_allocator == pre.backend_data.has_allocator
    &&& post.backend_data.cursor_images == pre.backend_data.cursor_images
    &&& post.disable_hardware_compositor == pre.disable_hardware_compositor
    &&& (!backend_exists(pre, node) ==> post == pre)
    &&& (backend_exists(pre, node) ==> {
        &&& !backend_exists(post, node)
        &&& (forall|i: int|
            (0 <= i < pre.backend_data.backends.len() && (
            #[trigger] pre.backend_data.backends[i]).node == node)
                ==> post.backend_data.backends == pre.backend_data.backends.remove(i))
        &&& (forall|j: int|
            (0 <= j < pre.outputs.len() && (#[trigger] pre.outputs[j]).device_id != node)
                ==> post.outputs.contains(pre.outputs[j]))
        &&& (forall|j: int|
            0 <= j < post.outputs.len() ==> pre.outputs.contains(#[trigger] post.outputs[j]))
        &&& (forall|i: int, t: int|
            (0 <= i < pre.backend_data.backends.len() && (
            #[trigger] pre.backend_data.backends[i]).node == node && 0 <= t
                < pre.backend_data.backends[i].scan.len()) ==> !output_exists(
                post,
                node,
                (#[trigger] pre.backend_data.backends[i].scan[t]).crtc,
            ))
        &&& (forall|g: u64|
            #[trigger] post.live_globals.contains(g) ==> pre.live_globals.contains(g))
    })
}

/// Manufacturer and model strings read from a connector's EDID block.
pub struct EdidIdentity {
    pub make: String,
    pub model: String,
}

/// Mathematical image of an `EdidIdentity`.
#[verifier::ext_equal]
pub ghost struct EdidIdentityView {
    pub make: Seq<char>,
    pub model: Seq<char>,
}

impl View for EdidIdentity {
    type V = EdidIdentityView;

    open spec fn view(&self) -> EdidIdentityView {
        EdidIdentityView { make: self.make@, model: self.model@ }
    }
}

/// What the hardware reports about a connector that just connected.
/// `physical_size` and `edid` are best-effort: absence falls back to a zero
/// size and an "unknown" identity, never to a failure.
pub struct ConnectorInfo {
    pub connector: u64,
    /// The connector interface name, such as the port kind.
    pub interface_name: String,
    /// The index of this connector among those of its interface.
    pub interface_id: u64,
    /// The connector's mode list; must not be empty.
    pub modes: Vec<OutputMode>,
    /// Physical size in millimetres, when the connector reports one.
    pub physical_size: Option<(i32, i32)>,
    pub edid: Option<EdidIdentity>,
}

/// Mathematical image of a `ConnectorInfo`.
#[verifier::ext_equal]
pub ghost struct ConnectorInfoView {
    pub connector: u64,
    pub interface_name: Seq<char>,
    pub interface_id: u64,
    pub modes: Seq<OutputMode>,
    pub physical_size: Option<(i32, i32)>,
    pub edid: Option<EdidIdentityView>,
}

impl View for ConnectorInfo {
    type V = ConnectorInfoView;

    open spec fn view(&self) -> ConnectorInfoView {
        ConnectorInfoView {
            connector: self.connector,
            interface_name: self.interface_name@,
            interface_id: self.interface_id,
            modes: self.modes@,
            physical_size: self.physical_size,
            edid: match self.edid {
                Some(ref e) => Some(e@),
                None => None,
            },
        }
    }
}

/// What the hardware handed back while the surface was being built: the
/// created kernel surface, its negotiated format, the raw plane set, the
/// driver identity, and the two GPU format queries the feedback negotiation
/// needs (`None` where a query failed).
pub struct SurfaceHardwareInfo {
    pub surface_handle: u64,
    pub format_code: u32,
    pub planes: PlaneSet,
    pub driver_name: String,
    pub driver_desc: String,
    pub primary_formats: Option<Vec<DrmFormat>>,
    pub render_formats: Option<Vec<DrmFormat>>,
}

/// Mathematical image of a `SurfaceHardwareInfo`.
#[verifier::ext_equal]
pub ghost struct HardwareInfoView {
    pub surface_handle: u64,
    pub format_code: u32,
    pub planes: PlaneSetView,
    pub driver_name: Seq<char>,
    pub driver_desc: Seq<char>,
    pub primary_formats: Option<Seq<DrmFormat>>,
    pub render_formats: Option<Seq<DrmFormat>>,
}

impl View for SurfaceHardwareInfo {
    type V = HardwareInfoView;

    open spec fn view(&self) -> HardwareInfoView {
        HardwareInfoView {
            surface_handle: self.surface_handle,
            format_code: self.format_code,
            planes: self.planes@,
            driver_name: self.driver_name@,
            driver_desc: self.driver_desc@,
            primary_formats: match self.primary_formats {
                Some(ref v) => Some(v@),
                None => None,
            },
            render_formats: match self.render_formats {
                Some(ref v) => Some(v@),
                None => None,
            },
        }
    }
}

/// Whether `r` is the index of the mode to drive a connector with: the
/// first mode flagged preferred, or index 0 when none is flagged.
pub open spec fn is_picked_mode(modes: Seq<OutputMode>, r: int) -> bool {
    &&& 0 <= r < modes.len()
    &&& if exists|i: int| 0 <= i < modes.len() && (#[trigger] modes[i]).preferred {
        modes[r].preferred && (forall|j: int| 0 <= j < r ==> !modes[j].preferred)
    } else {
        r == 0
    }
}

/// Pick the mode to drive a connector with: the first mode flagged
/// preferred, else the first mode of the list.
pub fn pick_mode(modes: &Vec<OutputMode>) -> (r: usize)
    requires
        modes@.len() > 0,
    ensures
        is_picked_mode(modes@, r as int),
{
    let mut i: usize = 0;
    while i < modes.len()
        invariant
            0 <= i <= modes@.len(),
            forall|j: int| 0 <= j < i ==> !(#[trigger] modes@[j]).preferred,
        decreases modes@.len() - i,
    {
        if modes[i].preferred {
            return i;
        }
        i += 1;
    }
    0
}

/// Whether the six letters of the known-buggy vendor's name start at `i`,
/// compared without regard to ASCII case.
pub open spec fn nvidia_at(s: Seq<char>, i: int) -> bool {
    &&& 0 <= i
    &&& i + 6 <= s.len()
    &&& (s[i] == 'n' || s[i] == 'N')
    &&& (s[i + 1] == 'v' || s[i + 1] == 'V')
    &&& (s[i + 2] == 'i' || s[i + 2] == 'I')
    &&& (s[i + 3] == 'd' || s[i + 3] == 'D')
    &&& (s[i + 4] == 'i' || s[i + 4] == 'I')
    &&& (s[i + 5] == 'a' || s[i + 5] == 'A')
}

/// Whether the string names the vendor whose overlay planes are unreliable.
pub open spec fn spec_names_nvidia(s: Seq<char>) -> bool {
    exists|i: int| nvidia_at(s, i)
}

/// Case-insensitive scan for the vendor name.
fn names_nvidia(s: &str) -> (r: bool)
    ensures
        r == spec_names_nvidia(s@),
{
    let n = s.unicode_len();
    if n < 6 {
        proof {
            if spec_names_nvidia(s@) {
                let w = choose|i: int| nvidia_at(s@, i);
                assert(false);
            }
        }
        return false;
    }
    let mut i: usize = 0;
    while i <= n - 6
        invariant
            6 <= n == s@.len(),
            0 <= i <= n - 5,
            forall|j: int| 0 <= j < i ==> !nvidia_at(s@, j),
        decreases n - i,
    {
        let c0 = s.get_char(i);
        let c1 = s.get_char(i + 1);
        let c2 = s.get_char(i + 2);
        let c3 = s.get_char(i + 3);
        let c4 = s.get_char(i + 4);
        let c5 = s.get_char(i + 5);
        if (c0 == 'n' || c0 == 'N') && (c1 == 'v' || c1 == 'V') && (c2 == 'i' || c2 == 'I') && (c3
            == 'd' || c3 == 'D') && (c4 == 'i' || c4 == 'I') && (c5 == 'a' || c5 == 'A') {
            proof {
                assert(nvidia_at(s@, i as int));
            }
            return true;
        }
        proof {
            assert(!nvidia_at(s@, i as int));
        }
        i += 1;
    }
    proof {
        if spec_names_nvidia(s@) {
            let w = choose|w: int| nvidia_at(s@, w);
            assert(w < i);
            assert(false);
        }
    }
    false
}

/// The plane set actually handed to the hardware compositor: the overlay
/// planes are dropped on the known-buggy vendor's hardware.
pub open spec fn spec_quirked_planes(planes: PlaneSetView, drop_overlays: bool) -> PlaneSetView {
    if drop_overlays {
        PlaneSetView { overlay: Seq::empty(), ..planes }
    } else {
        planes
    }
}

/// Whether a driver identity (name or description) asks for the
/// overlay-plane workaround.
pub fn driver_drops_overlay_planes(driver_name: &str, driver_desc: &str) -> (r: bool)
    ensures
        r == (spec_names_nvidia(driver_name@) || spec_names_nvidia(driver_desc@)),
{
    names_nvidia(driver_name) || names_nvidia(driver_desc)
}

/// The fixed format list a buffered (non-hardware-composited) surface is
/// created with.
pub open spec fn spec_supported_codes() -> Seq<u32> {
    seq![FOURCC_ABGR8888, FOURCC_ARGB8888]
}

/// What the composition of a freshly connected surface must look like: the
/// software path exactly when the override is set, the hardware path with
/// the vendor quirk applied otherwise; either way primed by the initial
/// render (one frame queued without feedback, buffers reset).
pub open spec fn composition_ok(c: CompositionView, disable_hw: bool, hw: HardwareInfoView) -> bool {
    &&& c.surface_handle == hw.surface_handle
    &&& c.format_code == hw.format_code
    &&& c.queued == Some(PendingFrame { feedback: None })
    &&& c.needs_full_redraw == true
    &&& c.hardware == !disable_hw
    &&& if disable_hw {
        c.supported_codes == spec_supported_codes() && c.planes is None
    } else {
        c.planes == Some(
            spec_quirked_planes(
                hw.planes,
                spec_names_nvidia(hw.driver_name) || spec_names_nvidia(hw.driver_desc),
            ),
        )
    }
}

/// What the feedback of a freshly connected surface must look like: present
/// exactly when both GPU format queries succeeded, and then negotiated from
/// them and the raw plane set.
pub open spec fn feedback_ok(
    fb: Option<FeedbackPairView>,
    primary: u64,
    render_node: u64,
    node: u64,
    hw: HardwareInfoView,
) -> bool {
    &&& (fb is Some <==> (hw.primary_formats is Some && hw.render_formats is Some))
    &&& (fb matches Some(p) ==> {
        &&& p.render_feedback == crate::formats::spec_render_feedback(
            primary,
            render_node,
            hw.primary_formats.unwrap(),
            hw.render_formats.unwrap(),
        )
        &&& crate::formats::scanout_feedback_ok(
            p.scanout_feedback,
            primary,
            render_node,
            node,
            hw.primary_formats.unwrap(),
            hw.render_formats.unwrap(),
            hw.planes,
        )
    })
}

/// What the surface entry of a freshly connected output must hold.
pub open spec fn new_surface_ok(
    s: SurfaceView,
    node: u64,
    crtc: u64,
    render_node: u64,
    g: u64,
    disable_hw: bool,
    primary: u64,
    hw: HardwareInfoView,
) -> bool {
    &&& s.crtc == crtc
    &&& s.device_node == node
    &&& s.render_node == render_node
    &&& s.id == Some(g)
    &&& feedback_ok(s.dmabuf_feedback, primary, render_node, node, hw)
    &&& composition_ok(s.compositor, disable_hw, hw)
}

/// What the logical output of a freshly connected connector must hold: the
/// connector's identity, the EDID identity (or "unknown"), the physical
/// size (or zero), the picked mode, and the strip position.
pub open spec fn new_output_ok(
    o: OutputEntryView,
    node: u64,
    crtc: u64,
    conn: ConnectorInfoView,
    x: int,
) -> bool {
    &&& o.device_id == node
    &&& o.crtc == crtc
    &&& o.interface_name == conn.interface_name
    &&& o.interface_id == conn.interface_id
    &&& (match conn.edid {
        Some(e) => o.make == e.make && o.model == e.model,
        None => o.make == "unknown"@ && o.model == "unknown"@,
    })
    &&& (match conn.physical_size {
        Some(p) => o.physical_width == p.0 && o.physical_height == p.1,
        None => o.physical_width == 0 && o.physical_height == 0,
    })
    &&& (exists|m: int| #[trigger] is_picked_mode(conn.modes, m) && o.mode == conn.modes[m])
    &&& o.x == x
    &&& o.y == 0
}

/// How connecting (`node`, `crtc`) relates the pipeline state before and
/// after.  An unknown device, or a controller already driven, changes
/// nothing (reconfiguration requires tearing the entry down first).
/// Otherwise a fresh protocol global is handed out, the new output is
/// mapped at the right end of the strip, and the new surface entry is
/// inserted, already primed by its initial render.
pub open spec fn connect_post(
    pre: CorrosionView,
    post: CorrosionView,
    node: u64,
    crtc: u64,
    conn: ConnectorInfoView,
    hw: HardwareInfoView,
) -> bool {
    &&& (!backend_exists(pre, node) ==> post == pre)
    &&& ((backend_exists(pre, node) && (surface_exists(pre, node, crtc) || output_exists(
        pre,
        node,
        crtc,
    ))) ==> post == pre)
    &&& ((backend_exists(pre, node) && !surface_exists(pre, node, crtc) && !output_exists(
        pre,
        node,
        crtc,
    )) ==> {
        &&& post.next_global == pre.next_global + 1
        &&& post.live_globals == pre.live_globals.push(pre.next_global)
        &&& post.outputs.len() == pre.outputs.len() + 1
        &&& (forall|i: int| 0 <= i < pre.outputs.len() ==> post.outputs[i] == pre.outputs[i])
        &&& new_output_ok(post.outputs.last(), node, crtc, conn, spec_total_width(pre.outputs))
        &&& (is_strip(pre.outputs) ==> is_strip(post.outputs))
        &&& post.backend_data.backends.len() == pre.backend_data.backends.len()
        &&& (forall|i: int|
            0 <= i < pre.backend_data.backends.len() && (
            #[trigger] pre.backend_data.backends[i]).node != node
                ==> post.backend_data.backends[i] == pre.backend_data.backends[i])
        &&& (forall|i: int|
            0 <= i < pre.backend_data.backends.len() && (
            #[trigger] pre.backend_data.backends[i]).node == node ==> {
                let b0 = pre.backend_data.backends[i];
                let b1 = post.backend_data.backends[i];
                &&& b1.node == b0.node
                &&& b1.token == b0.token
                &&& b1.render_node == b0.render_node
                &&& b1.scan == b0.scan
                &&& b1.surfaces.len() == b0.surfaces.len() + 1
                &&& (forall|k: int| 0 <= k < b0.surfaces.len() ==> b1.surfaces[k] == b0.surfaces[k])
                &&& new_surface_ok(
                    b1.surfaces.last(),
                    node,
                    crtc,
                    b0.render_node,
                    pre.next_global,
                    pre.disable_hardware_compositor,
                    pre.backend_data.primary_gpu,
                    hw,
                )
            })
        &&& post.backend_data.primary_gpu == pre.backend_data.primary_gpu
        &&& post.backend_data.has_allocator == pre.backend_data.has_allocator
        &&& post.backend_data.cursor_images == pre.backend_data.cursor_images
        &&& post.disable_hardware_compositor == pre.disable_hardware_compositor
    })
}

impl Corrosion {
    /// Set a freshly connected connector up: pick its mode, create the
    /// logical output at the right end of the strip, register its protocol
    /// global, choose the composition variant (the override forces the
    /// buffered path; the known-buggy vendor loses its overlay planes),
    /// negotiate the dma-buf feedback from the raw planes, and insert the
    /// surface entry keyed by the controller, primed by its initial render.
    ///
    /// An unknown device, or a controller already driven, is left untouched:
    /// reconfiguring a live surface requires disconnecting it first.
    pub fn connector_connected(
        &mut self,
        node: u64,
        crtc: u64,
        connector: ConnectorInfo,
        hw: SurfaceHardwareInfo,
    )
        requires
            wf(old(self)@),
            connector.modes@.len() > 0,
            forall|j: int|
                0 <= j < connector.modes@.len() ==> (#[trigger] connector.modes@[j]).width >= 0 && (
                connector.modes@[j]).height >= 0,
            forall|j: int|
                0 <= j < connector.modes@.len() ==> spec_total_width(old(self)@.outputs) + (
                #[trigger] connector.modes@[j]).width <= i32::MAX,
            forall|j: int| 0 <= j < connector.modes@.len() ==> (
            #[trigger] connector.modes@[j]).refresh_hz > 0,
            old(self)@.next_global < u64::MAX,
        ensures
            wf(final(self)@),
            connect_post(old(self)@, final(self)@, node, crtc, connector@, hw@),
    {
        let ghost prev = self@;
        let ghost connv = connector@;
        let ghost hwv = hw@;
        let bi = match self.find_backend(node) {
            Some(i) => i,
            None => {
                return;
            },
        };
        proof {
            assert(backend_exists(prev, node));
        }
        let surface_already = self.surface_present(bi, crtc);
        let output_already = match self.space.find_output(node, crtc) {
            Some(_) => true,
            None => false,
        };
        proof {
            assert(surface_already ==> surface_exists(prev, node, crtc));
            if !surface_already && surface_exists(prev, node, crtc) {
                let (i2, k2) = choose|i2: int, k2: int|
                    0 <= i2 < prev.backend_data.backends.len() && (
                    #[trigger] prev.backend_data.backends[i2]).node == node && 0 <= k2
                        < prev.backend_data.backends[i2].surfaces.len() && (
                    #[trigger] prev.backend_data.backends[i2].surfaces[k2]).crtc == crtc;
                assert(i2 == bi as int);
                assert(false);
            }
            assert(output_already == output_exists(prev, node, crtc));
        }
        if surface_already || output_already {
            return;
        }

        // Resolve the mode and the output identity.
        let mode_idx = pick_mode(&connector.modes);
        let mode = connector.modes[mode_idx];
        let (make, model) = match connector.edid {
            Some(e) => (e.make, e.model),
            None => ("unknown".to_owned(), "unknown".to_owned()),
        };
        let (physical_width, physical_height) = match connector.physical_size {
            Some(p) => p,
            None => (0, 0),
        };

        // Hand a fresh protocol global out.
        let g = self.next_global;
        self.next_global = g + 1;
        self.live_globals.push(g);

        // Map the logical output at the right end of the strip.
        let entry = OutputEntry {
            device_id: node,
            crtc,
            interface_name: connector.interface_name,
            interface_id: connector.interface_id,
            make,
            model,
            physical_width,
            physical_height,
            mode,
            x: 0,
            y: 0,
        };
        let ghost entryv = entry@;
        self.space.map_output(entry);

        // Negotiate the feedback from the raw plane set.
        let render_node = self.backend_data.backends[bi].render_node;
        proof {
            assert(prev.backend_data.backends[bi as int].render_node == render_node);
        }
        let dmabuf_feedback = get_surface_dmabuf_feedback(
            self.backend_data.primary_gpu,
            render_node,
            node,
            hw.primary_formats,
            hw.render_formats,
            &hw.planes,
        );

        // Choose the composition variant.
        let compositor = if self.disable_hardware_compositor {
            let mut supported_codes: Vec<u32> = Vec::new();
            supported_codes.push(FOURCC_ABGR8888);
            supported_codes.push(FOURCC_ARGB8888);
            proof {
                assert(supported_codes@ =~= spec_supported_codes());
            }
            SurfaceComposition::Surface {
                surface_handle: hw.surface_handle,
                format_code: hw.format_code,
                supported_codes,
                queued: Some(PendingFrame { feedback: None }),
                needs_full_redraw: true,
            }
        } else {
            let drop_overlays = driver_drops_overlay_planes(&hw.driver_name, &hw.driver_desc);
            let planes = if drop_overlays {
                PlaneSet { primary: hw.planes.primary, overlay: Vec::new() }
            } else {
                hw.planes
            };
            proof {
                assert(planes@ =~~= spec_quirked_planes(
                    hwv.planes,
                    spec_names_nvidia(hwv.driver_name) || spec_names_nvidia(hwv.driver_desc),
                ));
            }
            SurfaceComposition::Compositor {
                surface_handle: hw.surface_handle,
                format_code: hw.format_code,
                planes,
                queued: Some(PendingFrame { feedback: None }),
                needs_full_redraw: true,
            }
        };

        // Insert the surface entry keyed by the controller.
        let sdata = SurfaceData {
            crtc,
            device_node: node,
            render_node,
            id: Some(g),
            dmabuf_feedback,
            compositor,
        };
        let ghost sv = sdata@;
        let mut b = self.backend_data.backends.remove(bi);
        let ghost b0 = b@;
        b.surfaces.push(sdata);
        proof {
            assert(b@.surfaces =~= b0.surfaces.push(sv));
        }
        let ghost b1 = b@;
        self.backend_data.backends.insert(bi, b);

        proof {
            let postv = self@;
            let bs0 = prev.backend_data.backends;
            let bs1 = postv.backend_data.backends;
            assert(bs1 =~~= bs0.update(bi as int, b1));
            assert(b0 == bs0[bi as int]);
            assert(postv.live_globals =~= prev.live_globals.push(g));
            assert(forall|i: int|
                0 <= i < bs0.len() && i != bi ==> (#[trigger] bs0[i]).node != node);

            // The new surface entry is what the relation asks for.
            assert(new_surface_ok(
                sv,
                node,
                crtc,
                b0.render_node,
                g,
                prev.disable_hardware_compositor,
                prev.backend_data.primary_gpu,
                hwv,
            ));

            // The new output is what the relation asks for.
            crate::layout::lemma_total_width_nonneg(prev.outputs);
            assert(new_output_ok(postv.outputs.last(), node, crtc, connv, spec_total_width(
                prev.outputs,
            ))) by {
                assert(postv.outputs.last() == (OutputEntryView {
                    x: spec_total_width(prev.outputs) as i32,
                    y: 0,
                    ..entryv
                }));
                assert(is_picked_mode(connv.modes, mode_idx as int) && postv.outputs.last().mode
                    == connv.modes[mode_idx as int]);
            }

            assert(connect_post(prev, postv, node, crtc, connv, hwv));

            // Well-formedness is preserved.
            assert(wf(postv)) by {
                assert(forall|i: int| 0 <= i < bs1.len() && i != bi ==> bs1[i] == bs0[i]);
                assert(backend_wf(bs1[bi as int])) by {
                    assert(forall|k: int|
                        0 <= k < b0.surfaces.len() ==> b1.surfaces[k] == b0.surfaces[k]);
                    assert(b1.surfaces.last() == sv);
                    assert(forall|k: int|
                        0 <= k < b0.surfaces.len() ==> (#[trigger] b0.surfaces[k]).crtc != crtc);
                }
                // The fresh global is fresh, so uniqueness and ownership hold.
                assert(forall|i: int|
                    0 <= i < prev.live_globals.len() ==> #[trigger] prev.live_globals[i] != g);
                assert(forall|x: int|
                    0 <= x < postv.live_globals.len() ==> #[trigger] postv.live_globals[x]
                        < postv.next_global);
                assert forall|i: int, k: int|
                    0 <= i < bs1.len() && 0 <= k < bs1[i].surfaces.len() implies match (
                #[trigger] bs1[i].surfaces[k]).id {
                    Some(g2) => postv.live_globals.contains(g2),
                    None => true,
                } by {
                    if i == bi as int && k == b0.surfaces.len() {
                        assert(bs1[i].surfaces[k] == sv);
                        assert(postv.live_globals.last() == g);
                    } else {
                        assert(bs1[i].surfaces[k] == bs0[i].surfaces[k]);
                        match bs0[i].surfaces[k].id {
                            Some(g2) => {
                                let w = choose|w: int|
                                    0 <= w < prev.live_globals.len() && prev.live_globals[w] == g2;
                                assert(postv.live_globals[w] == g2);
                            },
                            None => {},
                        }
                    }
                }
                assert forall|i: int, k: int, i2: int, k2: int|
                    0 <= i < bs1.len() && 0 <= k < bs1[i].surfaces.len() && 0 <= i2 < bs1.len()
                        && 0 <= k2 < bs1[i2].surfaces.len() && !(i == i2 && k == k2) implies ((
                #[trigger] bs1[i].surfaces[k]).id is Some ==> (#[trigger] bs1[i2].surfaces[k2]).id
                    != bs1[i].surfaces[k].id) by {
                    if i == bi as int && k == b0.surfaces.len() {
                        assert(bs1[i].surfaces[k] == sv);
                        assert(bs1[i2].surfaces[k2] == bs0[i2].surfaces[k2]);
                        match bs0[i2].surfaces[k2].id {
                            Some(g2) => {
                                assert(prev.live_globals.contains(g2));
                                assert(g2 < g);
                            },
                            None => {},
                        }
                    } else if i2 == bi as int && k2 == b0.surfaces.len() {
                        assert(bs1[i2].surfaces[k2] == sv);
                        assert(bs1[i].surfaces[k] == bs0[i].surfaces[k]);
                        match bs0[i].surfaces[k].id {
                            Some(g2) => {
                                assert(prev.live_globals.contains(g2));
                                assert(g2 < g);
                            },
                            None => {},
                        }
                    } else {
                        assert(bs1[i].surfaces[k] == bs0[i].surfaces[k]);
                        assert(bs1[i2].surfaces[k2] == bs0[i2].surfaces[k2]);
                    }
                }
                // The new output's key is fresh among the outputs.
                assert(forall|i: int|
                    0 <= i < prev.outputs.len() ==> !output_matches(
                        #[trigger] prev.outputs[i],
                        node,
                        crtc,
                    ));
                assert(forall|i: int|
                    0 <= i < prev.outputs.len() ==> postv.outputs[i] == prev.outputs[i]);
            }
        }
    }

    /// Remove a GPU device: tear down every surface its scanner recorded
    /// (revoking their protocol globals and unmapping their outputs), then
    /// drop the device entry itself.  The caller deregisters the device
    /// from the render-capability layer and removes its event source.
    pub fn device_removed(&mut self, node: u64)
        requires
            wf(old(self)@),
        ensures
            wf(final(self)@),
            device_removed_post(old(self)@, final(self)@, node),
    {
        let ghost prev = self@;
        let bi = match self.find_backend(node) {
            Some(i) => i,
            None => {
                return;
            },
        };
        proof {
            assert(backend_exists(prev, node));
            assert(forall|i: int|
                0 <= i < prev.backend_data.backends.len() && i != bi ==> (
                #[trigger] prev.backend_data.backends[i]).node != node);
        }
        let entries = self.backend_data.backends[bi].scanner.crtcs();
        let ghost scan0 = prev.backend_data.backends[bi as int].scan;
        proof {
            assert(entries@ =~= scan0);
        }
        let mut t: usize = 0;
        while t < entries.len()
            invariant
                0 <= t <= entries@.len(),
                entries@ == scan0,
                bi < self@.backend_data.backends.len(),
                wf(self@),
                self@.next_global == prev.next_global,
                self@.backend_data.primary_gpu == prev.backend_data.primary_gpu,
                self@.backend_data.has_allocator == prev.backend_data.has_allocator,
                self@.backend_data.cursor_images == prev.backend_data.cursor_images,
                self@.disable_hardware_compositor == prev.disable_hardware_compositor,
                self@.backend_data.backends.len() == prev.backend_data.backends.len(),
                forall|i: int|
                    0 <= i < prev.backend_data.backends.len() && i != bi
                        ==> #[trigger] self@.backend_data.backends[i]
                        == prev.backend_data.backends[i],
                self@.backend_data.backends[bi as int].node == node,
                forall|i: int|
                    0 <= i < prev.backend_data.backends.len() && i != bi ==> (
                    #[trigger] prev.backend_data.backends[i]).node != node,
                forall|j: int|
                    (0 <= j < prev.outputs.len() && (#[trigger] prev.outputs[j]).device_id != node)
                        ==> self@.outputs.contains(prev.outputs[j]),
                forall|j: int|
                    0 <= j < self@.outputs.len() ==> prev.outputs.contains(
                        #[trigger] self@.outputs[j],
                    ),
                forall|u: int| 0 <= u < t ==> !output_exists(self@, node, scan0[u].crtc),
                forall|g: u64|
                    #[trigger] self@.live_globals.contains(g) ==> prev.live_globals.contains(g),
            decreases entries@.len() - t,
        {
            let e = entries[t];
            let ghost cur = self@;
            self.connector_disconnected(node, e.connector, e.crtc);
            proof {
                let postv = self@;
                assert(backend_exists(cur, node)) by {
                    assert(cur.backend_data.backends[bi as int].node == node);
                }
                // The device entry keeps its place and its node.
                assert(backend_surface_removed(
                    cur.backend_data.backends[bi as int],
                    postv.backend_data.backends[bi as int],
                    cur.live_globals,
                    postv.live_globals,
                    e.crtc,
                ));
                assert forall|i: int|
                    0 <= i < prev.backend_data.backends.len() && i != bi implies
                    #[trigger] postv.backend_data.backends[i]
                        == prev.backend_data.backends[i] by {
                    assert(cur.backend_data.backends[i] == prev.backend_data.backends[i]);
                    assert(cur.backend_data.backends[i].node != node);
                    assert(postv.backend_data.backends[i] == cur.backend_data.backends[i]);
                }

                // Outputs: only a (node, crtc) match was unmapped.
                assert(outputs_unmapped(cur.outputs, postv.outputs, node, e.crtc));
                if exists|x: int|
                    0 <= x < cur.outputs.len() && output_matches(
                        #[trigger] cur.outputs[x],
                        node,
                        e.crtc,
                    ) {
                    let x = choose|x: int|
                        {
                            &&& 0 <= x < cur.outputs.len()
                            &&& output_matches(#[trigger] cur.outputs[x], node, e.crtc)
                            &&& forall|j: int|
                                0 <= j < x ==> !output_matches(cur.outputs[j], node, e.crtc)
                            &&& postv.outputs == cur.outputs.remove(x)
                        };
                    lemma_remove_subset(cur.outputs, x);
                    assert forall|j: int|
                        (0 <= j < prev.outputs.len() && (#[trigger] prev.outputs[j]).device_id
                            != node) implies postv.outputs.contains(prev.outputs[j]) by {
                        let w = choose|w: int|
                            0 <= w < cur.outputs.len() && cur.outputs[w] == prev.outputs[j];
                        assert(w != x);
                        lemma_remove_keeps(cur.outputs, x, w);
                    }
                } else {
                    assert(postv.outputs == cur.outputs);
                }
                assert(forall|j: int|
                    0 <= j < postv.outputs.len() ==> cur.outputs.contains(
                        #[trigger] postv.outputs[j],
                    )) by {
                    assert(forall|j: int|
                        0 <= j < postv.outputs.len() ==> postv.outputs.contains(
                            #[trigger] postv.outputs[j],
                        ));
                }
                assert(forall|j: int|
                    0 <= j < postv.outputs.len() ==> prev.outputs.contains(
                        #[trigger] postv.outputs[j],
                    )) by {
                    assert forall|j: int|
                        0 <= j < postv.outputs.len() implies prev.outputs.contains(
                        postv.outputs[j],
                    ) by {
                        assert(cur.outputs.contains(postv.outputs[j]));
                        let w = choose|w: int|
                            0 <= w < cur.outputs.len() && cur.outputs[w] == postv.outputs[j];
                        assert(prev.outputs.contains(cur.outputs[w]));
                    }
                }

                // Absences recorded so far stay absent; this pair is now
                // absent too.
                assert forall|u: int| 0 <= u < t + 1 implies !output_exists(
                    postv,
                    node,
                    scan0[u].crtc,
                ) by {
                    if u < t {
                        if exists|m: int|
                            0 <= m < postv.outputs.len() && output_matches(
                                #[trigger] postv.outputs[m],
                                node,
                                scan0[u].crtc,
                            ) {
                            let m = choose|m: int|
                                0 <= m < postv.outputs.len() && output_matches(
                                    #[trigger] postv.outputs[m],
                                    node,
                                    scan0[u].crtc,
                                );
                            assert(cur.outputs.contains(postv.outputs[m]));
                            let w = choose|w: int|
                                0 <= w < cur.outputs.len() && cur.outputs[w] == postv.outputs[m];
                            assert(output_matches(cur.outputs[w], node, scan0[u].crtc));
                            assert(false);
                        }
                    } else {
                        assert(!output_exists(postv, node, e.crtc));
                    }
                }

                // Globals only go away.
                assert(forall|g: u64|
                    #[trigger] postv.live_globals.contains(g) ==> prev.live_globals.contains(g))
                    by {
                    if postv.live_globals != cur.live_globals {
                        assert forall|g: u64|
                            #[trigger] postv.live_globals.contains(g) implies prev.live_globals.contains(
                            g,
                        ) by {
                            if !cur.live_globals.contains(g) {
                                let s0 = cur.backend_data.backends[bi as int];
                                if exists|k: int|
                                    0 <= k < s0.surfaces.len() && (#[trigger] s0.surfaces[k]).crtc
                                        == e.crtc {
                                    let k = choose|k: int|
                                        {
                                            &&& 0 <= k < s0.surfaces.len()
                                            &&& (#[trigger] s0.surfaces[k]).crtc == e.crtc
                                            &&& forall|j: int|
                                                0 <= j < k ==> s0.surfaces[j].crtc != e.crtc
                                            &&& postv.backend_data.backends[bi as int].surfaces
                                                == s0.surfaces.remove(k)
                                            &&& global_revoked(
                                                cur.live_globals,
                                                postv.live_globals,
                                                s0.surfaces[k].id,
                                            )
                                        };
                                    match s0.surfaces[k].id {
                                        Some(g2) => {
                                            if cur.live_globals.contains(g2) {
                                                let gi = choose|gi: int|
                                                    {
                                                        &&& 0 <= gi < cur.live_globals.len()
                                                        &&& cur.live_globals[gi] == g2
                                                        &&& forall|j: int|
                                                            0 <= j < gi ==> cur.live_globals[j]
                                                                != g2
                                                        &&& postv.live_globals
                                                            == cur.live_globals.remove(gi)
                                                    };
                                                lemma_remove_subset(cur.live_globals, gi);
                                                assert(cur.live_globals.contains(g));
                                                assert(false);
                                            }
                                        },
                                        None => {},
                                    }
                                }
                                assert(false);
                            }
                        }
                    }
                }
            }
            t += 1;
        }

        // Drop the device entry itself.
        let ghost cur = self@;
        self.backend_data.backends.remove(bi);
        proof {
            let postv = self@;
            let bs0 = prev.backend_data.backends;
            assert(postv.backend_data.backends =~~= bs0.remove(bi as int)) by {
                assert(cur.backend_data.backends.remove(bi as int) =~~= bs0.remove(bi as int)) by {
                    assert(forall|i: int|
                        0 <= i < bs0.len() && i != bi
                            ==> #[trigger] cur.backend_data.backends[i] == bs0[i]);
                }
                assert(postv.backend_data.backends =~~= cur.backend_data.backends.remove(
                    bi as int,
                ));
            }
            assert(!backend_exists(postv, node)) by {
                assert forall|i: int|
                    0 <= i < postv.backend_data.backends.len() implies (
                #[trigger] postv.backend_data.backends[i]).node != node by {
                    if i < bi {
                        assert(postv.backend_data.backends[i] == bs0[i]);
                    } else {
                        assert(postv.backend_data.backends[i] == bs0[i + 1]);
                    }
                }
            }
            assert(postv.outputs == cur.outputs);
            assert(postv.live_globals == cur.live_globals);
            assert(device_removed_post(prev, postv, node)) by {
                assert(forall|i: int|
                    (0 <= i < bs0.len() && (#[trigger] bs0[i]).node == node) ==> i == bi);
                assert(postv.backend_data.backends == bs0.remove(bi as int));
                assert forall|i: int, t2: int|
                    (0 <= i < bs0.len() && (#[trigger] bs0[i]).node == node && 0 <= t2
                        < bs0[i].scan.len()) implies !output_exists(
                    postv,
                    node,
                    (#[trigger] bs0[i].scan[t2]).crtc,
                ) by {
                    assert(bs0[i].scan == scan0);
                    assert(!output_exists(cur, node, scan0[t2].crtc));
                    if exists|m: int|
                        0 <= m < postv.outputs.len() && output_matches(
                            #[trigger] postv.outputs[m],
                            node,
                            scan0[t2].crtc,
                        ) {
                        let m = choose|m: int|
                            0 <= m < postv.outputs.len() && output_matches(
                                #[trigger] postv.outputs[m],
                                node,
                                scan0[t2].crtc,
                            );
                        assert(output_matches(cur.outputs[m], node, scan0[t2].crtc));
                        assert(false);
                    }
                }
                assert(forall|j: int|
                    (0 <= j < prev.outputs.len() && (#[trigger] prev.outputs[j]).device_id != node)
                        ==> postv.outputs.contains(prev.outputs[j]));
                assert(forall|j: int|
                    0 <= j < postv.outputs.len() ==> prev.outputs.contains(
                        #[trigger] postv.outputs[j],
                    ));
            }
            assert(wf(postv)) by {
                let bsc = cur.backend_data.backends;
                let bsp = postv.backend_data.backends;
                assert(forall|i: int|
                    0 <= i < bsp.len() ==> #[trigger] bsp[i] == (if i < bi {
                        bsc[i]
                    } else {
                        bsc[i + 1]
                    }));
                assert forall|i: int, j: int| 0 <= i < j < bsp.len() implies (
                #[trigger] bsp[i]).node != (#[trigger] bsp[j]).node by {
                    let a: int = if i < bi { i } else { i + 1 };
                    let c: int = if j < bi { j } else { j + 1 };
                    assert(bsp[i] == bsc[a] && bsp[j] == bsc[c] && a < c);
                }
                assert forall|i: int, k: int, i2: int, k2: int|
                    0 <= i < bsp.len() && 0 <= k < bsp[i].surfaces.len() && 0 <= i2 < bsp.len()
                        && 0 <= k2 < bsp[i2].surfaces.len() && !(i == i2 && k == k2) implies ((
                #[trigger] bsp[i].surfaces[k]).id is Some ==> (#[trigger] bsp[i2].surfaces[k2]).id
                    != bsp[i].surfaces[k].id) by {
                    let a: int = if i < bi { i } else { i + 1 };
                    let c: int = if i2 < bi { i2 } else { i2 + 1 };
                    assert(bsp[i] == bsc[a] && bsp[i2] == bsc[c]);
                    assert(bsc[a].surfaces[k].id is Some ==> bsc[c].surfaces[k2].id
                        != bsc[a].surfaces[k].id);
                }
                assert forall|i: int, k: int|
                    0 <= i < bsp.len() && 0 <= k < bsp[i].surfaces.len() implies match (
                #[trigger] bsp[i].surfaces[k]).id {
                    Some(g) => postv.live_globals.contains(g),
                    None => true,
                } by {
                    let a: int = if i < bi { i } else { i + 1 };
                    assert(bsp[i] == bsc[a]);
                    assert(match bsc[a].surfaces[k].id {
                        Some(g) => cur.live_globals.contains(g),
                        None => true,
                    });
                }
            }
        }
    }

    /// Negotiate the dma-buf feedback of a surface that is still without
    /// one, from fresh GPU format queries and the surface's raw plane set.
    /// Feedback is recomputed this way when the device or plane topology
    /// changes after the surface was built.  A surface that already carries
    /// feedback, or a pair that is not driven, is left untouched.
    pub fn update_surface_feedback(
        &mut self,
        node: u64,
        crtc: u64,
        primary_formats: Option<Vec<DrmFormat>>,
        render_formats: Option<Vec<DrmFormat>>,
        planes: &PlaneSet,
    )
        requires
            wf(old(self)@),
        ensures
            wf(final(self)@),
            !surface_exists(old(self)@, node, crtc) ==> final(self)@ == old(self)@,
            forall|i: int, k: int|
                (0 <= i < old(self)@.backend_data.backends.len() && (
                #[trigger] old(self)@.backend_data.backends[i]).node == node && 0 <= k
                    < old(self)@.backend_data.backends[i].surfaces.len() && (
                #[trigger] old(self)@.backend_data.backends[i].surfaces[k]).crtc == crtc) ==> {
                    let srf = old(self)@.backend_data.backends[i].surfaces[k];
                    if srf.dmabuf_feedback is Some {
                        final(self)@ == old(self)@
                    } else {
                        let fb = final(self)@.backend_data.backends[i].surfaces[k].dmabuf_feedback;
                        &&& final(self)@ == (CorrosionView {
                            backend_data: UdevView {
                                backends: old(self)@.backend_data.backends.update(
                                    i,
                                    BackendView {
                                        surfaces: old(
                                            self,
                                        )@.backend_data.backends[i].surfaces.update(
                                            k,
                                            SurfaceView { dmabuf_feedback: fb, ..srf },
                                        ),
                                        ..old(self)@.backend_data.backends[i]
                                    },
                                ),
                                ..old(self)@.backend_data
                            },
                            ..old(self)@
                        })
                        &&& (fb is Some <==> (primary_formats is Some && render_formats is Some))
                        &&& (fb matches Some(p) ==> {
                            &&& p.render_feedback == crate::formats::spec_render_feedback(
                                old(self)@.backend_data.primary_gpu,
                                srf.render_node,
                                primary_formats.unwrap()@,
                                render_formats.unwrap()@,
                            )
                            &&& crate::formats::scanout_feedback_ok(
                                p.scanout_feedback,
                                old(self)@.backend_data.primary_gpu,
                                srf.render_node,
                                node,
                                primary_formats.unwrap()@,
                                render_formats.unwrap()@,
                                planes@,
                            )
                        })
                    }
                },
    {
        let ghost prev = self@;
        let bi = match self.find_backend(node) {
            Some(i) => i,
            None => {
                proof {
                    if surface_exists(prev, node, crtc) {
                        let (i2, k2) = choose|i2: int, k2: int|
                            0 <= i2 < prev.backend_data.backends.len() && (
                            #[trigger] prev.backend_data.backends[i2]).node == node && 0 <= k2
                                < prev.backend_data.backends[i2].surfaces.len() && (
                            #[trigger] prev.backend_data.backends[i2].surfaces[k2]).crtc == crtc;
                        assert(backend_exists(prev, node));
                        assert(false);
                    }
                }
                return;
            },
        };
        let ghost b0 = prev.backend_data.backends[bi as int];
        let mut b = self.backend_data.backends.remove(bi);
        let mut k: usize = 0;
        let mut found = false;
        while k < b.surfaces.len()
            invariant_except_break
                !found,
            invariant
                0 <= k <= b@.surfaces.len(),
                b@ == b0,
                forall|j: int| 0 <= j < k ==> (#[trigger] b0.surfaces[j]).crtc != crtc,
                found ==> k < b0.surfaces.len() && b0.surfaces[k as int].crtc == crtc,
            ensures
                b@ == b0,
                found ==> k < b0.surfaces.len() && b0.surfaces[k as int].crtc == crtc,
                forall|j: int| 0 <= j < k ==> (#[trigger] b0.surfaces[j]).crtc != crtc,
                !found ==> k == b0.surfaces.len(),
            decreases b@.surfaces.len() - k,
        {
            if b.surfaces[k].crtc == crtc {
                found = true;
                break;
            }
            proof {
                assert(b0.surfaces[k as int].crtc != crtc);
            }
            k += 1;
        }
        proof {
            if !found && surface_exists(prev, node, crtc) {
                let (i2, k2) = choose|i2: int, k2: int|
                    0 <= i2 < prev.backend_data.backends.len() && (
                    #[trigger] prev.backend_data.backends[i2]).node == node && 0 <= k2
                        < prev.backend_data.backends[i2].surfaces.len() && (
                    #[trigger] prev.backend_data.backends[i2].surfaces[k2]).crtc == crtc;
                assert(i2 == bi as int);
                assert(false);
            }
        }
        if !found {
            let ghost b1 = b@;
            self.backend_data.backends.insert(bi, b);
            proof {
                assert(self@.backend_data.backends =~~= prev.backend_data.backends);
                assert(self@ =~~= prev);
            }
            return;
        }
        let already = b.surfaces[k].dmabuf_feedback.is_some();
        if already {
            let ghost b1 = b@;
            self.backend_data.backends.insert(bi, b);
            proof {
                assert(self@.backend_data.backends =~~= prev.backend_data.backends);
                assert(self@ =~~= prev);
                assert forall|i: int, k2: int|
                    (0 <= i < prev.backend_data.backends.len() && (
                    #[trigger] prev.backend_data.backends[i]).node == node && 0 <= k2
                        < prev.backend_data.backends[i].surfaces.len() && (
                    #[trigger] prev.backend_data.backends[i].surfaces[k2]).crtc == crtc) implies
                    prev.backend_data.backends[i].surfaces[k2].dmabuf_feedback is Some by {
                    assert(backend_wf(prev.backend_data.backends[i]));
                    assert(i == bi as int && k2 == k as int);
                }
            }
            return;
        }
        let mut s = b.surfaces.remove(k);
        let ghost s0 = s@;
        let fb = get_surface_dmabuf_feedback(
            self.backend_data.primary_gpu,
            s.render_node,
            node,
            primary_formats,
            render_formats,
            planes,
        );
        s.dmabuf_feedback = fb;
        let ghost s1 = s@;
        b.surfaces.insert(k, s);
        proof {
            assert(b@.surfaces =~~= b0.surfaces.update(k as int, s1));
        }
        let ghost b1 = b@;
        self.backend_data.backends.insert(bi, b);
        proof {
            let postv = self@;
            let bs0 = prev.backend_data.backends;
            assert(postv.backend_data.backends =~~= bs0.update(bi as int, b1));
            assert(forall|i: int| 0 <= i < bs0.len() && i != bi ==> (#[trigger] bs0[i]).node != node);
            assert forall|i: int, k2: int|
                (0 <= i < bs0.len() && (#[trigger] bs0[i]).node == node && 0 <= k2
                    < bs0[i].surfaces.len() && (#[trigger] bs0[i].surfaces[k2]).crtc == crtc)
                implies i == bi as int && k2 == k as int by {
                assert(backend_wf(bs0[i]));
            }
            assert(s1 == (SurfaceView { dmabuf_feedback: s1.dmabuf_feedback, ..s0 }));
            assert(postv == (CorrosionView {
                backend_data: UdevView {
                    backends: bs0.update(
                        bi as int,
                        BackendView {
                            surfaces: b0.surfaces.update(
                                k as int,
                                SurfaceView { dmabuf_feedback: s1.dmabuf_feedback, ..s0 },
                            ),
                            ..b0
                        },
                    ),
                    ..prev.backend_data
                },
                ..prev
            })) by {
                assert(b1 =~~= (BackendView {
                    surfaces: b0.surfaces.update(
                        k as int,
                        SurfaceView { dmabuf_feedback: s1.dmabuf_feedback, ..s0 },
                    ),
                    ..b0
                }));
                assert(postv =~~= (CorrosionView {
                    backend_data: UdevView {
                        backends: bs0.update(bi as int, b1),
                        ..prev.backend_data
                    },
                    ..prev
                }));
            }
            assert(wf(postv)) by {
                assert(forall|i: int|
                    0 <= i < bs0.len() && i != bi ==> postv.backend_data.backends[i] == bs0[i]);
                assert(backend_wf(postv.backend_data.backends[bi as int])) by {
                    assert(forall|x: int|
                        0 <= x < b1.surfaces.len() ==> (#[trigger] b1.surfaces[x]).crtc
                            == b0.surfaces[x].crtc && b1.surfaces[x].device_node
                            == b0.surfaces[x].device_node);
                }
                assert(forall|i: int, k2: int|
                    0 <= i < postv.backend_data.backends.len() && 0 <= k2 < (
                    #[trigger] postv.backend_data.backends[i]).surfaces.len() ==> (
                    #[trigger] postv.backend_data.backends[i].surfaces[k2]).id == (
                    bs0[i].surfaces[k2]).id);
            }
        }
    }

    /// Scan the device's connectors: diff the hardware report against the
    /// previous scan, record the new snapshot, and hand the transition
    /// events back.  The caller performs the hardware work each connection
    /// event needs and then feeds `connector_connected` /
    /// `connector_disconnected` with the results, in event order.
    pub fn device_changed(&mut self, node: u64, report: &Vec<ConnectorReport>) -> (events: Vec<
        ScanEvent,
    >)
        requires
            wf(old(self)@),
        ensures
            wf(final(self)@),
            !backend_exists(old(self)@, node) ==> final(self)@ == old(self)@ && events@
                =~= Seq::<ScanEvent>::empty(),
            forall|i: int|
                (0 <= i < old(self)@.backend_data.backends.len() && (
                #[trigger] old(self)@.backend_data.backends[i]).node == node) ==> {
                    let b0 = old(self)@.backend_data.backends[i];
                    &&& events@ == spec_disconnect_events(b0.scan, report@) + spec_connect_events(
                        report@,
                        b0.scan,
                    )
                    &&& final(self)@ == (CorrosionView {
                        backend_data: UdevView {
                            backends: old(self)@.backend_data.backends.update(
                                i,
                                BackendView {
                                    scan: spec_kept_entries(b0.scan, report@)
                                        + spec_connect_entries(report@, b0.scan),
                                    ..b0
                                },
                            ),
                            ..old(self)@.backend_data
                        },
                        ..old(self)@
                    })
                },
    {
        let ghost prev = self@;
        let bi = match self.find_backend(node) {
            Some(i) => i,
            None => {
                return Vec::new();
            },
        };
        let ghost b0 = prev.backend_data.backends[bi as int];
        let mut b = self.backend_data.backends.remove(bi);
        let events = b.scanner.scan_connectors(report);
        let ghost b1 = b@;
        self.backend_data.backends.insert(bi, b);
        proof {
            let postv = self@;
            let bs0 = prev.backend_data.backends;
            assert(b1 =~~= (BackendView {
                scan: spec_kept_entries(b0.scan, report@) + spec_connect_entries(report@, b0.scan),
                ..b0
            }));
            assert(postv.backend_data.backends =~~= bs0.update(bi as int, b1));
            assert(postv =~~= (CorrosionView {
                backend_data: UdevView { backends: bs0.update(bi as int, b1), ..prev.backend_data },
                ..prev
            }));
            assert(forall|i: int| 0 <= i < bs0.len() && i != bi ==> (#[trigger] bs0[i]).node != node);
            assert(wf(postv)) by {
                assert(forall|i: int|
                    0 <= i < bs0.len() && i != bi ==> postv.backend_data.backends[i] == bs0[i]);
                assert(backend_wf(postv.backend_data.backends[bi as int])) by {
                    assert(postv.backend_data.backends[bi as int].surfaces == b0.surfaces);
                    assert(backend_wf(b0));
                }
                assert(forall|i: int, k2: int|
                    0 <= i < postv.backend_data.backends.len() && 0 <= k2 < (
                    #[trigger] postv.backend_data.backends[i]).surfaces.len() ==> (
                    #[trigger] postv.backend_data.backends[i].surfaces[k2]).id == (
                    bs0[i].surfaces[k2]).id);
            }
        }
        events
    }

    /// Queue one initial clear-color frame on the surface keyed
    /// (`node`, `crtc`) and reset its buffers, so double- or
    /// triple-buffered backends have a valid buffer before the repaint loop
    /// begins.  A pair that is not driven is left untouched.
    pub fn schedule_initial_render(&mut self, node: u64, crtc: u64)
        requires
            wf(old(self)@),
        ensures
            wf(final(self)@),
            !surface_exists(old(self)@, node, crtc) ==> final(self)@ == old(self)@,
            forall|i: int, k: int|
                (0 <= i < old(self)@.backend_data.backends.len() && (
                #[trigger] old(self)@.backend_data.backends[i]).node == node && 0 <= k
                    < old(self)@.backend_data.backends[i].surfaces.len() && (
                #[trigger] old(self)@.backend_data.backends[i].surfaces[k]).crtc == crtc)
                    ==> final(self)@ == (CorrosionView {
                    backend_data: UdevView {
                        backends: old(self)@.backend_data.backends.update(
                            i,
                            BackendView {
                                surfaces: old(self)@.backend_data.backends[i].surfaces.update(
                                    k,
                                    SurfaceView {
                                        compositor: CompositionView {
                                            queued: Some(PendingFrame { feedback: None }),
                                            needs_full_redraw: true,
                                            ..old(self)@.backend_data.backends[i].surfaces[k].compositor
                                        },
                                        ..old(self)@.backend_data.backends[i].surfaces[k]
                                    },
                                ),
                                ..old(self)@.backend_data.backends[i]
                            },
                        ),
                        ..old(self)@.backend_data
                    },
                    ..old(self)@
                }),
    {
        let ghost prev = self@;
        let bi = match self.find_backend(node) {
            Some(i) => i,
            None => {
                proof {
                    if surface_exists(prev, node, crtc) {
                        let (i2, k2) = choose|i2: int, k2: int|
                            0 <= i2 < prev.backend_data.backends.len() && (
                            #[trigger] prev.backend_data.backends[i2]).node == node && 0 <= k2
                                < prev.backend_data.backends[i2].surfaces.len() && (
                            #[trigger] prev.backend_data.backends[i2].surfaces[k2]).crtc == crtc;
                        assert(backend_exists(prev, node));
                        assert(false);
                    }
                }
                return;
            },
        };
        let ghost b0 = prev.backend_data.backends[bi as int];
        let mut b = self.backend_data.backends.remove(bi);
        let mut k: usize = 0;
        let mut found = false;
        while k < b.surfaces.len()
            invariant_except_break
                !found,
            invariant
                0 <= k <= b@.surfaces.len(),
                b@ == b0,
                forall|j: int| 0 <= j < k ==> (#[trigger] b0.surfaces[j]).crtc != crtc,
                found ==> k < b0.surfaces.len() && b0.surfaces[k as int].crtc == crtc,
            ensures
                b@ == b0,
                forall|j: int| 0 <= j < k ==> (#[trigger] b0.surfaces[j]).crtc != crtc,
                found ==> k < b0.surfaces.len() && b0.surfaces[k as int].crtc == crtc,
                !found ==> k == b0.surfaces.len(),
            decreases b@.surfaces.len() - k,
        {
            if b.surfaces[k].crtc == crtc {
                found = true;
                break;
            }
            proof {
                assert(b0.surfaces[k as int].crtc != crtc);
            }
            k += 1;
        }
        if found {
            let mut s = b.surfaces.remove(k);
            let ghost s0 = s@;
            // The initial render: an empty clear-color frame is drawn and
            // queued without a feedback token, then the buffers are reset.
            s.compositor.queue_frame(None);
            s.compositor.reset_buffers();
            proof {
                assert(s@ == (SurfaceView {
                    compositor: CompositionView {
                        queued: Some(PendingFrame { feedback: None }),
                        needs_full_redraw: true,
                        ..s0.compositor
                    },
                    ..s0
                }));
            }
            let ghost s1 = s@;
            b.surfaces.insert(k, s);
            proof {
                assert(b@.surfaces =~~= b0.surfaces.update(k as int, s1));
            }
            let ghost b1 = b@;
            self.backend_data.backends.insert(bi, b);
            proof {
                let postv = self@;
                let bs0 = prev.backend_data.backends;
                assert(postv.backend_data.backends =~~= bs0.update(bi as int, b1));
                assert(b1 =~~= (BackendView { surfaces: b0.surfaces.update(k as int, s1), ..b0 }));
                assert(forall|i: int|
                    0 <= i < bs0.len() && i != bi ==> (#[trigger] bs0[i]).node != node);
                assert forall|i: int, k2: int|
                    (0 <= i < bs0.len() && (#[trigger] bs0[i]).node == node && 0 <= k2
                        < bs0[i].surfaces.len() && (#[trigger] bs0[i].surfaces[k2]).crtc == crtc)
                        implies i == bi as int && k2 == k as int by {
                    assert(backend_wf(bs0[i]));
                }
                assert(postv =~~= (CorrosionView {
                    backend_data: UdevView {
                        backends: bs0.update(
                            bi as int,
                            BackendView {
                                surfaces: b0.surfaces.update(
                                    k as int,
                                    SurfaceView {
                                        compositor: CompositionView {
                                            queued: Some(PendingFrame { feedback: None }),
                                            needs_full_redraw: true,
                                            ..b0.surfaces[k as int].compositor
                                        },
                                        ..b0.surfaces[k as int]
                                    },
                                ),
                                ..b0
                            },
                        ),
                        ..prev.backend_data
                    },
                    ..prev
                }));
                assert(wf(postv)) by {
                    assert(forall|i: int|
                        0 <= i < bs0.len() && i != bi ==> postv.backend_data.backends[i] == bs0[i]);
                    assert(backend_wf(postv.backend_data.backends[bi as int])) by {
                        assert(forall|x: int|
                            0 <= x < b1.surfaces.len() ==> (#[trigger] b1.surfaces[x]).crtc == (
                            b0.surfaces[x]).crtc && b1.surfaces[x].device_node
                                == b0.surfaces[x].device_node);
                    }
                    assert(forall|i: int, k2: int|
                        0 <= i < postv.backend_data.backends.len() && 0 <= k2 < (
                        #[trigger] postv.backend_data.backends[i]).surfaces.len() ==> (
                        #[trigger] postv.backend_data.backends[i].surfaces[k2]).id == (
                        bs0[i].surfaces[k2]).id);
                }
            }
        } else {
            proof {
                if surface_exists(prev, node, crtc) {
                    let (i2, k2) = choose|i2: int, k2: int|
                        0 <= i2 < prev.backend_data.backends.len() && (
                        #[trigger] prev.backend_data.backends[i2]).node == node && 0 <= k2
                            < prev.backend_data.backends[i2].surfaces.len() && (
                        #[trigger] prev.backend_data.backends[i2].surfaces[k2]).crtc == crtc;
                    assert(i2 == bi as int);
                    assert(false);
                }
            }
            let ghost b1 = b@;
            self.backend_data.backends.insert(bi, b);
            proof {
                assert(self@.backend_data.backends =~~= prev.backend_data.backends);
                assert(self@ =~~= prev);
            }
        }
    }
}

/// The timestamp a kernel completion event carries: the clock it was read
/// from decides whether it can back a high-precision presentation stamp.
#[derive(Clone, Copy, PartialEq, Eq, Structural, Debug)]
pub enum DrmEventTime {
    Monotonic { micros: u64 },
    Realtime { micros: u64 },
}

/// Metadata of one kernel completion event.
#[derive(Clone, Copy, PartialEq, Eq, Structural, Debug)]
pub struct DrmEventMeta {
    pub time: DrmEventTime,
    pub sequence: u64,
}

/// The hardware timestamp usable for presentation: only a monotonic one.
pub open spec fn hw_time_of(meta: Option<DrmEventMeta>) -> Option<u64> {
    match meta {
        Some(m) => match m.time {
            DrmEventTime::Monotonic { micros } => Some(micros),
            DrmEventTime::Realtime { .. } => None,
        },
        None => None,
    }
}

/// The sequence number of a completion event; 0 when none was delivered.
pub open spec fn sequence_of(meta: Option<DrmEventMeta>) -> u64 {
    match meta {
        Some(m) => m.sequence,
        None => 0,
    }
}

/// Presentation feedback to deliver for a completed frame.
#[derive(Clone, Copy, PartialEq, Eq, Structural, Debug)]
pub struct Presentation {
    /// The presentation-feedback token that was attached at queue time.
    pub feedback_token: u64,
    pub stamp: PresentationStamp,
    pub refresh_hz: u64,
    pub sequence: u64,
}

/// What the repaint loop does after a completion event.
#[derive(Clone, Copy, PartialEq, Eq, Structural, Debug)]
pub enum NextStep {
    /// Arm a repaint timer with this delay (zero fires immediately).
    Timer { delay_micros: u64 },
    /// Do not re-arm; rendering resumes on a later device-changed event.
    Halt,
    /// The render context is lost; the process cannot continue at this
    /// layer.
    Fatal,
}

/// Everything the caller must do after a completion event was handled.
#[derive(Clone, Copy, PartialEq, Eq, Structural, Debug)]
pub struct FrameFinishAction {
    pub presented: Option<Presentation>,
    pub next: NextStep,
}

/// How handling a completion event relates the pipeline state before and
/// after, and what action comes out.  An unknown surface or output halts
/// with nothing changed.  A successful submission takes the queued frame
/// out, stamps its feedback token (hardware clock and flags when the event
/// carried a monotonic timestamp, software clock with vsync alone
/// otherwise), and re-arms the timer: 60% of a refresh interval on the
/// same-GPU path, immediately on the cross-GPU path.  A failure leaves the
/// state untouched and reschedules, halts, or gives up according to its
/// classification.
pub open spec fn frame_finish_post(
    pre: CorrosionView,
    post: CorrosionView,
    node: u64,
    crtc: u64,
    outcome: Result<(), SwapError>,
    meta: Option<DrmEventMeta>,
    now: u64,
    r: FrameFinishAction,
) -> bool {
    &&& (!(surface_exists(pre, node, crtc) && output_exists(pre, node, crtc)) ==> post == pre && r
        == (FrameFinishAction { presented: None, next: NextStep::Halt }))
    &&& ((surface_exists(pre, node, crtc) && output_exists(pre, node, crtc)) ==> forall|
        i: int,
        k: int,
        m: int,
    |
        (0 <= i < pre.backend_data.backends.len() && (
        #[trigger] pre.backend_data.backends[i]).node == node && 0 <= k
            < pre.backend_data.backends[i].surfaces.len() && (
        #[trigger] pre.backend_data.backends[i].surfaces[k]).crtc == crtc && 0 <= m
            < pre.outputs.len() && output_matches(#[trigger] pre.outputs[m], node, crtc)) ==> {
            let srf = pre.backend_data.backends[i].surfaces[k];
            let refresh = pre.outputs[m].mode.refresh_hz;
            let same = pre.backend_data.primary_gpu == srf.render_node;
            let delay: int = if same {
                spec_repaint_delay_micros(refresh)
            } else {
                0
            };
            match outcome {
                Ok(()) => {
                    &&& post == (CorrosionView {
                        backend_data: UdevView {
                            backends: pre.backend_data.backends.update(
                                i,
                                BackendView {
                                    surfaces: pre.backend_data.backends[i].surfaces.update(
                                        k,
                                        SurfaceView {
                                            compositor: CompositionView {
                                                queued: None,
                                                ..srf.compositor
                                            },
                                            ..srf
                                        },
                                    ),
                                    ..pre.backend_data.backends[i]
                                },
                            ),
                            ..pre.backend_data
                        },
                        ..pre
                    })
                    &&& (r.next matches NextStep::Timer { delay_micros } && delay_micros == delay)
                    &&& r.presented == (match srf.compositor.queued {
                        Some(pf) => match pf.feedback {
                            Some(tok) => Some(
                                Presentation {
                                    feedback_token: tok,
                                    stamp: spec_presentation_stamp(hw_time_of(meta), now),
                                    refresh_hz: refresh,
                                    sequence: sequence_of(meta),
                                },
                            ),
                            None => None,
                        },
                        None => None,
                    })
                },
                Err(e) => {
                    &&& post == pre
                    &&& r.presented is None
                    &&& r.next == (match spec_classify_swap_error(e) {
                        CompletionDecision::Reschedule => NextStep::Timer {
                            delay_micros: delay as u64,
                        },
                        CompletionDecision::Halt => NextStep::Halt,
                        CompletionDecision::Fatal => NextStep::Fatal,
                    })
                },
            }
        })
}

impl Corrosion {
    /// Handle a kernel completion event for (`node`, `crtc`).  `outcome` is
    /// the kernel's word on the submitted frame, `meta` the event metadata,
    /// and `now` the compositor clock's reading, used when the event brings
    /// no monotonic hardware timestamp.
    pub fn frame_finish(
        &mut self,
        node: u64,
        crtc: u64,
        outcome: Result<(), SwapError>,
        meta: Option<DrmEventMeta>,
        now: u64,
    ) -> (r: FrameFinishAction)
        requires
            wf(old(self)@),
        ensures
            wf(final(self)@),
            frame_finish_post(old(self)@, final(self)@, node, crtc, outcome, meta, now, r),
    {
        let ghost prev = self@;
        let halt = FrameFinishAction { presented: None, next: NextStep::Halt };
        let bi = match self.find_backend(node) {
            Some(i) => i,
            None => {
                proof {
                    if surface_exists(prev, node, crtc) {
                        let (i2, k2) = choose|i2: int, k2: int|
                            0 <= i2 < prev.backend_data.backends.len() && (
                            #[trigger] prev.backend_data.backends[i2]).node == node && 0 <= k2
                                < prev.backend_data.backends[i2].surfaces.len() && (
                            #[trigger] prev.backend_data.backends[i2].surfaces[k2]).crtc == crtc;
                        assert(backend_exists(prev, node));
                        assert(false);
                    }
                }
                return halt;
            },
        };
        let ghost b0 = prev.backend_data.backends[bi as int];
        if !self.surface_present(bi, crtc) {
            proof {
                if surface_exists(prev, node, crtc) {
                    let (i2, k2) = choose|i2: int, k2: int|
                        0 <= i2 < prev.backend_data.backends.len() && (
                        #[trigger] prev.backend_data.backends[i2]).node == node && 0 <= k2
                            < prev.backend_data.backends[i2].surfaces.len() && (
                        #[trigger] prev.backend_data.backends[i2].surfaces[k2]).crtc == crtc;
                    assert(i2 == bi as int);
                    assert(false);
                }
            }
            return halt;
        }
        let m = match self.space.find_output(node, crtc) {
            Some(m) => m,
            None => {
                proof {
                    assert(!output_exists(prev, node, crtc));
                }
                return halt;
            },
        };
        let refresh_hz = self.space.outputs[m].mode.refresh_hz;
        proof {
            assert(prev.outputs[m as int] == self.space.outputs@[m as int]@);
            assert(output_matches(prev.outputs[m as int], node, crtc));
            assert(refresh_hz > 0);
        }

        // Locate the surface entry.
        let mut b = self.backend_data.backends.remove(bi);
        let mut k: usize = 0;
        let mut found = false;
        while k < b.surfaces.len()
            invariant_except_break
                !found,
            invariant
                0 <= k <= b@.surfaces.len(),
                b@ == b0,
                forall|j: int| 0 <= j < k ==> (#[trigger] b0.surfaces[j]).crtc != crtc,
                found ==> k < b0.surfaces.len() && b0.surfaces[k as int].crtc == crtc,
            ensures
                b@ == b0,
                found ==> k < b0.surfaces.len() && b0.surfaces[k as int].crtc == crtc,
                forall|j: int| 0 <= j < k ==> (#[trigger] b0.surfaces[j]).crtc != crtc,
                !found ==> k == b0.surfaces.len(),
            decreases b@.surfaces.len() - k,
        {
            if b.surfaces[k].crtc == crtc {
                found = true;
                break;
            }
            proof {
                assert(b0.surfaces[k as int].crtc != crtc);
            }
            k += 1;
        }
        proof {
            assert(found) by {
                if !found {
                    let (i2, k2) = choose|i2: int, k2: int|
                        0 <= i2 < prev.backend_data.backends.len() && (
                        #[trigger] prev.backend_data.backends[i2]).node == node && 0 <= k2
                            < prev.backend_data.backends[i2].surfaces.len() && (
                        #[trigger] prev.backend_data.backends[i2].surfaces[k2]).crtc == crtc;
                    assert(i2 == bi as int);
                    assert(false);
                }
            }
        }

        let ghost s0 = b0.surfaces[k as int];
        let same_gpu = self.backend_data.primary_gpu == b.surfaces[k].render_node;
        let delay = repaint_delay_micros(refresh_hz, same_gpu);

        let r: FrameFinishAction;
        match outcome {
            Ok(()) => {
                let mut s = b.surfaces.remove(k);
                let taken = s.compositor.frame_submitted();
                let ghost s1 = s@;
                b.surfaces.insert(k, s);
                proof {
                    assert(b@.surfaces =~~= b0.surfaces.update(k as int, s1));
                }
                let presented = match taken {
                    Some(pf) => match pf.feedback {
                        Some(tok) => Some(
                            Presentation {
                                feedback_token: tok,
                                stamp: presentation_stamp(
                                    match meta {
                                        Some(mt) => match mt.time {
                                            DrmEventTime::Monotonic { micros } => Some(micros),
                                            DrmEventTime::Realtime { .. } => None,
                                        },
                                        None => None,
                                    },
                                    now,
                                ),
                                refresh_hz,
                                sequence: match meta {
                                    Some(mt) => mt.sequence,
                                    None => 0,
                                },
                            },
                        ),
                        None => None,
                    },
                    None => None,
                };
                r = FrameFinishAction {
                    presented,
                    next: NextStep::Timer { delay_micros: delay },
                };
            },
            Err(e) => {
                let decision = classify_swap_error(e);
                let next = match decision {
                    CompletionDecision::Reschedule => NextStep::Timer { delay_micros: delay },
                    CompletionDecision::Halt => NextStep::Halt,
                    CompletionDecision::Fatal => NextStep::Fatal,
                };
                r = FrameFinishAction { presented: None, next };
            },
        }
        let ghost b1 = b@;
        self.backend_data.backends.insert(bi, b);

        proof {
            let postv = self@;
            let bs0 = prev.backend_data.backends;
            assert(postv.backend_data.backends =~~= bs0.update(bi as int, b1));
            assert(forall|i: int| 0 <= i < bs0.len() && i != bi ==> (#[trigger] bs0[i]).node != node);
            assert(surface_exists(prev, node, crtc));
            assert(output_exists(prev, node, crtc));

            // The relation speaks of whichever indices name the pair; by
            // uniqueness they are ours.
            assert forall|i: int, k2: int, m2: int|
                (0 <= i < bs0.len() && (#[trigger] bs0[i]).node == node && 0 <= k2
                    < bs0[i].surfaces.len() && (#[trigger] bs0[i].surfaces[k2]).crtc == crtc && 0
                    <= m2 < prev.outputs.len() && output_matches(
                    #[trigger] prev.outputs[m2],
                    node,
                    crtc,
                )) implies i == bi as int && k2 == k as int && prev.outputs[m2].mode.refresh_hz
                == refresh_hz by {
                assert(backend_wf(bs0[i]));
                assert(i == bi as int && k2 == k as int);
                if m2 != m as int {
                    assert(!(prev.outputs[m2].device_id == prev.outputs[m as int].device_id
                        && prev.outputs[m2].crtc == prev.outputs[m as int].crtc));
                    assert(false);
                }
            }

            match outcome {
                Ok(()) => {
                    assert(postv == (CorrosionView {
                        backend_data: UdevView {
                            backends: bs0.update(
                                bi as int,
                                BackendView {
                                    surfaces: b0.surfaces.update(
                                        k as int,
                                        SurfaceView {
                                            compositor: CompositionView {
                                                queued: None,
                                                ..s0.compositor
                                            },
                                            ..s0
                                        },
                                    ),
                                    ..b0
                                },
                            ),
                            ..prev.backend_data
                        },
                        ..prev
                    })) by {
                        assert(b1 =~~= (BackendView {
                            surfaces: b0.surfaces.update(
                                k as int,
                                SurfaceView {
                                    compositor: CompositionView { queued: None, ..s0.compositor },
                                    ..s0
                                },
                            ),
                            ..b0
                        }));
                        assert(postv =~~= (CorrosionView {
                            backend_data: UdevView {
                                backends: bs0.update(bi as int, b1),
                                ..prev.backend_data
                            },
                            ..prev
                        }));
                    }
                },
                Err(e) => {
                    assert(b1 == b0);
                    assert(postv.backend_data.backends =~~= bs0);
                    assert(postv == prev);
                },
            }
            assert(frame_finish_post(prev, postv, node, crtc, outcome, meta, now, r));

            assert(wf(postv)) by {
                assert(forall|i: int|
                    0 <= i < bs0.len() && i != bi ==> postv.backend_data.backends[i] == bs0[i]);
                assert(backend_wf(postv.backend_data.backends[bi as int])) by {
                    assert(forall|x: int|
                        0 <= x < b1.surfaces.len() ==> (#[trigger] b1.surfaces[x]).crtc
                            == b0.surfaces[x].crtc && b1.surfaces[x].device_node
                            == b0.surfaces[x].device_node);
                }
                assert(forall|i: int, k2: int|
                    0 <= i < postv.backend_data.backends.len() && 0 <= k2 < (
                    #[trigger] postv.backend_data.backends[i]).surfaces.len() ==> (
                    #[trigger] postv.backend_data.backends[i].surfaces[k2]).id == (
                    bs0[i].surfaces[k2]).id);
            }
        }
        r
    }

    /// How the repaint loop acquires a renderer for the surface keyed
    /// (`node`, `crtc`): the direct single-device renderer on the same-GPU
    /// path, the format-converting multi-device renderer (which needs the
    /// allocator) on the cross-GPU path.  `None` when the pair is not
    /// driven.
    pub fn prepare_render(&self, node: u64, crtc: u64) -> (r: Option<RendererChoice>)
        requires
            wf(self@),
        ensures
            r is Some <==> surface_exists(self@, node, crtc),
            forall|i: int, k: int|
                (0 <= i < self@.backend_data.backends.len() && (
                #[trigger] self@.backend_data.backends[i]).node == node && 0 <= k
                    < self@.backend_data.backends[i].surfaces.len() && (
                #[trigger] self@.backend_data.backends[i].surfaces[k]).crtc == crtc) ==> {
                    let srf = self@.backend_data.backends[i].surfaces[k];
                    r == Some(
                        if self@.backend_data.primary_gpu == srf.render_node {
                            RendererChoice::Single { render_node: srf.render_node }
                        } else {
                            RendererChoice::Cross {
                                primary: self@.backend_data.primary_gpu,
                                render_node: srf.render_node,
                                format_code: srf.compositor.format_code,
                            }
                        },
                    )
                },
    {
        let bi = match self.find_backend(node) {
            Some(i) => i,
            None => {
                proof {
                    if surface_exists(self@, node, crtc) {
                        let (i2, k2) = choose|i2: int, k2: int|
                            0 <= i2 < self@.backend_data.backends.len() && (
                            #[trigger] self@.backend_data.backends[i2]).node == node && 0 <= k2
                                < self@.backend_data.backends[i2].surfaces.len() && (
                            #[trigger] self@.backend_data.backends[i2].surfaces[k2]).crtc == crtc;
                        assert(backend_exists(self@, node));
                        assert(false);
                    }
                }
                return None;
            },
        };
        let ghost b0 = self@.backend_data.backends[bi as int];
        let b = &self.backend_data.backends[bi];
        let mut k: usize = 0;
        while k < b.surfaces.len()
            invariant
                0 <= k <= b0.surfaces.len(),
                b@ == b0,
                b0 == self@.backend_data.backends[bi as int],
                bi < self@.backend_data.backends.len(),
                b0.node == node,
                wf(self@),
                forall|j: int| 0 <= j < k ==> (#[trigger] b0.surfaces[j]).crtc != crtc,
            decreases b0.surfaces.len() - k,
        {
            if b.surfaces[k].crtc == crtc {
                let render_node = b.surfaces[k].render_node;
                let primary = self.backend_data.primary_gpu;
                proof {
                    assert(b0.surfaces[k as int].crtc == crtc);
                    assert(surface_exists(self@, node, crtc));
                    assert forall|i: int, k2: int|
                        (0 <= i < self@.backend_data.backends.len() && (
                        #[trigger] self@.backend_data.backends[i]).node == node && 0 <= k2
                            < self@.backend_data.backends[i].surfaces.len() && (
                        #[trigger] self@.backend_data.backends[i].surfaces[k2]).crtc == crtc)
                        implies i == bi as int && k2 == k as int by {
                        assert(backend_wf(self@.backend_data.backends[i]));
                    }
                }
                if primary == render_node {
                    return Some(RendererChoice::Single { render_node });
                } else {
                    let format_code = b.surfaces[k].compositor.format();
                    return Some(
                        RendererChoice::Cross { primary, render_node, format_code },
                    );
                }
            }
            proof {
                assert(b0.surfaces[k as int].crtc != crtc);
            }
            k += 1;
        }
        proof {
            if surface_exists(self@, node, crtc) {
                let (i2, k2) = choose|i2: int, k2: int|
                    0 <= i2 < self@.backend_data.backends.len() && (
                    #[trigger] self@.backend_data.backends[i2]).node == node && 0 <= k2
                        < self@.backend_data.backends[i2].surfaces.len() && (
                    #[trigger] self@.backend_data.backends[i2].surfaces[k2]).crtc == crtc;
                assert(i2 == bi as int);
                assert(false);
            }
        }
        None
    }
}

/// The renderer the repaint loop borrows for one repaint.
#[derive(Clone, Copy, PartialEq, Eq, Structural, Debug)]
pub enum RendererChoice {
    /// Same-GPU fast path: one direct renderer on this node.
    Single { render_node: u64 },
    /// Cross-GPU path: a multi-device renderer converting into the
    /// surface's format, which needs the shared allocator.
    Cross { primary: u64, render_node: u64, format_code: u32 },
}

/// What the repaint loop does after a render-frame call.
#[derive(Clone, Copy, PartialEq, Eq, Structural, Debug)]
pub enum RenderOutcomeAction {
    /// The pair is not driven (or its output is gone); nothing to do.
    Skip,
    /// The frame produced damage and was queued for submission; the next
    /// timer comes from the completion event.
    Queued,
    /// No damage was produced: re-test after about one refresh interval
    /// instead of busy-looping.
    RetryTimer { delay_micros: u64 },
}

/// How applying a render-frame result relates the pipeline state before
/// and after.  Damage queues the frame with its presentation-feedback
/// token; no damage changes nothing and asks for a re-test after roughly
/// one refresh interval.
pub open spec fn render_surface_post(
    pre: CorrosionView,
    post: CorrosionView,
    node: u64,
    crtc: u64,
    rendered: bool,
    feedback_token: u64,
    r: RenderOutcomeAction,
) -> bool {
    &&& (!(surface_exists(pre, node, crtc) && output_exists(pre, node, crtc)) ==> post == pre && r
        == RenderOutcomeAction::Skip)
    &&& ((surface_exists(pre, node, crtc) && output_exists(pre, node, crtc)) ==> forall|
        i: int,
        k: int,
        m: int,
    |
        (0 <= i < pre.backend_data.backends.len() && (
        #[trigger] pre.backend_data.backends[i]).node == node && 0 <= k
            < pre.backend_data.backends[i].surfaces.len() && (
        #[trigger] pre.backend_data.backends[i].surfaces[k]).crtc == crtc && 0 <= m
            < pre.outputs.len() && output_matches(#[trigger] pre.outputs[m], node, crtc)) ==> {
            let srf = pre.backend_data.backends[i].surfaces[k];
            let refresh = pre.outputs[m].mode.refresh_hz;
            if rendered {
                &&& post == (CorrosionView {
                    backend_data: UdevView {
                        backends: pre.backend_data.backends.update(
                            i,
                            BackendView {
                                surfaces: pre.backend_data.backends[i].surfaces.update(
                                    k,
                                    SurfaceView {
                                        compositor: CompositionView {
                                            queued: Some(
                                                PendingFrame { feedback: Some(feedback_token) },
                                            ),
                                            ..srf.compositor
                                        },
                                        ..srf
                                    },
                                ),
                                ..pre.backend_data.backends[i]
                            },
                        ),
                        ..pre.backend_data
                    },
                    ..pre
                })
                &&& r == RenderOutcomeAction::Queued
            } else {
                &&& post == pre
                &&& (r matches RenderOutcomeAction::RetryTimer { delay_micros } && delay_micros
                    == spec_retry_delay_micros(refresh))
            }
        })
}

impl Corrosion {
    /// Apply the result of a render-frame call on (`node`, `crtc`).
    /// `rendered` says whether the render produced damage; when it did,
    /// `feedback_token` is the presentation-feedback token to attach to the
    /// queued frame.  Without damage a re-test timer of about one refresh
    /// interval is requested instead of queueing.
    pub fn render_surface(
        &mut self,
        node: u64,
        crtc: u64,
        rendered: bool,
        feedback_token: u64,
    ) -> (r: RenderOutcomeAction)
        requires
            wf(old(self)@),
        ensures
            wf(final(self)@),
            render_surface_post(
                old(self)@,
                final(self)@,
                node,
                crtc,
                rendered,
                feedback_token,
                r,
            ),
    {
        let ghost prev = self@;
        let bi = match self.find_backend(node) {
            Some(i) => i,
            None => {
                proof {
                    if surface_exists(prev, node, crtc) {
                        let (i2, k2) = choose|i2: int, k2: int|
                            0 <= i2 < prev.backend_data.backends.len() && (
                            #[trigger] prev.backend_data.backends[i2]).node == node && 0 <= k2
                                < prev.backend_data.backends[i2].surfaces.len() && (
                            #[trigger] prev.backend_data.backends[i2].surfaces[k2]).crtc == crtc;
                        assert(backend_exists(prev, node));
                        assert(false);
                    }
                }
                return RenderOutcomeAction::Skip;
            },
        };
        let ghost b0 = prev.backend_data.backends[bi as int];
        if !self.surface_present(bi, crtc) {
            proof {
                if surface_exists(prev, node, crtc) {
                    let (i2, k2) = choose|i2: int, k2: int|
                        0 <= i2 < prev.backend_data.backends.len() && (
                        #[trigger] prev.backend_data.backends[i2]).node == node && 0 <= k2
                            < prev.backend_data.backends[i2].surfaces.len() && (
                        #[trigger] prev.backend_data.backends[i2].surfaces[k2]).crtc == crtc;
                    assert(i2 == bi as int);
                    assert(false);
                }
            }
            return RenderOutcomeAction::Skip;
        }
        let m = match self.space.find_output(node, crtc) {
            Some(m) => m,
            None => {
                proof {
                    assert(!output_exists(prev, node, crtc));
                }
                return RenderOutcomeAction::Skip;
            },
        };
        let refresh_hz = self.space.outputs[m].mode.refresh_hz;
        proof {
            assert(prev.outputs[m as int] == self.space.outputs@[m as int]@);
            assert(output_matches(prev.outputs[m as int], node, crtc));
            assert(refresh_hz > 0);
            assert(surface_exists(prev, node, crtc));
            assert(output_exists(prev, node, crtc));
        }

        if !rendered {
            let delay = retry_delay_micros(refresh_hz);
            proof {
                assert forall|i: int, k2: int, m2: int|
                    (0 <= i < prev.backend_data.backends.len() && (
                    #[trigger] prev.backend_data.backends[i]).node == node && 0 <= k2
                        < prev.backend_data.backends[i].surfaces.len() && (
                    #[trigger] prev.backend_data.backends[i].surfaces[k2]).crtc == crtc && 0 <= m2
                        < prev.outputs.len() && output_matches(
                        #[trigger] prev.outputs[m2],
                        node,
                        crtc,
                    )) implies prev.outputs[m2].mode.refresh_hz == refresh_hz by {
                    if m2 != m as int {
                        assert(!(prev.outputs[m2].device_id == prev.outputs[m as int].device_id
                            && prev.outputs[m2].crtc == prev.outputs[m as int].crtc));
                        assert(false);
                    }
                }
            }
            return RenderOutcomeAction::RetryTimer { delay_micros: delay };
        }

        // Queue the damaged frame with its feedback token.
        let mut b = self.backend_data.backends.remove(bi);
        let mut k: usize = 0;
        let mut found = false;
        while k < b.surfaces.len()
            invariant_except_break
                !found,
            invariant
                0 <= k <= b@.surfaces.len(),
                b@ == b0,
                forall|j: int| 0 <= j < k ==> (#[trigger] b0.surfaces[j]).crtc != crtc,
                found ==> k < b0.surfaces.len() && b0.surfaces[k as int].crtc == crtc,
            ensures
                b@ == b0,
                found ==> k < b0.surfaces.len() && b0.surfaces[k as int].crtc == crtc,
                forall|j: int| 0 <= j < k ==> (#[trigger] b0.surfaces[j]).crtc != crtc,
                !found ==> k == b0.surfaces.len(),
            decreases b@.surfaces.len() - k,
        {
            if b.surfaces[k].crtc == crtc {
                found = true;
                break;
            }
            proof {
                assert(b0.surfaces[k as int].crtc != crtc);
            }
            k += 1;
        }
        proof {
            assert(found) by {
                if !found {
                    let (i2, k2) = choose|i2: int, k2: int|
                        0 <= i2 < prev.backend_data.backends.len() && (
                        #[trigger] prev.backend_data.backends[i2]).node == node && 0 <= k2
                            < prev.backend_data.backends[i2].surfaces.len() && (
                        #[trigger] prev.backend_data.backends[i2].surfaces[k2]).crtc == crtc;
                    assert(i2 == bi as int);
                    assert(false);
                }
            }
        }
        let ghost s0 = b0.surfaces[k as int];
        let mut s = b.surfaces.remove(k);
        s.compositor.queue_frame(Some(feedback_token));
        let ghost s1 = s@;
        b.surfaces.insert(k, s);
        proof {
            assert(b@.surfaces =~~= b0.surfaces.update(k as int, s1));
        }
        let ghost b1 = b@;
        self.backend_data.backends.insert(bi, b);
        proof {
            let postv = self@;
            let bs0 = prev.backend_data.backends;
            assert(postv.backend_data.backends =~~= bs0.update(bi as int, b1));
            assert(forall|i: int| 0 <= i < bs0.len() && i != bi ==> (#[trigger] bs0[i]).node != node);
            assert forall|i: int, k2: int, m2: int|
                (0 <= i < bs0.len() && (#[trigger] bs0[i]).node == node && 0 <= k2
                    < bs0[i].surfaces.len() && (#[trigger] bs0[i].surfaces[k2]).crtc == crtc && 0
                    <= m2 < prev.outputs.len() && output_matches(
                    #[trigger] prev.outputs[m2],
                    node,
                    crtc,
                )) implies i == bi as int && k2 == k as int by {
                assert(backend_wf(bs0[i]));
            }
            assert(postv == (CorrosionView {
                backend_data: UdevView {
                    backends: bs0.update(
                        bi as int,
                        BackendView {
                            surfaces: b0.surfaces.update(
                                k as int,
                                SurfaceView {
                                    compositor: CompositionView {
                                        queued: Some(
                                            PendingFrame { feedback: Some(feedback_token) },
                                        ),
                                        ..s0.compositor
                                    },
                                    ..s0
                                },
                            ),
                            ..b0
                        },
                    ),
                    ..prev.backend_data
                },
                ..prev
            })) by {
                assert(b1 =~~= (BackendView {
                    surfaces: b0.surfaces.update(
                        k as int,
                        SurfaceView {
                            compositor: CompositionView {
                                queued: Some(PendingFrame { feedback: Some(feedback_token) }),
                                ..s0.compositor
                            },
                            ..s0
                        },
                    ),
                    ..b0
                }));
                assert(postv =~~= (CorrosionView {
                    backend_data: UdevView {
                        backends: bs0.update(bi as int, b1),
                        ..prev.backend_data
                    },
                    ..prev
                }));
            }
            assert(wf(postv)) by {
                assert(forall|i: int|
                    0 <= i < bs0.len() && i != bi ==> postv.backend_data.backends[i] == bs0[i]);
                assert(backend_wf(postv.backend_data.backends[bi as int])) by {
                    assert(forall|x: int|
                        0 <= x < b1.surfaces.len() ==> (#[trigger] b1.surfaces[x]).crtc
                            == b0.surfaces[x].crtc && b1.surfaces[x].device_node
                            == b0.surfaces[x].device_node);
                }
                assert(forall|i: int, k2: int|
                    0 <= i < postv.backend_data.backends.len() && 0 <= k2 < (
                    #[trigger] postv.backend_data.backends[i]).surfaces.len() ==> (
                    #[trigger] postv.backend_data.backends[i].surfaces[k2]).id == (
                    bs0[i].surfaces[k2]).id);
            }
        }
        RenderOutcomeAction::Queued
    }

    /// The uploaded texture cached for a cursor image, if one is cached.
    pub fn cursor_texture(&self, image: u64) -> (r: Option<u64>)
        ensures
            r is Some <==> exists|i: int|
                0 <= i < self@.backend_data.cursor_images.len() && (
                #[trigger] self@.backend_data.cursor_images[i]).0 == image,
            r matches Some(t) ==> exists|i: int|
                0 <= i < self@.backend_data.cursor_images.len()
                    && #[trigger] self@.backend_data.cursor_images[i] == (image, t),
    {
        let mut i: usize = 0;
        while i < self.backend_data.cursor_images.len()
            invariant
                0 <= i <= self@.backend_data.cursor_images.len(),
                self.backend_data.cursor_images@ == self@.backend_data.cursor_images,
                forall|j: int|
                    0 <= j < i ==> (#[trigger] self@.backend_data.cursor_images[j]).0 != image,
            decreases self@.backend_data.cursor_images.len() - i,
        {
            if self.backend_data.cursor_images[i].0 == image {
                let t = self.backend_data.cursor_images[i].1;
                proof {
                    assert(self@.backend_data.cursor_images[i as int] == (image, t));
                }
                return Some(t);
            }
            proof {
                assert(self@.backend_data.cursor_images[i as int].0 != image);
            }
            i += 1;
        }
        None
    }

    /// Cache the uploaded texture of a cursor image.  The cache is
    /// append-only within a session: an image already cached keeps its
    /// first texture.
    pub fn insert_cursor_texture(&mut self, image: u64, texture: u64)
        ensures
            (exists|i: int|
                0 <= i < old(self)@.backend_data.cursor_images.len() && (
                #[trigger] old(self)@.backend_data.cursor_images[i]).0 == image) ==> final(self)@
                == old(self)@,
            !(exists|i: int|
                0 <= i < old(self)@.backend_data.cursor_images.len() && (
                #[trigger] old(self)@.backend_data.cursor_images[i]).0 == image) ==> final(self)@
                == (CorrosionView {
                backend_data: UdevView {
                    cursor_images: old(self)@.backend_data.cursor_images.push((image, texture)),
                    ..old(self)@.backend_data
                },
                ..old(self)@
            }),
            wf(old(self)@) ==> wf(final(self)@),
    {
        let ghost prev = self@;
        match self.cursor_texture(image) {
            Some(_) => {},
            None => {
                self.backend_data.cursor_images.push((image, texture));
                proof {
                    assert(self@.backend_data.cursor_images =~= prev.backend_data.cursor_images.push(
                        (image, texture),
                    ));
                    assert(self@ == (CorrosionView {
                        backend_data: UdevView {
                            cursor_images: prev.backend_data.cursor_images.push((image, texture)),
                            ..prev.backend_data
                        },
                        ..prev
                    }));
                }
            },
        }
    }
}

/// Choose the primary GPU for the process: the one the hardware enumerator
/// reports as primary when it resolves, else the first of all GPUs found on
/// the seat, else none.
pub fn choose_primary_gpu(primary: Option<u64>, all_gpus: &Vec<u64>) -> (r: Option<u64>)
    ensures
        primary is Some ==> r == primary,
        (primary is None && all_gpus@.len() > 0) ==> r == Some(all_gpus@[0]),
        (primary is None && all_gpus@.len() == 0) ==> r is None,
{
    match primary {
        Some(p) => Some(p),
        None => {
            if all_gpus.len() > 0 {
                Some(all_gpus[0])
            } else {
                None
            }
        },
    }
}

/// Resolve the GPU a device renders on: the render node the display driver
/// found, or the mode-setting device itself when none resolved.
pub fn resolve_render_node(node: u64, egl_render_node: Option<u64>) -> (r: u64)
    ensures
        egl_render_node matches Some(n) ==> r == n,
        egl_render_node is None ==> r == node,
{
    match egl_render_node {
        Some(n) => n,
        None => node,
    }
}

impl Corrosion {
    /// Device-inactive is non-terminal: a completion error classified as
    /// "device inactive" leaves every surface entry (and the rest of the
    /// pipeline state) exactly in place, delivers no presentation, and arms
    /// no new repaint timer — rendering resumes through a later
    /// device-changed event.
    pub proof fn lemma_device_inactive_non_terminal(
        pre: CorrosionView,
        post: CorrosionView,
        node: u64,
        crtc: u64,
        meta: Option<DrmEventMeta>,
        now: u64,
        r: FrameFinishAction,
    )
        requires
            frame_finish_post(
                pre,
                post,
                node,
                crtc,
                Err(SwapError::DeviceInactive),
                meta,
                now,
                r,
            ),
        ensures
            post == pre,
            r.next == NextStep::Halt,
            r.presented is None,
    {
        if surface_exists(pre, node, crtc) && output_exists(pre, node, crtc) {
            let (i, k) = choose|i: int, k: int|
                0 <= i < pre.backend_data.backends.len() && (
                #[trigger] pre.backend_data.backends[i]).node == node && 0 <= k
                    < pre.backend_data.backends[i].surfaces.len() && (
                #[trigger] pre.backend_data.backends[i].surfaces[k]).crtc == crtc;
            let m = choose|m: int|
                0 <= m < pre.outputs.len() && output_matches(#[trigger] pre.outputs[m], node, crtc);
            assert(spec_classify_swap_error(SwapError::DeviceInactive) == CompletionDecision::Halt);
        }
    }
}

} // verus!
