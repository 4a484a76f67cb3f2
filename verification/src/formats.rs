//! dma-buf formats and feedback negotiation.
//!
//! A surface advertises two feedback sets to clients: a generic render set
//! (primary GPU formats, with the render GPU's formats as a preference
//! tranche) and a scanout set (the plane-supported formats first, tagged
//! scanout, then the render GPU's formats as fallback).  Both are pure
//! functions of the format sets the GPUs and planes report.

use vstd::prelude::*;

verus! {

broadcast use vstd::seq_lib::lemma_seq_contains_after_push;

/// One dma-buf format: a fourcc code paired with a layout modifier.
#[derive(Clone, Copy, PartialEq, Eq, Structural, Debug)]
pub struct DrmFormat {
    pub code: u32,
    pub modifier: u64,
}

/// True when the sequence holds no format twice.
pub open spec fn unique_formats(s: Seq<DrmFormat>) -> bool {
    forall|i: int, j: int| 0 <= i < j < s.len() ==> s[i] != s[j]
}

/// Whether `fmt` occurs in `set`.
pub fn format_set_contains(set: &Vec<DrmFormat>, fmt: DrmFormat) -> (found: bool)
    ensures
        found == set@.contains(fmt),
{
    let mut i: usize = 0;
    while i < set.len()
        invariant
            0 <= i <= set@.len(),
            forall|j: int| 0 <= j < i ==> set@[j] != fmt,
        decreases set@.len() - i,
    {
        if set[i].code == fmt.code && set[i].modifier == fmt.modifier {
            assert(set@[i as int] == fmt);
            return true;
        }
        i += 1;
    }
    false
}

/// Union of two format sets, with duplicates dropped.
pub fn union_formats(a: &Vec<DrmFormat>, b: &Vec<DrmFormat>) -> (r: Vec<DrmFormat>)
    ensures
        unique_formats(r@),
        forall|f: DrmFormat| #[trigger] r@.contains(f) <==> a@.contains(f) || b@.contains(f),
{
    let mut r: Vec<DrmFormat> = Vec::new();
    let mut i: usize = 0;
    while i < a.len()
        invariant
            0 <= i <= a@.len(),
            unique_formats(r@),
            forall|f: DrmFormat| #[trigger] r@.contains(f) <==> a@.take(i as int).contains(f),
        decreases a@.len() - i,
    {
        let f = a[i];
        if !format_set_contains(&r, f) {
            r.push(f);
        }
        assert(a@.take(i + 1).drop_last() =~= a@.take(i as int));
        assert(forall|g: DrmFormat| a@.take(i + 1).contains(g) <==> a@.take(
            i as int,
        ).contains(g) || g == a@[i as int]) by {
            assert(forall|g: DrmFormat| #[trigger] a@.take(i + 1).contains(g) ==> a@.take(
                i + 1,
            ).last() == g || a@.take(i + 1).drop_last().contains(g));
            assert(forall|g: DrmFormat| #[trigger] a@.take(i as int).contains(g) ==> a@.take(
                i + 1,
            ).contains(g));
            assert(a@.take(i + 1)[i as int] == a@[i as int]);
        }
        i += 1;
    }
    assert(a@.take(a@.len() as int) =~= a@);
    let mut j: usize = 0;
    while j < b.len()
        invariant
            0 <= j <= b@.len(),
            unique_formats(r@),
            forall|f: DrmFormat| #[trigger] r@.contains(f) <==> a@.contains(f) || b@.take(
                j as int,
            ).contains(f),
        decreases b@.len() - j,
    {
        let f = b[j];
        if !format_set_contains(&r, f) {
            r.push(f);
        }
        assert(b@.take(j + 1).drop_last() =~= b@.take(j as int));
        assert(forall|g: DrmFormat| b@.take(j + 1).contains(g) <==> b@.take(
            j as int,
        ).contains(g) || g == b@[j as int]) by {
            assert(forall|g: DrmFormat| #[trigger] b@.take(j + 1).contains(g) ==> b@.take(
                j + 1,
            ).last() == g || b@.take(j + 1).drop_last().contains(g));
            assert(forall|g: DrmFormat| #[trigger] b@.take(j as int).contains(g) ==> b@.take(
                j + 1,
            ).contains(g));
            assert(b@.take(j + 1)[j as int] == b@[j as int]);
        }
        j += 1;
    }
    assert(b@.take(b@.len() as int) =~= b@);
    r
}

/// Intersection of two format sets, with duplicates dropped.
pub fn intersect_formats(a: &Vec<DrmFormat>, b: &Vec<DrmFormat>) -> (r: Vec<DrmFormat>)
    ensures
        unique_formats(r@),
        forall|f: DrmFormat| #[trigger] r@.contains(f) <==> a@.contains(f) && b@.contains(f),
{
    let mut r: Vec<DrmFormat> = Vec::new();
    let mut i: usize = 0;
    while i < a.len()
        invariant
            0 <= i <= a@.len(),
            unique_formats(r@),
            forall|f: DrmFormat| #[trigger] r@.contains(f) <==> a@.take(i as int).contains(f)
                && b@.contains(f),
        decreases a@.len() - i,
    {
        let f = a[i];
        if format_set_contains(b, f) && !format_set_contains(&r, f) {
            r.push(f);
        }
        assert(a@.take(i + 1).drop_last() =~= a@.take(i as int));
        assert(forall|g: DrmFormat| a@.take(i + 1).contains(g) <==> a@.take(
            i as int,
        ).contains(g) || g == a@[i as int]) by {
            assert(forall|g: DrmFormat| #[trigger] a@.take(i + 1).contains(g) ==> a@.take(
                i + 1,
            ).last() == g || a@.take(i + 1).drop_last().contains(g));
            assert(forall|g: DrmFormat| #[trigger] a@.take(i as int).contains(g) ==> a@.take(
                i + 1,
            ).contains(g));
            assert(a@.take(i + 1)[i as int] == a@[i as int]);
        }
        i += 1;
    }
    assert(a@.take(a@.len() as int) =~= a@);
    r
}

/// One hardware plane: its handle and the formats it can scan out.
#[derive(Clone, Debug)]
pub struct PlaneInfo {
    pub handle: u64,
    pub formats: Vec<DrmFormat>,
}

/// The planes of one mode-setting surface: the primary plane and the
/// overlay planes the display controller offers.
#[derive(Clone, Debug)]
pub struct PlaneSet {
    pub primary: PlaneInfo,
    pub overlay: Vec<PlaneInfo>,
}

/// Mathematical image of a `PlaneInfo`.
#[verifier::ext_equal]
pub ghost struct PlaneInfoView {
    pub handle: u64,
    pub formats: Seq<DrmFormat>,
}

impl View for PlaneInfo {
    type V = PlaneInfoView;

    open spec fn view(&self) -> PlaneInfoView {
        PlaneInfoView { handle: self.handle, formats: self.formats@ }
    }
}

/// Mathematical image of a `PlaneSet`.
#[verifier::ext_equal]
pub ghost struct PlaneSetView {
    pub primary: PlaneInfoView,
    pub overlay: Seq<PlaneInfoView>,
}

impl View for PlaneSet {
    type V = PlaneSetView;

    open spec fn view(&self) -> PlaneSetView {
        PlaneSetView {
            primary: self.primary@,
            overlay: self.overlay@.map_values(|p: PlaneInfo| p@),
        }
    }
}

/// Whether any plane of the set (primary or overlay) supports `f`.
pub open spec fn plane_formats_contain(planes: PlaneSetView, f: DrmFormat) -> bool {
    planes.primary.formats.contains(f) || exists|j: int|
        0 <= j < planes.overlay.len() && #[trigger] planes.overlay[j].formats.contains(f)
}

/// One preference tranche of a feedback set: a target device, the formats
/// it favours, and whether the tranche is tagged scanout-preferred.
#[derive(Clone, Debug)]
pub struct FeedbackTranche {
    pub target_device: u64,
    pub scanout: bool,
    pub formats: Vec<DrmFormat>,
}

/// Mathematical image of a `FeedbackTranche`.
#[verifier::ext_equal]
pub ghost struct TrancheView {
    pub target_device: u64,
    pub scanout: bool,
    pub formats: Seq<DrmFormat>,
}

impl View for FeedbackTranche {
    type V = TrancheView;

    open spec fn view(&self) -> TrancheView {
        TrancheView {
            target_device: self.target_device,
            scanout: self.scanout,
            formats: self.formats@,
        }
    }
}

/// One dma-buf feedback set: the main device with its base formats, plus
/// preference tranches in decreasing priority order.  The base formats act
/// as the final fallback tranche.
#[derive(Clone, Debug)]
pub struct DmabufFeedback {
    pub main_device: u64,
    pub main_formats: Vec<DrmFormat>,
    pub tranches: Vec<FeedbackTranche>,
}

/// Mathematical image of a `DmabufFeedback`.
#[verifier::ext_equal]
pub ghost struct FeedbackView {
    pub main_device: u64,
    pub main_formats: Seq<DrmFormat>,
    pub tranches: Seq<TrancheView>,
}

impl View for DmabufFeedback {
    type V = FeedbackView;

    open spec fn view(&self) -> FeedbackView {
        FeedbackView {
            main_device: self.main_device,
            main_formats: self.main_formats@,
            tranches: self.tranches@.map_values(|t: FeedbackTranche| t@),
        }
    }
}

/// The negotiated feedback pair of one surface: a generic render set and a
/// scanout-optimized set.
#[derive(Clone, Debug)]
pub struct DrmSurfaceDmabufFeedback {
    pub render_feedback: DmabufFeedback,
    pub scanout_feedback: DmabufFeedback,
}

/// Mathematical image of a `DrmSurfaceDmabufFeedback`.
#[verifier::ext_equal]
pub ghost struct FeedbackPairView {
    pub render_feedback: FeedbackView,
    pub scanout_feedback: FeedbackView,
}

impl View for DrmSurfaceDmabufFeedback {
    type V = FeedbackPairView;

    open spec fn view(&self) -> FeedbackPairView {
        FeedbackPairView {
            render_feedback: self.render_feedback@,
            scanout_feedback: self.scanout_feedback@,
        }
    }
}

/// The render feedback set: primary GPU as the main device with its own
/// formats, and a single tranche carrying the render GPU's formats.
pub open spec fn spec_render_feedback(
    primary_node: u64,
    render_node: u64,
    pf: Seq<DrmFormat>,
    rf: Seq<DrmFormat>,
) -> FeedbackView {
    FeedbackView {
        main_device: primary_node,
        main_formats: pf,
        tranches: seq![
            TrancheView { target_device: render_node, scanout: false, formats: rf },
        ],
    }
}

/// What the scanout feedback set must look like: same main device, then a
/// scanout-tagged tranche (the plane formats intersected with everything
/// either GPU supports, targeting the surface's display device) followed by
/// the render GPU tranche as fallback.
pub open spec fn scanout_feedback_ok(
    fb: FeedbackView,
    primary_node: u64,
    render_node: u64,
    surface_device: u64,
    pf: Seq<DrmFormat>,
    rf: Seq<DrmFormat>,
    planes: PlaneSetView,
) -> bool {
    &&& fb.main_device == primary_node
    &&& fb.main_formats == pf
    &&& fb.tranches.len() == 2
    &&& fb.tranches[0].target_device == surface_device
    &&& fb.tranches[0].scanout == true
    &&& unique_formats(fb.tranches[0].formats)
    &&& forall|f: DrmFormat|
        #[trigger] fb.tranches[0].formats.contains(f) <==> plane_formats_contain(planes, f) && (
        pf.contains(f) || rf.contains(f))
    &&& fb.tranches[1] == TrancheView { target_device: render_node, scanout: false, formats: rf }
}

/// Negotiate the feedback pair of one surface.
///
/// `primary_formats` and `render_formats` are what the primary GPU's and the
/// render GPU's contexts reported, `None` when the query failed; a missing
/// query aborts the whole computation, since partial feedback would mislead
/// clients.  `surface_device` is the display device that owns the surface,
/// and `planes` its plane set.
pub fn get_surface_dmabuf_feedback(
    primary_node: u64,
    render_node: u64,
    surface_device: u64,
    primary_formats: Option<Vec<DrmFormat>>,
    render_formats: Option<Vec<DrmFormat>>,
    planes: &PlaneSet,
) -> (r: Option<DrmSurfaceDmabufFeedback>)
    ensures
        r is Some <==> (primary_formats is Some && render_formats is Some),
        r matches Some(fb) ==> fb.render_feedback@ == spec_render_feedback(
            primary_node,
            render_node,
            primary_formats.unwrap()@,
            render_formats.unwrap()@,
        ),
        r matches Some(fb) ==> scanout_feedback_ok(
            fb.scanout_feedback@,
            primary_node,
            render_node,
            surface_device,
            primary_formats.unwrap()@,
            render_formats.unwrap()@,
            planes@,
        ),
{
    let pf = match primary_formats {
        Some(v) => v,
        None => {
            return None;
        },
    };
    let rf = match render_formats {
        Some(v) => v,
        None => {
            return None;
        },
    };
    let all_render_formats = union_formats(&pf, &rf);

    let empty: Vec<DrmFormat> = Vec::new();
    let mut plane_union = union_formats(&planes.primary.formats, &empty);
    let mut k: usize = 0;
    while k < planes.overlay.len()
        invariant
            0 <= k <= planes.overlay@.len(),
            planes@.overlay.len() == planes.overlay@.len(),
            unique_formats(plane_union@),
            forall|f: DrmFormat| #[trigger]
                plane_union@.contains(f) <==> planes@.primary.formats.contains(f) || exists|j: int|
                    0 <= j < k && #[trigger] planes@.overlay[j].formats.contains(f),
        decreases planes.overlay@.len() - k,
    {
        assert(planes@.overlay[k as int] == planes.overlay@[k as int]@);
        plane_union = union_formats(&plane_union, &planes.overlay[k].formats);
        proof {
            assert forall|f: DrmFormat| #[trigger] plane_union@.contains(f) implies
                planes@.primary.formats.contains(f) || exists|j: int|
                    0 <= j < k + 1 && #[trigger] planes@.overlay[j].formats.contains(f) by {
                if planes@.overlay[k as int].formats.contains(f) {
                    assert(0 <= k < k + 1 && planes@.overlay[k as int].formats.contains(f));
                }
            }
            assert forall|f: DrmFormat|
                planes@.primary.formats.contains(f) || (exists|j: int|
                    0 <= j < k + 1 && #[trigger] planes@.overlay[j].formats.contains(f)) implies
                #[trigger] plane_union@.contains(f) by {}
        }
        k += 1;
    }
    let planes_formats = intersect_formats(&plane_union, &all_render_formats);
    assert(forall|f: DrmFormat| #[trigger] planes_formats@.contains(f) <==> plane_formats_contain(
        planes@,
        f,
    ) && (pf@.contains(f) || rf@.contains(f)));

    let render_feedback = DmabufFeedback {
        main_device: primary_node,
        main_formats: pf.clone(),
        tranches: vec![
            FeedbackTranche { target_device: render_node, scanout: false, formats: rf.clone() },
        ],
    };
    let scanout_feedback = DmabufFeedback {
        main_device: primary_node,
        main_formats: pf,
        tranches: vec![
            FeedbackTranche { target_device: surface_device, scanout: true, formats: planes_formats },
            FeedbackTranche { target_device: render_node, scanout: false, formats: rf },
        ],
    };
    assert(render_feedback@.tranches =~= spec_render_feedback(
        primary_node,
        render_node,
        render_feedback.main_formats@,
        render_feedback.tranches@[0].formats@,
    ).tranches);
    Some(DrmSurfaceDmabufFeedback { render_feedback, scanout_feedback })
}

/// Feedback negotiation is deterministic: any two scanout feedback sets
/// negotiated from the same primary-GPU, render-GPU and plane format sets
/// carry the same devices, the same format sets, and the same tranche
/// ordering, with the scanout-tagged tranche always preceding the render-GPU
/// fallback tranche.
pub proof fn lemma_feedback_negotiation_deterministic(
    a: FeedbackView,
    b: FeedbackView,
    primary_node: u64,
    render_node: u64,
    surface_device: u64,
    pf: Seq<DrmFormat>,
    rf: Seq<DrmFormat>,
    planes: PlaneSetView,
)
    requires
        scanout_feedback_ok(a, primary_node, render_node, surface_device, pf, rf, planes),
        scanout_feedback_ok(b, primary_node, render_node, surface_device, pf, rf, planes),
    ensures
        a.main_device == b.main_device,
        a.main_formats == b.main_formats,
        a.tranches.len() == 2 && b.tranches.len() == 2,
        a.tranches[0].scanout && !a.tranches[1].scanout,
        a.tranches[0].target_device == b.tranches[0].target_device,
        a.tranches[0].formats.to_set() == b.tranches[0].formats.to_set(),
        a.tranches[1] == b.tranches[1],
{
    assert(a.tranches[0].formats.to_set() =~= b.tranches[0].formats.to_set()) by {
        assert(forall|f: DrmFormat| #[trigger] a.tranches[0].formats.contains(f)
            <==> b.tranches[0].formats.contains(f));
    }
}

} // verus!
