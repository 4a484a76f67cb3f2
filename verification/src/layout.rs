//! Logical outputs and the horizontal strip layout.
//!
//! Every newly connected output is placed immediately to the right of all
//! outputs mapped so far: its x-origin is the sum of their mode widths and
//! its y-origin is zero.  Outputs are matched for removal by composite
//! identity (device id, controller handle), never by pointer equality.

use vstd::prelude::*;

verus! {

/// One display mode: size in pixels and the vertical refresh rate in hertz.
/// `preferred` marks the mode the connector reports as preferred.
#[derive(Clone, Copy, PartialEq, Eq, Structural, Debug)]
pub struct OutputMode {
    pub width: i32,
    pub height: i32,
    pub refresh_hz: u64,
    pub preferred: bool,
}

/// One logical output mapped into the compositor's output space.
///
/// The protocol-visible name is derived as `interface_name` + "-" +
/// `interface_id`; the two parts are kept separate here.  `mode` is both the
/// current and the preferred mode: it is chosen once at connection time.
#[derive(Clone, Debug)]
pub struct OutputEntry {
    pub device_id: u64,
    pub crtc: u64,
    pub interface_name: String,
    pub interface_id: u64,
    pub make: String,
    pub model: String,
    pub physical_width: i32,
    pub physical_height: i32,
    pub mode: OutputMode,
    pub x: i32,
    pub y: i32,
}

/// Mathematical image of an `OutputEntry`.
#[verifier::ext_equal]
pub ghost struct OutputEntryView {
    pub device_id: u64,
    pub crtc: u64,
    pub interface_name: Seq<char>,
    pub interface_id: u64,
    pub make: Seq<char>,
    pub model: Seq<char>,
    pub physical_width: i32,
    pub physical_height: i32,
    pub mode: OutputMode,
    pub x: i32,
    pub y: i32,
}

impl View for OutputEntry {
    type V = OutputEntryView;

    open spec fn view(&self) -> OutputEntryView {
        OutputEntryView {
            device_id: self.device_id,
            crtc: self.crtc,
            interface_name: self.interface_name@,
            interface_id: self.interface_id,
            make: self.make@,
            model: self.model@,
            physical_width: self.physical_width,
            physical_height: self.physical_height,
            mode: self.mode,
            x: self.x,
            y: self.y,
        }
    }
}

/// Sum of the mode widths of the given outputs.
pub open spec fn spec_total_width(s: Seq<OutputEntryView>) -> int
    decreases s.len(),
{
    if s.len() == 0 {
        0
    } else {
        spec_total_width(s.drop_last()) + s.last().mode.width
    }
}

/// Whether `o` carries the composite identity (`device_id`, `crtc`).
pub open spec fn output_matches(o: OutputEntryView, device_id: u64, crtc: u64) -> bool {
    o.device_id == device_id && o.crtc == crtc
}

/// The horizontal strip shape: output `k` sits at x = sum of the widths of
/// the outputs mapped before it, and at y = 0.
pub open spec fn is_strip(s: Seq<OutputEntryView>) -> bool {
    forall|k: int|
        0 <= k < s.len() ==> (#[trigger] s[k]).x == spec_total_width(s.take(k)) && s[k].y == 0
}

/// Widths are non-negative and the total width fits an `i32` coordinate.
pub open spec fn widths_ok(s: Seq<OutputEntryView>) -> bool {
    &&& forall|k: int| 0 <= k < s.len() ==> (#[trigger] s[k]).mode.width >= 0
    &&& spec_total_width(s) <= i32::MAX
}

/// Prefix sums of non-negative widths never exceed the total.
proof fn lemma_total_width_take_bound(s: Seq<OutputEntryView>, i: int)
    requires
        0 <= i <= s.len(),
        forall|k: int| 0 <= k < s.len() ==> (#[trigger] s[k]).mode.width >= 0,
    ensures
        0 <= spec_total_width(s.take(i)) <= spec_total_width(s),
    decreases s.len() - i,
{
    if i == s.len() {
        assert(s.take(i) =~= s);
        lemma_total_width_nonneg(s);
    } else {
        lemma_total_width_take_bound(s, i + 1);
        assert(s.take(i + 1).drop_last() =~= s.take(i));
        assert(s.take(i + 1).last() == s[i]);
        lemma_total_width_nonneg(s.take(i));
    }
}

/// The sum of non-negative widths is non-negative.
pub proof fn lemma_total_width_nonneg(s: Seq<OutputEntryView>)
    requires
        forall|k: int| 0 <= k < s.len() ==> (#[trigger] s[k]).mode.width >= 0,
    ensures
        spec_total_width(s) >= 0,
    decreases s.len(),
{
    if s.len() > 0 {
        assert(forall|k: int|
            0 <= k < s.drop_last().len() ==> (#[trigger] s.drop_last()[k]).mode.width >= 0);
        lemma_total_width_nonneg(s.drop_last());
    }
}

/// Mapping one more output at the end of the strip, at x = total width and
/// y = 0, keeps the strip shape: every output's x-origin stays the sum of
/// the widths of the outputs before it.
pub proof fn lemma_strip_extends(s: Seq<OutputEntryView>, e: OutputEntryView)
    requires
        is_strip(s),
        e.x == spec_total_width(s),
        e.y == 0,
    ensures
        is_strip(s.push(e)),
{
    let t = s.push(e);
    assert forall|k: int| 0 <= k < t.len() implies (#[trigger] t[k]).x == spec_total_width(
        t.take(k),
    ) && t[k].y == 0 by {
        assert(t.take(k) =~= s.take(k)) by {
            assert(forall|m: int| 0 <= m < k ==> t.take(k)[m] == s.take(k)[m]);
        }
        if k < s.len() {
            assert(t[k] == s[k]);
        } else {
            assert(t[k] == e);
            assert(s.take(k) =~= s);
        }
    }
}

/// The empty output space is a (trivial) strip: together with
/// `lemma_strip_extends` this gives, by induction, that mapping N outputs
/// in sequence puts output k at x = w1 + ... + w(k-1) and y = 0.
pub proof fn lemma_strip_empty()
    ensures
        is_strip(Seq::<OutputEntryView>::empty()),
{
}

/// The decimal digit character for `d`.
pub open spec fn spec_digit_char(d: int) -> char
    recommends
        0 <= d < 10,
{
    (('0' as u8) + d as u8) as char
}

/// The decimal digits of `n`, most significant first.
pub open spec fn spec_u64_digits(n: u64) -> Seq<char>
    decreases n,
{
    if n < 10 {
        seq![spec_digit_char(n as int)]
    } else {
        spec_u64_digits(n / 10) + seq![spec_digit_char((n % 10) as int)]
    }
}

/// Append the decimal digit `d` to a string.
fn push_digit(s: String, d: u64) -> (r: String)
    requires
        d < 10,
    ensures
        r@ == s@ + seq![spec_digit_char(d as int)],
{
    let ds: &str = match d {
        0 => "0",
        1 => "1",
        2 => "2",
        3 => "3",
        4 => "4",
        5 => "5",
        6 => "6",
        7 => "7",
        8 => "8",
        _ => "9",
    };
    proof {
        reveal_strlit("0");
        reveal_strlit("1");
        reveal_strlit("2");
        reveal_strlit("3");
        reveal_strlit("4");
        reveal_strlit("5");
        reveal_strlit("6");
        reveal_strlit("7");
        reveal_strlit("8");
        reveal_strlit("9");
        assert(ds@ =~= seq![spec_digit_char(d as int)]);
    }
    s.concat(ds)
}

/// Append the decimal rendering of `n` to a string.
fn append_u64(s: String, n: u64) -> (r: String)
    ensures
        r@ == s@ + spec_u64_digits(n),
    decreases n,
{
    if n < 10 {
        push_digit(s, n)
    } else {
        let s2 = append_u64(s, n / 10);
        let r = push_digit(s2, n % 10);
        proof {
            assert(r@ =~= s@ + spec_u64_digits(n));
        }
        r
    }
}

impl OutputEntry {
    /// The protocol-visible name of the output: the connector interface
    /// name, a dash, and the interface index in decimal.
    pub fn name(&self) -> (r: String)
        ensures
            r@ == self.interface_name@ + seq!['-'] + spec_u64_digits(self.interface_id),
    {
        let base = self.interface_name.clone();
        proof {
            reveal_strlit("-");
        }
        let dashed = base.concat("-");
        let r = append_u64(dashed, self.interface_id);
        proof {
            assert(r@ =~= self.interface_name@ + seq!['-'] + spec_u64_digits(self.interface_id));
        }
        r
    }
}

/// How unmapping by composite identity relates the output space before and
/// after: the first matching output, if one is mapped, is removed and
/// nothing else moves; otherwise nothing changes.
pub open spec fn outputs_unmapped(
    pre: Seq<OutputEntryView>,
    post: Seq<OutputEntryView>,
    device_id: u64,
    crtc: u64,
) -> bool {
    if exists|i: int| 0 <= i < pre.len() && output_matches(#[trigger] pre[i], device_id, crtc) {
        exists|i: int|
            {
                &&& 0 <= i < pre.len()
                &&& output_matches(#[trigger] pre[i], device_id, crtc)
                &&& forall|j: int| 0 <= j < i ==> !output_matches(pre[j], device_id, crtc)
                &&& post == pre.remove(i)
            }
    } else {
        post == pre
    }
}

/// Removing one output takes exactly its width out of the total.
pub proof fn lemma_total_width_remove(s: Seq<OutputEntryView>, i: int)
    requires
        0 <= i < s.len(),
    ensures
        spec_total_width(s.remove(i)) == spec_total_width(s) - s[i].mode.width,
    decreases s.len(),
{
    if i == s.len() - 1 {
        assert(s.remove(i) =~= s.drop_last());
    } else {
        lemma_total_width_remove(s.drop_last(), i);
        assert(s.remove(i).drop_last() =~= s.drop_last().remove(i));
        assert(s.remove(i).last() == s.last());
    }
}

/// The compositor's output space: the currently mapped logical outputs, in
/// the order they were mapped.
pub struct OutputSpace {
    pub outputs: Vec<OutputEntry>,
}

impl View for OutputSpace {
    type V = Seq<OutputEntryView>;

    open spec fn view(&self) -> Seq<OutputEntryView> {
        self.outputs@.map_values(|o: OutputEntry| o@)
    }
}

impl OutputSpace {
    /// An empty output space.
    pub fn new() -> (r: OutputSpace)
        ensures
            r@ =~= Seq::<OutputEntryView>::empty(),
    {
        OutputSpace { outputs: Vec::new() }
    }

    /// Sum of the widths of all mapped outputs: the x-origin the next
    /// output will be placed at.
    pub fn total_mapped_width(&self) -> (w: i32)
        requires
            widths_ok(self@),
        ensures
            w == spec_total_width(self@),
    {
        let mut w: i32 = 0;
        let mut i: usize = 0;
        while i < self.outputs.len()
            invariant
                0 <= i <= self.outputs@.len(),
                self@.len() == self.outputs@.len(),
                widths_ok(self@),
                w == spec_total_width(self@.take(i as int)),
            decreases self.outputs@.len() - i,
        {
            proof {
                lemma_total_width_take_bound(self@, i + 1);
                lemma_total_width_nonneg(self@.take(i as int));
                assert(self@.take(i + 1).drop_last() =~= self@.take(i as int));
                assert(self@.take(i + 1).last() == self@[i as int]);
                assert(self@[i as int].mode.width >= 0);
            }
            w = w + self.outputs[i].mode.width;
            i += 1;
        }
        proof {
            assert(self@.take(self@.len() as int) =~= self@);
        }
        w
    }

    /// Index of the first mapped output with the given composite identity.
    pub fn find_output(&self, device_id: u64, crtc: u64) -> (r: Option<usize>)
        ensures
            r matches Some(i) ==> 0 <= i < self@.len() && output_matches(self@[i as int], device_id, crtc)
                && (forall|j: int| 0 <= j < i ==> !output_matches(self@[j], device_id, crtc)),
            r is None ==> forall|j: int| 0 <= j < self@.len() ==> !output_matches(
                self@[j],
                device_id,
                crtc,
            ),
    {
        let mut i: usize = 0;
        while i < self.outputs.len()
            invariant
                0 <= i <= self.outputs@.len(),
                self@.len() == self.outputs@.len(),
                forall|j: int| 0 <= j < i ==> !output_matches(self@[j], device_id, crtc),
            decreases self.outputs@.len() - i,
        {
            if self.outputs[i].device_id == device_id && self.outputs[i].crtc == crtc {
                return Some(i);
            }
            i += 1;
        }
        None
    }

    /// Map a new output at the right end of the strip.  The entry's `x` and
    /// `y` are overwritten with the strip position; everything else is kept.
    pub fn map_output(&mut self, entry: OutputEntry)
        requires
            widths_ok(old(self)@),
            entry.mode.width >= 0,
            spec_total_width(old(self)@) + entry.mode.width <= i32::MAX,
        ensures
            final(self)@ =~= old(self)@.push(
                OutputEntryView {
                    x: spec_total_width(old(self)@) as i32,
                    y: 0,
                    ..entry@
                },
            ),
            widths_ok(final(self)@),
            is_strip(old(self)@) ==> is_strip(final(self)@),
    {
        proof {
            lemma_total_width_nonneg(self@);
        }
        let x = self.total_mapped_width();
        let placed = OutputEntry { x, y: 0, ..entry };
        let ghost prior = self@;
        self.outputs.push(placed);
        proof {
            assert(self@ =~= prior.push(placed@));
            assert(self@.drop_last() =~= prior);
            assert(widths_ok(self@)) by {
                assert(forall|k: int| 0 <= k < prior.len() ==> self@[k] == prior[k]);
            }
            if is_strip(prior) {
                lemma_strip_extends(prior, placed@);
            }
        }
    }

    /// Unmap the first output with the given composite identity, if any.
    /// Removal never repositions the outputs that stay mapped.
    pub fn unmap_output(&mut self, device_id: u64, crtc: u64)
        ensures
            outputs_unmapped(old(self)@, final(self)@, device_id, crtc),
            (forall|j: int| 0 <= j < old(self)@.len() ==> !output_matches(
                old(self)@[j],
                device_id,
                crtc,
            )) ==> final(self)@ =~= old(self)@,
            forall|i: int|
                (0 <= i < old(self)@.len() && output_matches(old(self)@[i], device_id, crtc)
                    && (forall|j: int| 0 <= j < i ==> !output_matches(
                    old(self)@[j],
                    device_id,
                    crtc,
                ))) ==> final(self)@ =~= old(self)@.remove(i),
            widths_ok(old(self)@) ==> widths_ok(final(self)@),
    {
        match self.find_output(device_id, crtc) {
            Some(i) => {
                let ghost prior = self@;
                self.outputs.remove(i);
                proof {
                    assert(self@ =~= prior.remove(i as int));
                    assert(self@ == prior.remove(i as int));
                    assert(outputs_unmapped(prior, self@, device_id, crtc)) by {
                        assert(0 <= i < prior.len() && output_matches(
                            prior[i as int],
                            device_id,
                            crtc,
                        ) && (forall|j: int| 0 <= j < i ==> !output_matches(
                            prior[j],
                            device_id,
                            crtc,
                        )) && self@ == prior.remove(i as int));
                    }
                    if widths_ok(prior) {
                        lemma_total_width_remove(prior, i as int);
                        assert(widths_ok(self@)) by {
                            assert(forall|k: int|
                                0 <= k < self@.len() ==> (#[trigger] self@[k]) == (if k < i {
                                    prior[k]
                                } else {
                                    prior[k + 1]
                                }));
                            lemma_total_width_nonneg(prior.remove(i as int));
                        }
                    }
                }
            },
            None => {},
        }
    }
}

} // verus!
