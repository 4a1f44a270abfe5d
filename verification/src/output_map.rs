//! The ordered collection of outputs.  Outputs are laid out side by side
//! along the horizontal axis; the layout is re-derived on every membership
//! change and never left stale.

use vstd::prelude::*;
use crate::geometry::Point;
use crate::output::{lemma_size_bounds, Output, OutputView};

verus! {

/// Every output in the sequence is valid.
pub open spec fn outputs_wf(s: Seq<OutputView>) -> bool {
    forall|i: int| 0 <= i < s.len() ==> (#[trigger] s[i]).inv()
}

/// The sum of the logical widths of the outputs.
pub open spec fn total_width(s: Seq<OutputView>) -> int
    decreases s.len(),
{
    if s.len() == 0 {
        0
    } else {
        total_width(s.drop_last()) + s.last().spec_size().w
    }
}

/// The side-by-side arrangement: output `i` sits at x equal to the sum of
/// the widths of the outputs before it, at y 0.  Only locations change.
pub open spec fn arranged(s: Seq<OutputView>) -> Seq<OutputView> {
    Seq::new(
        s.len(),
        |i: int|
            OutputView {
                location: Point { x: total_width(s.take(i)) as i32, y: 0 },
                ..s[i]
            },
    )
}

/// The sequence with every output tagged by `device_id` removed.
pub open spec fn drop_device(s: Seq<OutputView>, device_id: u64) -> Seq<OutputView>
    decreases s.len(),
{
    if s.len() == 0 {
        Seq::empty()
    } else if s.last().tagged_with(device_id) {
        drop_device(s.drop_last(), device_id)
    } else {
        drop_device(s.drop_last(), device_id) + seq![s.last()]
    }
}

/// The CRTC handles of the outputs tagged by `device_id`, in map order.
pub open spec fn tagged_crtcs(s: Seq<OutputView>, device_id: u64) -> Seq<u32>
    decreases s.len(),
{
    if s.len() == 0 {
        Seq::empty()
    } else if s.last().tagged_with(device_id) {
        tagged_crtcs(s.drop_last(), device_id) + seq![s.last().tag->Some_0.crtc]
    } else {
        tagged_crtcs(s.drop_last(), device_id)
    }
}

/// Whether output `o` carries the backward tag (`device_id`, `crtc`).
pub open spec fn has_tag(o: OutputView, device_id: u64, crtc: u32) -> bool {
    o.tag == Some(crate::output::OutputTag { device_id, crtc })
}

/// Whether `x` falls in the horizontal band covered by output `o`.
pub open spec fn covers_x(o: OutputView, x: int) -> bool {
    o.location.x <= x < o.location.x + o.spec_size().w
}

/// A valid output map: every output valid, and the total width within
/// machine range.
pub open spec fn outputs_ok(s: Seq<OutputView>) -> bool {
    outputs_wf(s) && total_width(s) <= i32::MAX
}

/// Adding one output to a prefix extends the width sum by its width.
pub proof fn lemma_total_width_take_succ(s: Seq<OutputView>, i: int)
    requires
        0 <= i < s.len(),
    ensures
        total_width(s.take(i + 1)) == total_width(s.take(i)) + s[i].spec_size().w,
{
    assert(s.take(i + 1).drop_last() =~= s.take(i));
    assert(s.take(i + 1).last() == s[i]);
}

/// The width sum of valid outputs is nonnegative.
pub proof fn lemma_total_width_nonneg(s: Seq<OutputView>)
    requires
        outputs_wf(s),
    ensures
        0 <= total_width(s),
    decreases s.len(),
{
    if s.len() > 0 {
        assert(outputs_wf(s.drop_last()));
        lemma_total_width_nonneg(s.drop_last());
        lemma_size_bounds(s.last());
    }
}

/// A prefix never outweighs the whole sequence.
pub proof fn lemma_total_width_prefix_le(s: Seq<OutputView>, i: int)
    requires
        outputs_wf(s),
        0 <= i <= s.len(),
    ensures
        total_width(s.take(i)) <= total_width(s),
    decreases s.len() - i,
{
    if i < s.len() {
        lemma_total_width_take_succ(s, i);
        lemma_size_bounds(s[i]);
        lemma_total_width_prefix_le(s, i + 1);
    } else {
        assert(s.take(i) =~= s);
    }
}

/// Width sums ignore everything but the mode and the scale.
pub proof fn lemma_total_width_same_sizes(s: Seq<OutputView>, t: Seq<OutputView>)
    requires
        s.len() == t.len(),
        forall|i: int|
            0 <= i < s.len() ==> (#[trigger] t[i]).current_mode == s[i].current_mode
                && t[i].scale_milli == s[i].scale_milli,
    ensures
        total_width(t) == total_width(s),
    decreases s.len(),
{
    if s.len() > 0 {
        lemma_total_width_same_sizes(s.drop_last(), t.drop_last());
    }
}

/// Tag bookkeeping ignores everything but the tags.
pub proof fn lemma_tagged_crtcs_same_tags(s: Seq<OutputView>, t: Seq<OutputView>, device_id: u64)
    requires
        s.len() == t.len(),
        forall|i: int| 0 <= i < s.len() ==> (#[trigger] t[i]).tag == s[i].tag,
    ensures
        tagged_crtcs(t, device_id) == tagged_crtcs(s, device_id),
    decreases s.len(),
{
    if s.len() > 0 {
        lemma_tagged_crtcs_same_tags(s.drop_last(), t.drop_last(), device_id);
    }
}

/// Rearranging changes locations only, so sizes, names and tags are kept.
pub proof fn lemma_arranged_pointwise(s: Seq<OutputView>)
    ensures
        arranged(s).len() == s.len(),
        forall|i: int|
            0 <= i < s.len() ==> (#[trigger] arranged(s)[i]) == (OutputView {
                location: Point { x: total_width(s.take(i)) as i32, y: 0 },
                ..s[i]
            }),
{
}

/// The arrangement is idempotent: arranging an already arranged sequence
/// changes nothing, because the arrangement depends only on the widths,
/// which it does not touch.
pub proof fn lemma_arranged_idempotent(s: Seq<OutputView>)
    ensures
        arranged(arranged(s)) == arranged(s),
{
    let a = arranged(s);
    assert forall|i: int| 0 <= i < s.len() implies #[trigger] total_width(a.take(i))
        == total_width(s.take(i)) by {
        assert(a.take(i).len() == s.take(i).len());
        assert(forall|j: int|
            0 <= j < i ==> (#[trigger] a.take(i)[j]).current_mode == s.take(i)[j].current_mode
                && a.take(i)[j].scale_milli == s.take(i)[j].scale_milli);
        lemma_total_width_same_sizes(s.take(i), a.take(i));
    }
    assert(arranged(a) =~= a);
}

/// The placements of an external arrangement policy, applied in order:
/// each names an output by index and moves it to a target location;
/// out-of-range indices change nothing.
pub open spec fn apply_placements(s: Seq<OutputView>, ps: Seq<(usize, Point)>) -> Seq<OutputView>
    decreases ps.len(),
{
    if ps.len() == 0 {
        s
    } else {
        let prev = apply_placements(s, ps.drop_last());
        let pl = ps.last();
        if pl.0 < prev.len() {
            prev.update(pl.0 as int, (OutputView { location: pl.1, ..prev[pl.0 as int] }))
        } else {
            prev
        }
    }
}

/// Placements move outputs; they change neither their number nor their
/// validity nor the layout's total width.
pub proof fn lemma_apply_placements(s: Seq<OutputView>, ps: Seq<(usize, Point)>)
    requires
        outputs_ok(s),
    ensures
        apply_placements(s, ps).len() == s.len(),
        outputs_ok(apply_placements(s, ps)),
        forall|i: int|
            0 <= i < s.len() ==> (#[trigger] apply_placements(s, ps)[i]).current_mode
                == s[i].current_mode && apply_placements(s, ps)[i].scale_milli == s[i].scale_milli,
    decreases ps.len(),
{
    if ps.len() > 0 {
        lemma_apply_placements(s, ps.drop_last());
        let prev = apply_placements(s, ps.drop_last());
        let r = apply_placements(s, ps);
        assert(forall|i: int| 0 <= i < s.len() ==> (#[trigger] r[i]).inv());
        lemma_total_width_same_sizes(s, r);
    }
}

/// Re-arranging after an append does not care that the prefix was already
/// arranged: only locations differ, and the arrangement overwrites them.
pub proof fn lemma_arranged_extend(s: Seq<OutputView>, t: Seq<OutputView>)
    ensures
        arranged(arranged(s) + t) == arranged(s + t),
{
    let u1 = arranged(s) + t;
    let u2 = s + t;
    assert(u1.len() == u2.len());
    assert forall|i: int| 0 <= i <= u1.len() implies #[trigger] total_width(u1.take(i))
        == total_width(u2.take(i)) by {
        assert(forall|j: int|
            0 <= j < i ==> (#[trigger] u1.take(i)[j]).current_mode == u2.take(i)[j].current_mode
                && u1.take(i)[j].scale_milli == u2.take(i)[j].scale_milli);
        lemma_total_width_same_sizes(u2.take(i), u1.take(i));
    }
    assert(arranged(u1) =~= arranged(u2));
}

/// Dropping a device's outputs keeps the rest valid, never widens the
/// layout, leaves no output of that device behind, and does not disturb the
/// bookkeeping of other devices.
pub proof fn lemma_drop_device(s: Seq<OutputView>, device_id: u64)
    requires
        outputs_wf(s),
    ensures
        outputs_wf(drop_device(s, device_id)),
        total_width(drop_device(s, device_id)) <= total_width(s),
        forall|i: int|
            0 <= i < drop_device(s, device_id).len() ==> !(#[trigger] drop_device(s, device_id)[i])
                .tagged_with(device_id),
        tagged_crtcs(drop_device(s, device_id), device_id) == Seq::<u32>::empty(),
        forall|d: u64|
            d != device_id ==> #[trigger] tagged_crtcs(drop_device(s, device_id), d)
                == tagged_crtcs(s, d),
        forall|i: int|
            0 <= i < drop_device(s, device_id).len() ==> s.contains(
                #[trigger] drop_device(s, device_id)[i],
            ),
    decreases s.len(),
{
    if s.len() > 0 {
        assert(outputs_wf(s.drop_last()));
        lemma_drop_device(s.drop_last(), device_id);
        lemma_size_bounds(s.last());
        assert forall|i: int| 0 <= i < drop_device(s.drop_last(), device_id).len() implies
            s.contains(#[trigger] drop_device(s.drop_last(), device_id)[i]) by {
            let x = drop_device(s.drop_last(), device_id)[i];
            let j = choose|j: int| 0 <= j < s.drop_last().len() && s.drop_last()[j] == x;
            assert(s[j] == x);
        }
        if !s.last().tagged_with(device_id) {
            let r = drop_device(s.drop_last(), device_id) + seq![s.last()];
            assert(r.drop_last() =~= drop_device(s.drop_last(), device_id));
            assert forall|d: u64| d != device_id implies #[trigger] tagged_crtcs(r, d)
                == tagged_crtcs(s, d) by {
                assert(tagged_crtcs(r, d) == if s.last().tagged_with(d) {
                    tagged_crtcs(r.drop_last(), d) + seq![s.last().tag->Some_0.crtc]
                } else {
                    tagged_crtcs(r.drop_last(), d)
                });
            }
        }
    }
}

/// Width sums and tag bookkeeping distribute over concatenation.
pub proof fn lemma_seq_concat(s1: Seq<OutputView>, s2: Seq<OutputView>, device_id: u64)
    ensures
        total_width(s1 + s2) == total_width(s1) + total_width(s2),
        tagged_crtcs(s1 + s2, device_id) == tagged_crtcs(s1, device_id) + tagged_crtcs(
            s2,
            device_id,
        ),
    decreases s2.len(),
{
    if s2.len() == 0 {
        assert(s1 + s2 =~= s1);
        assert(tagged_crtcs(s1, device_id) + tagged_crtcs(s2, device_id) =~= tagged_crtcs(
            s1,
            device_id,
        ));
    } else {
        lemma_seq_concat(s1, s2.drop_last(), device_id);
        assert((s1 + s2).drop_last() =~= s1 + s2.drop_last());
        assert((s1 + s2).last() == s2.last());
    }
}

/// The ordered collection of the compositor's outputs.  It exclusively owns
/// every output.
pub struct OutputMap {
    outputs: Vec<Output>,
}

impl View for OutputMap {
    type V = Seq<OutputView>;

    closed spec fn view(&self) -> Seq<OutputView> {
        self.outputs@.map_values(|o: Output| o@)
    }
}

impl OutputMap {
    /// A valid map: all outputs valid, total width within machine range.
    pub open spec fn wf(self) -> bool {
        outputs_ok(self@)
    }

    /// Creates an empty map.
    pub fn new() -> (r: OutputMap)
        ensures
            r@ == Seq::<OutputView>::empty(),
            r.wf(),
    {
        let r = OutputMap { outputs: Vec::new() };
        proof {
            assert(r@ =~= Seq::<OutputView>::empty());
        }
        r
    }

    /// The number of outputs.
    pub fn len(&self) -> (r: usize)
        ensures
            r == self@.len(),
    {
        self.outputs.len()
    }

    /// Whether the map holds no output.
    pub fn is_empty(&self) -> (r: bool)
        ensures
            r == (self@.len() == 0),
    {
        self.outputs.len() == 0
    }

    /// The output at `index`, or nothing when out of range.
    pub fn find_by_index(&self, index: usize) -> (r: Option<&Output>)
        ensures
            index < self@.len() ==> r is Some && r->Some_0@ == self@[index as int],
            index >= self@.len() ==> r is None,
    {
        if index < self.outputs.len() {
            Some(&self.outputs[index])
        } else {
            None
        }
    }

    /// Updates the location of the output at `i`.
    fn set_location_at(&mut self, i: usize, p: Point)
        requires
            i < old(self)@.len(),
        ensures
            final(self)@ == old(self)@.update(
                i as int,
                (OutputView { location: p, ..old(self)@[i as int] }),
            ),
    {
        let o: &mut Output = &mut self.outputs[i];
        o.set_location(p);
        proof {
            assert(self@ =~= old(self)@.update(
                i as int,
                (OutputView { location: p, ..old(self)@[i as int] }),
            ));
        }
    }

    /// Recomputes the layout: outputs are placed side by side along the
    /// horizontal axis, each at the summed width of its predecessors.
    /// Rearranging twice without a membership change yields the same
    /// locations.
    pub fn rearrange(&mut self)
        requires
            old(self).wf(),
        ensures
            final(self)@ == arranged(old(self)@),
            final(self).wf(),
    {
        let ghost orig = self@;
        let mut x: i32 = 0;
        let mut i: usize = 0;
        proof {
            assert(orig.take(0) =~= Seq::<OutputView>::empty());
        }
        while i < self.outputs.len()
            invariant
                outputs_ok(orig),
                i <= orig.len(),
                self@.len() == orig.len(),
                x == total_width(orig.take(i as int)),
                forall|j: int| 0 <= j < i ==> #[trigger] self@[j] == arranged(orig)[j],
                forall|j: int| i <= j < orig.len() ==> #[trigger] self@[j] == orig[j],
            decreases orig.len() - i,
        {
            proof {
                lemma_total_width_take_succ(orig, i as int);
                lemma_total_width_prefix_le(orig, i as int + 1);
                lemma_total_width_nonneg(orig.take(i as int));
                lemma_size_bounds(orig[i as int]);
            }
            let w: i32 = {
                let o: &Output = &self.outputs[i];
                proof {
                    assert(o@ == self@[i as int]);
                    assert(self@[i as int] == orig[i as int]);
                }
                o.size().w
            };
            self.set_location_at(i, Point { x, y: 0 });
            x = x + w;
            i = i + 1;
        }
        proof {
            assert(self@ =~= arranged(orig));
            assert(outputs_wf(arranged(orig)));
            lemma_total_width_same_sizes(orig, arranged(orig));
        }
    }

    /// Appends an output, then recomputes the whole layout.
    pub fn add(&mut self, output: Output)
        requires
            old(self).wf(),
            output@.inv(),
            total_width(old(self)@) + output@.spec_size().w <= i32::MAX,
        ensures
            final(self)@ == arranged(old(self)@ + seq![output@]),
            final(self).wf(),
    {
        let ghost orig = self@;
        let ghost ov = output@;
        self.outputs.push(output);
        proof {
            assert(self@ =~= orig + seq![ov]);
            lemma_seq_concat(orig, seq![ov], 0);
            assert(seq![ov].drop_last() =~= Seq::<OutputView>::empty());
            assert(total_width(Seq::<OutputView>::empty()) == 0);
            assert(seq![ov].last() == ov);
            assert(total_width(seq![ov]) == ov.spec_size().w);
            assert(outputs_wf(self@));
        }
        self.rearrange();
    }

    /// Removes every output tagged by `device_id`, then recomputes the
    /// layout.  Afterwards no output carries a backward tag referencing
    /// that device.
    pub fn retain_not_device(&mut self, device_id: u64)
        requires
            old(self).wf(),
        ensures
            final(self)@ == arranged(drop_device(old(self)@, device_id)),
            final(self).wf(),
            forall|i: int|
                0 <= i < final(self)@.len() ==> !(#[trigger] final(self)@[i]).tagged_with(
                    device_id,
                ),
    {
        let ghost orig = self@;
        let olen: usize = self.outputs.len();
        let mut k: usize = 0;
        let mut i: usize = 0;
        proof {
            assert(orig.take(0) =~= Seq::<OutputView>::empty());
            assert(orig.len() == olen);
        }
        while i < self.outputs.len()
            invariant
                outputs_ok(orig),
                orig.len() <= usize::MAX,
                k <= orig.len(),
                i as int == drop_device(orig.take(k as int), device_id).len(),
                self@ =~= drop_device(orig.take(k as int), device_id) + orig.skip(k as int),
                self@.len() == i + orig.len() - k,
            decreases orig.len() - k,
        {
            proof {
                assert(k < orig.len());
                assert(orig.take(k as int + 1).drop_last() =~= orig.take(k as int));
                assert(orig.take(k as int + 1).last() == orig[k as int]);
                assert(self@[i as int] == orig[k as int]);
            }
            let tagged: bool = {
                let o: &Output = &self.outputs[i];
                proof {
                    assert(o@ == self@[i as int]);
                }
                match o.tag() {
                    Some(t) => t.device_id == device_id,
                    None => false,
                }
            };
            proof {
                assert(tagged == orig[k as int].tagged_with(device_id));
            }
            if tagged {
                let ghost pre = self@;
                let _ = self.outputs.remove(i);
                proof {
                    assert(self@ =~= pre.remove(i as int));
                    assert(drop_device(orig.take(k as int + 1), device_id) == drop_device(
                        orig.take(k as int),
                        device_id,
                    ));
                    assert(self@ =~= drop_device(orig.take(k as int + 1), device_id) + orig.skip(
                        k as int + 1,
                    ));
                }
            } else {
                i = i + 1;
                proof {
                    assert(drop_device(orig.take(k as int + 1), device_id) =~= drop_device(
                        orig.take(k as int),
                        device_id,
                    ) + seq![orig[k as int]]);
                    assert(self@ =~= drop_device(orig.take(k as int + 1), device_id) + orig.skip(
                        k as int + 1,
                    ));
                }
            }
            k = k + 1;
        }
        proof {
            assert(orig.take(orig.len() as int) =~= orig);
            assert(orig.skip(orig.len() as int) =~= Seq::<OutputView>::empty());
            assert(self@ =~= drop_device(orig, device_id));
            lemma_drop_device(orig, device_id);
        }
        self.rearrange();
    }

    /// Applies the placements an external arrangement policy returned:
    /// each names an output by index and its target location, applied in
    /// order (a later placement for the same output wins).  Out-of-range
    /// indices are ignored, and an empty answer relocates nothing.
    pub fn apply_arrangement(&mut self, placements: &Vec<(usize, Point)>)
        requires
            old(self).wf(),
        ensures
            final(self)@ == apply_placements(old(self)@, placements@),
            final(self).wf(),
    {
        let ghost orig = self@;
        proof {
            lemma_apply_placements(orig, placements@);
            assert(placements@.take(0) =~= Seq::<(usize, Point)>::empty());
        }
        let mut k: usize = 0;
        while k < placements.len()
            invariant
                outputs_ok(orig),
                k <= placements@.len(),
                self@ == apply_placements(orig, placements@.take(k as int)),
            decreases placements@.len() - k,
        {
            proof {
                assert(placements@.take(k as int + 1).drop_last() =~= placements@.take(k as int));
                assert(placements@.take(k as int + 1).last() == placements@[k as int]);
            }
            let (i, p) = placements[k];
            if i < self.outputs.len() {
                self.set_location_at(i, p);
            }
            k = k + 1;
        }
        proof {
            assert(placements@.take(placements@.len() as int) =~= placements@);
            lemma_apply_placements(orig, placements@);
        }
    }

    /// The combined logical width of all outputs.
    pub fn width(&self) -> (r: i32)
        requires
            self.wf(),
        ensures
            r == total_width(self@),
    {
        let mut x: i32 = 0;
        let mut i: usize = 0;
        proof {
            assert(self@.take(0) =~= Seq::<OutputView>::empty());
        }
        while i < self.outputs.len()
            invariant
                self.wf(),
                i <= self@.len(),
                x == total_width(self@.take(i as int)),
            decreases self@.len() - i,
        {
            proof {
                lemma_total_width_take_succ(self@, i as int);
                lemma_total_width_prefix_le(self@, i as int + 1);
                lemma_total_width_nonneg(self@.take(i as int));
                lemma_size_bounds(self@[i as int]);
            }
            let w: i32 = {
                let o: &Output = &self.outputs[i];
                proof {
                    assert(o@ == self@[i as int]);
                }
                o.size().w
            };
            x = x + w;
            i = i + 1;
        }
        proof {
            assert(self@.take(self@.len() as int) =~= self@);
        }
        x
    }

    /// The height of the first output whose horizontal band contains `x`,
    /// or nothing when no output covers that column.
    pub fn height(&self, x: i32) -> (r: Option<i32>)
        requires
            self.wf(),
        ensures
            match r {
                Some(h) => exists|j: int|
                    0 <= j < self@.len() && covers_x(#[trigger] self@[j], x as int) && h == self@[
                        j
                    ].spec_size().h && (forall|k: int|
                        0 <= k < j ==> !covers_x(#[trigger] self@[k], x as int)),
                None => forall|j: int|
                    0 <= j < self@.len() ==> !covers_x(#[trigger] self@[j], x as int),
            },
    {
        let mut i: usize = 0;
        while i < self.outputs.len()
            invariant
                self.wf(),
                i <= self@.len(),
                forall|k: int| 0 <= k < i ==> !covers_x(#[trigger] self@[k], x as int),
            decreases self@.len() - i,
        {
            let o: &Output = &self.outputs[i];
            proof {
                assert(o@ == self@[i as int]);
            }
            let geo = o.geometry();
            if x >= geo.loc.x && (x as i64) < geo.loc.x as i64 + geo.size.w as i64 {
                let s = o.size();
                proof {
                    assert(covers_x(self@[i as int], x as int));
                }
                return Some(s.h);
            }
            i = i + 1;
        }
        None
    }

    /// The first output with the given name, or nothing.
    pub fn find_by_name(&self, name: &str) -> (r: Option<&Output>)
        ensures
            match r {
                Some(o) => exists|j: int|
                    0 <= j < self@.len() && (#[trigger] self@[j]).name == name@ && o@ == self@[j]
                        && (forall|k: int| 0 <= k < j ==> (#[trigger] self@[k]).name != name@),
                None => forall|j: int| 0 <= j < self@.len() ==> (#[trigger] self@[j]).name != name@,
            },
    {
        let wanted: String = name.to_owned();
        let mut i: usize = 0;
        while i < self.outputs.len()
            invariant
                i <= self@.len(),
                forall|k: int| 0 <= k < i ==> (#[trigger] self@[k]).name != name@,
                wanted@ == name@,
            decreases self@.len() - i,
        {
            let o: &Output = &self.outputs[i];
            proof {
                assert(o@ == self@[i as int]);
            }
            if o.name() == wanted {
                return Some(&self.outputs[i]);
            }
            i = i + 1;
        }
        None
    }

    /// The first output whose geometry contains `p`, or nothing.
    pub fn find_by_position(&self, p: Point) -> (r: Option<&Output>)
        requires
            self.wf(),
        ensures
            match r {
                Some(o) => exists|j: int|
                    0 <= j < self@.len() && (#[trigger] self@[j]).spec_geometry().spec_contains(p)
                        && o@ == self@[j] && (forall|k: int|
                        0 <= k < j ==> !(#[trigger] self@[k]).spec_geometry().spec_contains(p)),
                None => forall|j: int|
                    0 <= j < self@.len() ==> !(#[trigger] self@[j]).spec_geometry().spec_contains(
                        p,
                    ),
            },
    {
        let mut i: usize = 0;
        while i < self.outputs.len()
            invariant
                self.wf(),
                i <= self@.len(),
                forall|k: int|
                    0 <= k < i ==> !(#[trigger] self@[k]).spec_geometry().spec_contains(p),
            decreases self@.len() - i,
        {
            let o: &Output = &self.outputs[i];
            proof {
                assert(o@ == self@[i as int]);
            }
            let geo = o.geometry();
            if geo.contains(p) {
                return Some(&self.outputs[i]);
            }
            i = i + 1;
        }
        None
    }

    /// The index of the output tagged with exactly this (device, CRTC)
    /// pair, or nothing.  Tags are unique in a valid backend state, so the
    /// first match is the only one.
    pub fn find_by_tag(&self, device_id: u64, crtc: u32) -> (r: Option<usize>)
        ensures
            match r {
                Some(j) => j < self@.len() && has_tag(self@[j as int], device_id, crtc) && (
                forall|k: int| 0 <= k < j ==> !has_tag(#[trigger] self@[k], device_id, crtc)),
                None => forall|j: int|
                    0 <= j < self@.len() ==> !has_tag(#[trigger] self@[j], device_id, crtc),
            },
    {
        let mut i: usize = 0;
        while i < self.outputs.len()
            invariant
                i <= self@.len(),
                forall|k: int| 0 <= k < i ==> !has_tag(#[trigger] self@[k], device_id, crtc),
            decreases self@.len() - i,
        {
            let o: &Output = &self.outputs[i];
            proof {
                assert(o@ == self@[i as int]);
            }
            match o.tag() {
                Some(t) => {
                    if t.device_id == device_id && t.crtc == crtc {
                        return Some(i);
                    }
                },
                None => {},
            }
            i = i + 1;
        }
        None
    }

    /// The output at `i`.
    pub fn get(&self, i: usize) -> (r: &Output)
        requires
            i < self@.len(),
        ensures
            r@ == self@[i as int],
    {
        &self.outputs[i]
    }
}

} // verus!
