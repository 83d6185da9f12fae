//! Detection post-processing: confidence filter, ordering, intersection over union and
//! non-maximum suppression.
//!
//! Coordinates and scores are fixed-point integers: `UNIT` stands for 1.0, so a
//! relative coordinate of 0.25 is `250_000` and a confidence of 0.9 is `900_000`.
//! Intersection over union is kept as the exact ratio `intersection / combined`, taken as 0
//! when the union is empty.
use vstd::prelude::*;

verus! {

/// The fixed-point value of 1.0.
pub const UNIT: u32 = 1_000_000;

/// Default IoU above which a candidate is suppressed (0.5).
pub const DEFAULT_MAX_IOU: u32 = 500_000;

/// Default confidence a candidate must exceed to be kept (0.5).
pub const DEFAULT_MIN_CONFIDENCE: u32 = 500_000;

/// A bounding box `[x_top_left, y_top_left, x_bottom_right, y_bottom_right]`.
#[derive(Clone, Copy, Debug, PartialEq, Eq, Structural)]
pub struct BBox {
    pub x1: i32,
    pub y1: i32,
    pub x2: i32,
    pub y2: i32,
}

/// A bounding box with the detector's confidence that it holds a face.
#[derive(Clone, Copy, Debug, PartialEq, Eq, Structural)]
pub struct Detection {
    pub bbox: BBox,
    pub confidence: u32,
}

/// An intersection over union as the exact ratio `intersection / combined`.
#[derive(Clone, Copy, Debug, PartialEq, Eq, Structural)]
pub struct Iou {
    pub intersection: u128,
    pub combined: u128,
}

/// The length of `[lo, hi]`, 0 when it is inverted.
pub open spec fn extent(lo: i32, hi: i32) -> int {
    if hi > lo {
        hi - lo
    } else {
        0
    }
}

/// The area of a box; an inverted box has area 0.
pub open spec fn area(b: BBox) -> int {
    extent(b.x1, b.x2) * extent(b.y1, b.y2)
}

pub open spec fn max_i32(a: i32, b: i32) -> i32 {
    if a >= b {
        a
    } else {
        b
    }
}

pub open spec fn min_i32(a: i32, b: i32) -> i32 {
    if a <= b {
        a
    } else {
        b
    }
}

/// The box where `a` and `b` overlap (inverted when they do not).
pub open spec fn overlap_box(a: BBox, b: BBox) -> BBox {
    BBox {
        x1: max_i32(a.x1, b.x1),
        y1: max_i32(a.y1, b.y1),
        x2: min_i32(a.x2, b.x2),
        y2: min_i32(a.y2, b.y2),
    }
}

/// The area covered by `a` or `b`.
pub open spec fn union_area(a: BBox, b: BBox) -> int {
    area(a) + area(b) - area(overlap_box(a, b))
}

/// The IoU of `a` and `b` is above `max_iou / UNIT`.
pub open spec fn exceeds(a: BBox, b: BBox, max_iou: u32) -> bool {
    area(overlap_box(a, b)) * UNIT > max_iou * union_area(a, b)
}

proof fn lemma_area_bounds(b: BBox)
    ensures
        0 <= area(b) <= 0x1_0000_0000_0000_0000,
{
    let w = extent(b.x1, b.x2);
    let h = extent(b.y1, b.y2);
    assert(0 <= w <= 0x1_0000_0000);
    assert(0 <= h <= 0x1_0000_0000);
    assert(0 <= w * h <= 0x1_0000_0000 * 0x1_0000_0000) by (nonlinear_arith)
        requires
            0 <= w <= 0x1_0000_0000,
            0 <= h <= 0x1_0000_0000,
    ;
}

/// The overlap of two boxes is no larger than either of them.
proof fn lemma_overlap_le(a: BBox, b: BBox)
    ensures
        0 <= area(overlap_box(a, b)) <= area(a),
        area(overlap_box(a, b)) <= area(b),
        union_area(a, b) >= area(a),
        union_area(a, b) >= area(b),
        union_area(a, b) >= area(overlap_box(a, b)),
{
    let o = overlap_box(a, b);
    let ow = extent(o.x1, o.x2);
    let oh = extent(o.y1, o.y2);
    let aw = extent(a.x1, a.x2);
    let ah = extent(a.y1, a.y2);
    let bw = extent(b.x1, b.x2);
    let bh = extent(b.y1, b.y2);
    assert(0 <= ow <= aw && ow <= bw);
    assert(0 <= oh <= ah && oh <= bh);
    assert(0 <= ow * oh <= aw * ah) by (nonlinear_arith)
        requires
            0 <= ow <= aw,
            0 <= oh <= ah,
    ;
    assert(ow * oh <= bw * bh) by (nonlinear_arith)
        requires
            0 <= ow <= bw,
            0 <= oh <= bh,
    ;
}

/// The area of a box.
pub fn bbox_area(b: &BBox) -> (r: u128)
    ensures
        r == area(*b),
{
    let w: u64 = if b.x2 > b.x1 {
        (b.x2 as i64 - b.x1 as i64) as u64
    } else {
        0
    };
    let h: u64 = if b.y2 > b.y1 {
        (b.y2 as i64 - b.y1 as i64) as u64
    } else {
        0
    };
    assert(w <= 0x1_0000_0000 && h <= 0x1_0000_0000);
    assert(w as int * h as int <= 0x1_0000_0000 * 0x1_0000_0000) by (nonlinear_arith)
        requires
            w <= 0x1_0000_0000,
            h <= 0x1_0000_0000,
    ;
    (w as u128) * (h as u128)
}

/// The intersection over union of two boxes, as the exact ratio of the overlap's area to
/// the union's area.
pub fn iou(a: &BBox, b: &BBox) -> (r: Iou)
    ensures
        r.intersection == area(overlap_box(*a, *b)),
        r.combined == union_area(*a, *b),
{
    let o = BBox {
        x1: if a.x1 >= b.x1 { a.x1 } else { b.x1 },
        y1: if a.y1 >= b.y1 { a.y1 } else { b.y1 },
        x2: if a.x2 <= b.x2 { a.x2 } else { b.x2 },
        y2: if a.y2 <= b.y2 { a.y2 } else { b.y2 },
    };
    let overlap = bbox_area(&o);
    let area_a = bbox_area(a);
    let area_b = bbox_area(b);
    proof {
        lemma_overlap_le(*a, *b);
        lemma_area_bounds(*a);
        lemma_area_bounds(*b);
    }
    Iou { intersection: overlap, combined: area_a + area_b - overlap }
}

/// Whether the IoU of `a` and `b` is above `max_iou / UNIT`.
pub fn iou_exceeds(a: &BBox, b: &BBox, max_iou: u32) -> (r: bool)
    ensures
        r == exceeds(*a, *b, max_iou),
{
    let v = iou(a, b);
    proof {
        lemma_overlap_le(*a, *b);
        lemma_area_bounds(*a);
        lemma_area_bounds(*b);
        let o = v.intersection as int;
        let u = v.combined as int;
        assert(o * 1_000_000 <= 0x1_0000_0000_0000_0000 * 1_000_000) by (nonlinear_arith)
            requires
                0 <= o <= 0x1_0000_0000_0000_0000,
        ;
        assert(max_iou as int * u <= 0x1_0000_0000 * 0x2_0000_0000_0000_0000) by (nonlinear_arith)
            requires
                0 <= max_iou <= 0x1_0000_0000,
                0 <= u <= 0x2_0000_0000_0000_0000,
        ;
    }
    v.intersection * (UNIT as u128) > (max_iou as u128) * v.combined
}

/// IoU does not depend on the order of its arguments, and a box's IoU with itself is 1
/// when it has an area and 0 when it has none.
pub proof fn iou_symmetric_and_reflexive(a: BBox, b: BBox)
    ensures
        area(overlap_box(a, b)) == area(overlap_box(b, a)),
        union_area(a, b) == union_area(b, a),
        forall|t: u32| exceeds(a, b, t) == exceeds(b, a, t),
        area(a) > 0 ==> area(overlap_box(a, a)) == union_area(a, a) && union_area(a, a) > 0,
        area(a) == 0 ==> area(overlap_box(a, a)) == 0,
{
    assert(overlap_box(a, b) == overlap_box(b, a));
    assert(overlap_box(a, a) == a);
}

/// `c` overlaps some box of `sel` by more than `max_iou`.
pub open spec fn conflicts(c: Detection, sel: Seq<Detection>, max_iou: u32) -> bool {
    exists|j: int| 0 <= j < sel.len() && exceeds(c.bbox, #[trigger] sel[j].bbox, max_iou)
}

/// Non-maximum suppression, continued from the selection `sel`: candidates are taken
/// from the back of `cands` (the most confident last); the first one not above
/// `min_confidence` ends the run; a candidate is selected unless it overlaps an already
/// selected box by more than `max_iou`.
pub open spec fn nms_from(
    cands: Seq<Detection>,
    sel: Seq<Detection>,
    max_iou: u32,
    min_confidence: u32,
) -> Seq<Detection>
    decreases cands.len(),
{
    if cands.len() == 0 {
        sel
    } else {
        let c = cands.last();
        if c.confidence <= min_confidence {
            sel
        } else if conflicts(c, sel, max_iou) {
            nms_from(cands.drop_last(), sel, max_iou, min_confidence)
        } else {
            nms_from(cands.drop_last(), sel.push(c), max_iou, min_confidence)
        }
    }
}

/// Non-maximum suppression of candidates in ascending order of confidence; the result
/// is in order of selection, most confident first.
pub open spec fn nms(cands: Seq<Detection>, max_iou: u32, min_confidence: u32) -> Seq<Detection> {
    nms_from(cands, Seq::empty(), max_iou, min_confidence)
}

/// `d` inserted into `s` after every element whose confidence is not above its own.
pub open spec fn insert_sorted(s: Seq<Detection>, d: Detection) -> Seq<Detection>
    decreases s.len(),
{
    if s.len() == 0 {
        seq![d]
    } else if s.last().confidence > d.confidence {
        insert_sorted(s.drop_last(), d).push(s.last())
    } else {
        s.push(d)
    }
}

/// `s` sorted by ascending confidence; equal confidences keep their order.
pub open spec fn sort_ascending(s: Seq<Detection>) -> Seq<Detection>
    decreases s.len(),
{
    if s.len() == 0 {
        Seq::empty()
    } else {
        insert_sorted(sort_ascending(s.drop_last()), s.last())
    }
}

/// The candidates of `s` whose confidence is above `min_confidence`, in order.
pub open spec fn confident(s: Seq<Detection>, min_confidence: u32) -> Seq<Detection>
    decreases s.len(),
{
    if s.len() == 0 {
        Seq::empty()
    } else {
        let rest = confident(s.drop_last(), min_confidence);
        if s.last().confidence > min_confidence {
            rest.push(s.last())
        } else {
            rest
        }
    }
}

/// The detections kept from raw candidates: filtered by confidence, sorted, suppressed.
pub open spec fn postprocessed(cands: Seq<Detection>, max_iou: u32, min_confidence: u32) -> Seq<Detection> {
    nms(sort_ascending(confident(cands, min_confidence)), max_iou, min_confidence)
}

/// Whether `c` overlaps a box of `sel` by more than `max_iou`.
fn conflicts_with(c: &Detection, sel: &Vec<Detection>, max_iou: u32) -> (r: bool)
    ensures
        r == conflicts(*c, sel@, max_iou),
{
    let mut j: usize = 0;
    while j < sel.len()
        invariant
            j <= sel@.len(),
            forall|k: int| 0 <= k < j ==> !exceeds(c.bbox, #[trigger] sel@[k].bbox, max_iou),
        decreases sel@.len() - j,
    {
        if iou_exceeds(&c.bbox, &sel[j].bbox, max_iou) {
            return true;
        }
        j = j + 1;
    }
    false
}

/// Runs non-maximum suppression on candidates sorted by ascending confidence: the most
/// confident candidates are taken first, the run stops at the first one not above
/// `min_confidence`, and a candidate is kept unless its IoU with an already kept box is
/// above `max_iou`. The result is most confident first.
pub fn non_maximum_suppression(
    sorted_bboxes_with_confidences: Vec<Detection>,
    max_iou: u32,
    min_confidence: u32,
) -> (selected: Vec<Detection>)
    ensures
        selected@ == nms(sorted_bboxes_with_confidences@, max_iou, min_confidence),
{
    let ghost target = nms(sorted_bboxes_with_confidences@, max_iou, min_confidence);
    let mut cands = sorted_bboxes_with_confidences;
    let mut selected: Vec<Detection> = Vec::new();
    let mut done = false;
    while !done && cands.len() > 0
        invariant
            done ==> selected@ == target,
            !done ==> nms_from(cands@, selected@, max_iou, min_confidence) == target,
        decreases cands@.len(),
    {
        let ghost before = cands@;
        match cands.pop() {
            None => {},
            Some(c) => {
                assert(before.drop_last() =~= cands@);
                if c.confidence <= min_confidence {
                    done = true;
                } else if !conflicts_with(&c, &selected, max_iou) {
                    selected.push(c);
                }
            },
        }
    }
    selected
}

/// Inserting at the position found by scanning from the back is `insert_sorted`.
proof fn lemma_insert_at(s: Seq<Detection>, d: Detection, j: int)
    requires
        0 <= j <= s.len(),
        forall|k: int| j <= k < s.len() ==> s[k].confidence > d.confidence,
        j == 0 || s[j - 1].confidence <= d.confidence,
    ensures
        insert_sorted(s, d) == s.insert(j, d),
    decreases s.len(),
{
    if s.len() == 0 {
        assert(s.insert(j, d) =~= seq![d]);
    } else if s.last().confidence > d.confidence {
        assert(j < s.len());
        lemma_insert_at(s.drop_last(), d, j);
        assert(s.drop_last().insert(j, d).push(s.last()) =~= s.insert(j, d));
    } else {
        assert(j == s.len());
        assert(s.push(d) =~= s.insert(j, d));
    }
}

/// `v` with `d` inserted after every element whose confidence is not above its own.
fn insert_by_confidence(v: &mut Vec<Detection>, d: Detection)
    ensures
        final(v)@ == insert_sorted(old(v)@, d),
{
    let mut j: usize = v.len();
    while j > 0 && v[j - 1].confidence > d.confidence
        invariant
            j <= v@.len(),
            v@ == old(v)@,
            forall|k: int| j <= k < v@.len() ==> v@[k].confidence > d.confidence,
        decreases j,
    {
        j = j - 1;
    }
    proof {
        lemma_insert_at(v@, d, j as int);
    }
    v.insert(j, d);
}

/// Sorts detections by ascending confidence; equal confidences keep their order.
pub fn sort_by_confidence(cands: Vec<Detection>) -> (sorted: Vec<Detection>)
    ensures
        sorted@ == sort_ascending(cands@),
{
    let mut sorted: Vec<Detection> = Vec::new();
    let mut i: usize = 0;
    while i < cands.len()
        invariant
            i <= cands@.len(),
            sorted@ == sort_ascending(cands@.take(i as int)),
        decreases cands@.len() - i,
    {
        proof {
            assert(cands@.take(i + 1).drop_last() =~= cands@.take(i as int));
        }
        insert_by_confidence(&mut sorted, cands[i]);
        i = i + 1;
    }
    assert(cands@.take(i as int) =~= cands@);
    sorted
}

/// The candidates whose confidence is above `min_confidence`, in order.
pub fn filter_confident(cands: &Vec<Detection>, min_confidence: u32) -> (kept: Vec<Detection>)
    ensures
        kept@ == confident(cands@, min_confidence),
{
    let mut kept: Vec<Detection> = Vec::new();
    let mut i: usize = 0;
    while i < cands.len()
        invariant
            i <= cands@.len(),
            kept@ == confident(cands@.take(i as int), min_confidence),
        decreases cands@.len() - i,
    {
        proof {
            assert(cands@.take(i + 1).drop_last() =~= cands@.take(i as int));
        }
        if cands[i].confidence > min_confidence {
            kept.push(cands[i]);
        }
        i = i + 1;
    }
    assert(cands@.take(i as int) =~= cands@);
    kept
}

/// The detections kept from raw model candidates: those above `min_confidence`, sorted
/// by ascending confidence, then non-maximum suppression with `max_iou`; most
/// confident first.
pub fn postprocess(cands: &Vec<Detection>, max_iou: u32, min_confidence: u32) -> (selected: Vec<
    Detection,
>)
    ensures
        selected@ == postprocessed(cands@, max_iou, min_confidence),
{
    let kept = filter_confident(cands, min_confidence);
    let sorted = sort_by_confidence(kept);
    non_maximum_suppression(sorted, max_iou, min_confidence)
}

/// Every later box of `sel` is within `max_iou` of every earlier one, and all are
/// above `min_confidence`.
pub open spec fn compatible(sel: Seq<Detection>, max_iou: u32, min_confidence: u32) -> bool {
    &&& forall|i: int| 0 <= i < sel.len() ==> (#[trigger] sel[i]).confidence > min_confidence
    &&& forall|i: int, j: int|
        0 <= i < j < sel.len() ==> !exceeds(#[trigger] sel[j].bbox, #[trigger] sel[i].bbox, max_iou)
}

/// Suppression only ever adds compatible boxes to a compatible selection.
proof fn lemma_nms_compatible(cands: Seq<Detection>, sel: Seq<Detection>, max_iou: u32, min_confidence: u32)
    requires
        compatible(sel, max_iou, min_confidence),
    ensures
        compatible(nms_from(cands, sel, max_iou, min_confidence), max_iou, min_confidence),
    decreases cands.len(),
{
    if cands.len() > 0 {
        let c = cands.last();
        if c.confidence <= min_confidence {
        } else if conflicts(c, sel, max_iou) {
            lemma_nms_compatible(cands.drop_last(), sel, max_iou, min_confidence);
        } else {
            let s2 = sel.push(c);
            assert forall|i: int, j: int| 0 <= i < j < s2.len() implies !exceeds(
                #[trigger] s2[j].bbox,
                #[trigger] s2[i].bbox,
                max_iou,
            ) by {
                if j == sel.len() {
                    assert(!exceeds(c.bbox, sel[i].bbox, max_iou));
                } else {
                    assert(s2[i] == sel[i] && s2[j] == sel[j]);
                }
            }
            assert(compatible(s2, max_iou, min_confidence));
            lemma_nms_compatible(cands.drop_last(), s2, max_iou, min_confidence);
        }
    }
}

/// Candidates that are pairwise within `max_iou`, above `min_confidence`, and within
/// `max_iou` of the selection are all selected, in the order they are taken.
proof fn lemma_nms_takes_all(s: Seq<Detection>, sel: Seq<Detection>, max_iou: u32, min_confidence: u32)
    requires
        forall|i: int| 0 <= i < s.len() ==> (#[trigger] s[i]).confidence > min_confidence,
        forall|i: int, j: int|
            0 <= i < s.len() && 0 <= j < s.len() && i != j ==> !exceeds(
                #[trigger] s[i].bbox,
                #[trigger] s[j].bbox,
                max_iou,
            ),
        forall|i: int, j: int|
            0 <= i < s.len() && 0 <= j < sel.len() ==> !exceeds(
                #[trigger] s[i].bbox,
                #[trigger] sel[j].bbox,
                max_iou,
            ),
    ensures
        nms_from(s, sel, max_iou, min_confidence) == sel + s.reverse(),
    decreases s.len(),
{
    if s.len() == 0 {
        assert(sel + s.reverse() =~= sel);
    } else {
        let c = s.last();
        let init = s.drop_last();
        assert(c == s[s.len() - 1]);
        assert(!conflicts(c, sel, max_iou));
        let sel2 = sel.push(c);
        assert forall|i: int, j: int| 0 <= i < init.len() && 0 <= j < sel2.len() implies !exceeds(
            #[trigger] init[i].bbox,
            #[trigger] sel2[j].bbox,
            max_iou,
        ) by {
            assert(init[i] == s[i]);
            if j == sel.len() {
                assert(sel2[j] == s[s.len() - 1]);
            } else {
                assert(sel2[j] == sel[j]);
            }
        }
        assert forall|i: int, j: int|
            0 <= i < init.len() && 0 <= j < init.len() && i != j implies !exceeds(
            #[trigger] init[i].bbox,
            #[trigger] init[j].bbox,
            max_iou,
        ) by {
            assert(init[i] == s[i] && init[j] == s[j]);
        }
        assert forall|i: int| 0 <= i < init.len() implies (#[trigger] init[i]).confidence
            > min_confidence by {
            assert(init[i] == s[i]);
        }
        lemma_nms_takes_all(init, sel2, max_iou, min_confidence);
        assert(sel2 + init.reverse() =~= sel + s.reverse());
    }
}

/// Non-maximum suppression applied to its own output, with the same thresholds, keeps
/// every box: fed back as it comes out it returns the same boxes in reverse order, and
/// fed back in ascending order it returns exactly the same sequence. Either way the
/// set of boxes is unchanged.
pub proof fn nms_idempotent(cands: Seq<Detection>, max_iou: u32, min_confidence: u32)
    ensures
        nms(nms(cands, max_iou, min_confidence), max_iou, min_confidence) == nms(
            cands,
            max_iou,
            min_confidence,
        ).reverse(),
        nms(nms(cands, max_iou, min_confidence).reverse(), max_iou, min_confidence) == nms(
            cands,
            max_iou,
            min_confidence,
        ),
        nms(nms(cands, max_iou, min_confidence), max_iou, min_confidence).to_set() == nms(
            cands,
            max_iou,
            min_confidence,
        ).to_set(),
{
    let y = nms(cands, max_iou, min_confidence);
    let e = Seq::<Detection>::empty();
    assert(compatible(e, max_iou, min_confidence));
    lemma_nms_compatible(cands, e, max_iou, min_confidence);
    assert forall|i: int, j: int|
        0 <= i < y.len() && 0 <= j < y.len() && i != j implies !exceeds(
        #[trigger] y[i].bbox,
        #[trigger] y[j].bbox,
        max_iou,
    ) by {
        if i < j {
            iou_symmetric_and_reflexive(y[j].bbox, y[i].bbox);
        }
    }
    lemma_nms_takes_all(y, e, max_iou, min_confidence);
    assert(e + y.reverse() =~= y.reverse());
    let r = y.reverse();
    assert forall|i: int| 0 <= i < r.len() implies (#[trigger] r[i]).confidence > min_confidence by {
        assert(r[i] == y[y.len() - 1 - i]);
    }
    assert forall|i: int, j: int|
        0 <= i < r.len() && 0 <= j < r.len() && i != j implies !exceeds(
        #[trigger] r[i].bbox,
        #[trigger] r[j].bbox,
        max_iou,
    ) by {
        assert(r[i] == y[y.len() - 1 - i]);
        assert(r[j] == y[y.len() - 1 - j]);
    }
    lemma_nms_takes_all(r, e, max_iou, min_confidence);
    assert(e + r.reverse() =~= y);
    assert(y.reverse().to_set() =~= y.to_set()) by {
        assert forall|x: Detection| y.reverse().to_set().contains(x) implies y.to_set().contains(x) by {
            let i = choose|i: int| 0 <= i < r.len() && r[i] == x;
            assert(y[y.len() - 1 - i] == x);
        }
        assert forall|x: Detection| y.to_set().contains(x) implies y.reverse().to_set().contains(x) by {
            let i = choose|i: int| 0 <= i < y.len() && y[i] == x;
            assert(r[y.len() - 1 - i] == x);
        }
    }
}

/// The candidates made of face scores and box coordinates, four per score; none when
/// the shapes do not match.
pub open spec fn paired(scores: Seq<u32>, coords: Seq<i32>) -> Seq<Detection> {
    if coords.len() != 4 * scores.len() {
        Seq::empty()
    } else {
        Seq::new(
            scores.len(),
            |i: int|
                Detection {
                    bbox: BBox {
                        x1: coords[4 * i],
                        y1: coords[4 * i + 1],
                        x2: coords[4 * i + 2],
                        y2: coords[4 * i + 3],
                    },
                    confidence: scores[i],
                },
        )
    }
}

/// Pairs the model's face scores with its box coordinates (`x1, y1, x2, y2` per box).
/// A shape mismatch yields no candidates rather than a failure.
pub fn pair_candidates(scores: &Vec<u32>, coords: &Vec<i32>) -> (cands: Vec<Detection>)
    ensures
        cands@ == paired(scores@, coords@),
{
    let n = scores.len();
    let m = coords.len();
    if n > usize::MAX / 4 || m != 4 * n {
        proof {
            if n > usize::MAX / 4 {
                assert(4 * n > usize::MAX) by (nonlinear_arith)
                    requires
                        n > usize::MAX / 4,
                ;
            }
        }
        return Vec::new();
    }
    let mut cands: Vec<Detection> = Vec::new();
    let mut i: usize = 0;
    while i < n
        invariant
            n == scores@.len(),
            n <= usize::MAX / 4,
            coords@.len() == 4 * n,
            i <= n,
            cands@ == paired(scores@, coords@).take(i as int),
        decreases n - i,
    {
        let d = Detection {
            bbox: BBox {
                x1: coords[4 * i],
                y1: coords[4 * i + 1],
                x2: coords[4 * i + 2],
                y2: coords[4 * i + 3],
            },
            confidence: scores[i],
        };
        cands.push(d);
        i = i + 1;
        assert(cands@ =~= paired(scores@, coords@).take(i as int));
    }
    assert(paired(scores@, coords@).take(n as int) =~= paired(scores@, coords@));
    cands
}

/// A rectangle in pixels: top-left corner and size.
#[derive(Clone, Copy, Debug, PartialEq, Eq, Structural)]
pub struct PixelRect {
    pub x: u32,
    pub y: u32,
    pub width: u32,
    pub height: u32,
}

/// A relative coordinate clipped to the image, `[0, UNIT]`.
pub open spec fn clip(c: i32) -> int {
    if c < 0 {
        0
    } else if c > UNIT {
        UNIT as int
    } else {
        c as int
    }
}

/// The pixel of a relative coordinate along a side of `size` pixels.
pub open spec fn to_pixel(c: i32, size: u32) -> int {
    clip(c) * size / (UNIT as int)
}

/// The pixel rectangle of a box on a `width` x `height` image, clipped to the image;
/// `None` when nothing of it is left.
pub open spec fn pixel_rect_of(b: BBox, width: u32, height: u32) -> Option<PixelRect> {
    let x1 = to_pixel(b.x1, width);
    let x2 = to_pixel(b.x2, width);
    let y1 = to_pixel(b.y1, height);
    let y2 = to_pixel(b.y2, height);
    if x2 > x1 && y2 > y1 {
        Some(
            PixelRect {
                x: x1 as u32,
                y: y1 as u32,
                width: (x2 - x1) as u32,
                height: (y2 - y1) as u32,
            },
        )
    } else {
        None
    }
}

fn pixel_of(c: i32, size: u32) -> (p: u32)
    ensures
        p == to_pixel(c, size),
        p <= size,
{
    let clipped: u64 = if c < 0 {
        0
    } else if c > UNIT as i32 {
        UNIT as u64
    } else {
        c as u64
    };
    assert(clipped * size <= 1_000_000 * size) by (nonlinear_arith)
        requires
            clipped <= 1_000_000,
    ;
    assert(1_000_000 * (size as int) <= 1_000_000 * 0x1_0000_0000) by (nonlinear_arith);
    let prod = clipped * (size as u64);
    assert(prod / 1_000_000 <= size) by (nonlinear_arith)
        requires
            prod <= 1_000_000 * size,
    ;
    (prod / (UNIT as u64)) as u32
}

/// The pixel rectangle to draw for a box on a `width` x `height` image.
pub fn pixel_rect(b: &BBox, width: u32, height: u32) -> (r: Option<PixelRect>)
    ensures
        r == pixel_rect_of(*b, width, height),
{
    let x1 = pixel_of(b.x1, width);
    let x2 = pixel_of(b.x2, width);
    let y1 = pixel_of(b.y1, height);
    let y2 = pixel_of(b.y2, height);
    if x2 > x1 && y2 > y1 {
        Some(PixelRect { x: x1, y: y1, width: x2 - x1, height: y2 - y1 })
    } else {
        None
    }
}

/// Supported variants of the Ultraface face detector.
#[derive(Clone, Copy, Debug, PartialEq, Eq, Structural)]
pub enum UltrafaceVariant {
    W640H480,
    W320H240,
}

impl UltrafaceVariant {
    /// The input width and height the variant expects.
    pub fn width_height(&self) -> (r: (u32, u32))
        ensures
            *self == UltrafaceVariant::W640H480 ==> r == (640u32, 480u32),
            *self == UltrafaceVariant::W320H240 ==> r == (320u32, 240u32),
    {
        match self {
            UltrafaceVariant::W640H480 => (640, 480),
            UltrafaceVariant::W320H240 => (320, 240),
        }
    }
}

/// Post-processing of Ultraface candidates with the default thresholds.
pub fn postproc_ultraface(cands: &Vec<Detection>) -> (selected: Vec<Detection>)
    ensures
        selected@ == postprocessed(cands@, DEFAULT_MAX_IOU, DEFAULT_MIN_CONFIDENCE),
{
    postprocess(cands, DEFAULT_MAX_IOU, DEFAULT_MIN_CONFIDENCE)
}

proof fn lemma_sorted_len(s: Seq<Detection>)
    ensures
        sort_ascending(s).len() == s.len(),
    decreases s.len(),
{
    if s.len() > 0 {
        lemma_sorted_len(s.drop_last());
        lemma_insert_len(sort_ascending(s.drop_last()), s.last());
    }
}

proof fn lemma_insert_len(s: Seq<Detection>, d: Detection)
    ensures
        insert_sorted(s, d).len() == s.len() + 1,
    decreases s.len(),
{
    if s.len() > 0 {
        lemma_insert_len(s.drop_last(), d);
    }
}

/// The most confident candidate (the last of the most confident, on a tie); `None`
/// when there is none.
pub fn get_top_bbox_from_ultraface(cands: Vec<Detection>) -> (top: Option<Detection>)
    ensures
        cands@.len() == 0 ==> top is None,
        cands@.len() > 0 ==> top == Some(sort_ascending(cands@).last()),
{
    let mut sorted = sort_by_confidence(cands);
    proof {
        lemma_sorted_len(cands@);
    }
    sorted.pop()
}

} // verus!
