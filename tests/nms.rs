use infer_server::detect::{
    bbox_area, get_top_bbox_from_ultraface, iou, iou_exceeds, non_maximum_suppression,
    pair_candidates, pixel_rect, postproc_ultraface, postprocess, sort_by_confidence, BBox,
    Detection, PixelRect, UltrafaceVariant, DEFAULT_MAX_IOU, DEFAULT_MIN_CONFIDENCE, UNIT,
};

fn bx(x1: f64, y1: f64, x2: f64, y2: f64) -> BBox {
    let s = UNIT as f64;
    BBox {
        x1: (x1 * s).round() as i32,
        y1: (y1 * s).round() as i32,
        x2: (x2 * s).round() as i32,
        y2: (y2 * s).round() as i32,
    }
}

fn det(b: [f64; 4], c: f64) -> Detection {
    Detection { bbox: bx(b[0], b[1], b[2], b[3]), confidence: (c * UNIT as f64).round() as u32 }
}

#[test]
fn test_nms_min_confidence() {
    let sorted_bboxes_with_confidences = vec![
        det([1.0, 1.0, 2.0, 2.0], 0.3),
        det([3.0, 3.0, 4.0, 4.0], 0.8),
    ];
    let filtered = non_maximum_suppression(sorted_bboxes_with_confidences, 500_000, 500_000);
    assert_eq!(filtered, vec![det([3.0, 3.0, 4.0, 4.0], 0.8)]);
}

#[test]
fn test_nms_max_iou() {
    let sorted_bboxes_with_confidences = vec![
        det([4.0, 4.0, 8.0, 8.0], 0.6),
        det([1.0, 1.0, 2.0, 2.0], 0.7),
        det([5.5, 4.0, 8.5, 8.0], 0.9),
    ];
    let filtered = non_maximum_suppression(sorted_bboxes_with_confidences, 500_000, 500_000);
    assert_eq!(
        filtered,
        vec![det([5.5, 4.0, 8.5, 8.0], 0.9), det([1.0, 1.0, 2.0, 2.0], 0.7)]
    );
}

#[test]
fn test_nms_all_low_confidence() {
    let sorted_bboxes_with_confidences = vec![
        det([4.0, 4.0, 8.0, 8.0], 0.3),
        det([1.0, 1.0, 2.0, 2.0], 0.4),
        det([5.5, 4.0, 8.5, 8.0], 0.55),
    ];
    let filtered = non_maximum_suppression(sorted_bboxes_with_confidences, 500_000, 600_000);
    assert_eq!(filtered, vec![]);
}

#[test]
fn test_nms_empty_input() {
    let filtered = non_maximum_suppression(vec![], 500_000, 500_000);
    assert_eq!(filtered, vec![]);
}

#[test]
fn nms_boundary_scenario() {
    let cands = vec![
        det([0.1, 0.1, 0.3, 0.3], 0.9),
        det([0.11, 0.11, 0.29, 0.29], 0.7),
        det([0.5, 0.5, 0.6, 0.6], 0.6),
    ];
    let out = postprocess(&cands, DEFAULT_MAX_IOU, DEFAULT_MIN_CONFIDENCE);
    assert_eq!(out, vec![cands[0], cands[2]]);

    let mut more = cands.clone();
    more.push(det([0.1, 0.1, 0.3, 0.3], 0.3));
    let out_low = postprocess(&more, 500_000, 200_000);
    assert_eq!(out_low, vec![cands[0], cands[2]]);
}

#[test]
fn postprocess_filters_sorts_and_suppresses() {
    let cands = vec![
        det([0.5, 0.5, 0.6, 0.6], 0.6),
        det([0.0, 0.0, 0.2, 0.2], 0.4),
        det([0.1, 0.1, 0.3, 0.3], 0.9),
    ];
    let out = postprocess(&cands, 500_000, 500_000);
    assert_eq!(out, vec![cands[2], cands[0]]);
}

#[test]
fn nms_applied_to_own_output_keeps_the_same_boxes() {
    let cands = vec![
        det([0.11, 0.11, 0.29, 0.29], 0.7),
        det([0.5, 0.5, 0.6, 0.6], 0.6),
        det([0.1, 0.1, 0.3, 0.3], 0.9),
        det([0.2, 0.2, 0.4, 0.4], 0.8),
    ];
    let sorted = sort_by_confidence(cands);
    let once = non_maximum_suppression(sorted, 500_000, 500_000);
    let twice = non_maximum_suppression(once.clone(), 500_000, 500_000);
    let mut back: Vec<Detection> = once.clone();
    back.reverse();
    assert_eq!(twice, back);
    let again = non_maximum_suppression(back, 500_000, 500_000);
    assert_eq!(again, once);
}

#[test]
fn sort_is_stable_and_ascending() {
    let a = det([0.0, 0.0, 0.1, 0.1], 0.5);
    let b = det([0.2, 0.2, 0.3, 0.3], 0.3);
    let c = det([0.4, 0.4, 0.5, 0.5], 0.5);
    let sorted = sort_by_confidence(vec![a, b, c]);
    assert_eq!(sorted, vec![b, a, c]);
}

#[test]
fn iou_exact_values() {
    let a = bx(4.0, 4.0, 8.0, 8.0);
    let b = bx(5.5, 4.0, 8.5, 8.0);
    let r = iou(&a, &b);
    // overlap 2.5 x 4 = 10, union 16 + 12 - 10 = 18, in squared fixed-point units
    assert_eq!(r.intersection, 10 * 1_000_000_000_000u128);
    assert_eq!(r.combined, 18 * 1_000_000_000_000u128);
    assert!(iou_exceeds(&a, &b, 500_000));
    assert!(!iou_exceeds(&a, &b, 560_000));
}

#[test]
fn iou_is_symmetric() {
    let a = bx(0.1, 0.2, 0.5, 0.7);
    let b = bx(0.3, 0.1, 0.9, 0.4);
    assert_eq!(iou(&a, &b), iou(&b, &a));
}

#[test]
fn iou_with_itself_is_one_or_zero() {
    let a = bx(0.1, 0.1, 0.3, 0.4);
    let r = iou(&a, &a);
    assert!(r.combined > 0);
    assert_eq!(r.intersection, r.combined);
    let flat = bx(0.3, 0.1, 0.3, 0.4);
    assert_eq!(iou(&flat, &flat).intersection, 0);
    let inverted = bx(0.5, 0.5, 0.1, 0.1);
    assert_eq!(bbox_area(&inverted), 0);
    assert_eq!(iou(&inverted, &inverted).intersection, 0);
}

#[test]
fn disjoint_boxes_have_no_overlap() {
    let a = bx(0.0, 0.0, 0.1, 0.1);
    let b = bx(0.5, 0.5, 0.6, 0.6);
    let r = iou(&a, &b);
    assert_eq!(r.intersection, 0);
    assert_eq!(r.combined, 2 * 100_000u128 * 100_000u128);
    assert!(!iou_exceeds(&a, &b, 0));
}

#[test]
fn pairing_scores_with_coordinates() {
    let cands = pair_candidates(&vec![900_000, 100_000], &vec![1, 2, 3, 4, 5, 6, 7, 8]);
    assert_eq!(
        cands,
        vec![
            Detection { bbox: BBox { x1: 1, y1: 2, x2: 3, y2: 4 }, confidence: 900_000 },
            Detection { bbox: BBox { x1: 5, y1: 6, x2: 7, y2: 8 }, confidence: 100_000 },
        ]
    );
}

#[test]
fn pairing_with_wrong_shape_gives_nothing() {
    assert_eq!(pair_candidates(&vec![900_000, 100_000], &vec![1, 2, 3, 4, 5]), vec![]);
}

#[test]
fn pixel_rect_scales_and_clips() {
    let r = pixel_rect(&bx(0.25, 0.5, 0.75, 1.2), 1280, 720);
    assert_eq!(r, Some(PixelRect { x: 320, y: 360, width: 640, height: 360 }));
    assert_eq!(pixel_rect(&bx(0.5, 0.5, 0.4, 0.9), 1280, 720), None);
    assert_eq!(pixel_rect(&bx(-0.5, -0.5, 0.0, 0.0), 1280, 720), None);
}

#[test]
fn ultraface_input_sizes() {
    assert_eq!(UltrafaceVariant::W640H480.width_height(), (640, 480));
    assert_eq!(UltrafaceVariant::W320H240.width_height(), (320, 240));
}

#[test]
fn top_box_is_most_confident() {
    let a = det([0.0, 0.0, 0.1, 0.1], 0.5);
    let b = det([0.2, 0.2, 0.3, 0.3], 0.8);
    let c = det([0.4, 0.4, 0.5, 0.5], 0.8);
    assert_eq!(get_top_bbox_from_ultraface(vec![a, b, c]), Some(c));
    assert_eq!(get_top_bbox_from_ultraface(vec![b, a]), Some(b));
    assert_eq!(get_top_bbox_from_ultraface(vec![]), None);
}

#[test]
fn default_postprocessing() {
    let cands = vec![
        det([0.1, 0.1, 0.3, 0.3], 0.9),
        det([0.11, 0.11, 0.29, 0.29], 0.7),
        det([0.5, 0.5, 0.6, 0.6], 0.5),
    ];
    assert_eq!(postproc_ultraface(&cands), vec![cands[0]]);
}
