use gtlv_core::engine::{
    select_answer_boxes, select_prompt_box, DetectionKey, ExtractionStep, FeaturePlan, MAX_ANS,
};
use gtlv_core::yolo::nms;

/// Integer key ordered as `f32::total_cmp` orders confidences.
fn key(confidence: f32) -> i32 {
    let bits = confidence.to_bits() as i32;
    bits ^ ((((bits >> 31) as u32) >> 1) as i32)
}

fn no_overlap(n: usize) -> Vec<Vec<bool>> {
    vec![vec![false; n]; n]
}

#[test]
fn nms_keeps_highest_confidence_and_drops_overlaps() {
    // boxes (0,0,10,10) at 0.6, (0.5,0.5,10.5,10.5) at 0.9, (50,50,60,60) at 0.7:
    // the first two overlap with IoU 90.25 / 109.75 > 0.5, the third overlaps none
    let confidences = [0.6f32, 0.9, 0.7];
    let keys: Vec<i32> = confidences.iter().map(|c| key(*c)).collect();
    let suppress = vec![
        vec![false, true, false],
        vec![true, false, false],
        vec![false, false, false],
    ];
    let kept = nms(&keys, &suppress);
    assert_eq!(kept.len(), 2);
    assert_eq!(confidences[kept[0]], 0.9); // most confident first
    assert_eq!(confidences[kept[1]], 0.7);
}

#[test]
fn nms_does_not_panic_on_nan_confidence() {
    // boxes (0,0,10,10) at NaN and (50,50,60,60) at 0.7 do not overlap
    let keys = vec![key(f32::NAN), key(0.7)];
    let kept = nms(&keys, &no_overlap(2));
    assert_eq!(kept.len(), 2);
}

#[test]
fn nms_breaks_ties_by_input_order() {
    let keys = vec![5, 7, 5, 7];
    let kept = nms(&keys, &no_overlap(4));
    assert_eq!(kept, vec![1, 3, 0, 2]);
}

#[test]
fn nms_suppression_only_counts_kept_boxes() {
    // 0 suppresses 1, 1 would suppress 2, but 1 is dropped, so 2 stays
    let keys = vec![30, 20, 10];
    let suppress = vec![
        vec![false, true, false],
        vec![true, false, true],
        vec![false, true, false],
    ];
    assert_eq!(nms(&keys, &suppress), vec![0, 2]);
}

#[test]
fn nms_again_keeps_everything_it_kept() {
    let keys = vec![3, 9, 9, 1, 5];
    let suppress = vec![
        vec![false, false, true, false, false],
        vec![false, false, true, false, true],
        vec![true, true, false, false, false],
        vec![false, false, false, false, false],
        vec![false, true, false, false, false],
    ];
    let kept = nms(&keys, &suppress);
    assert_eq!(kept, vec![1, 0, 3]);
    let keys2: Vec<i32> = kept.iter().map(|&i| keys[i]).collect();
    let suppress2: Vec<Vec<bool>> =
        kept.iter().map(|&a| kept.iter().map(|&b| suppress[a][b]).collect()).collect();
    assert_eq!(nms(&keys2, &suppress2), vec![0, 1, 2]);
}

#[test]
fn nms_of_nothing_is_nothing() {
    assert_eq!(nms(&Vec::new(), &Vec::new()), Vec::<usize>::new());
}

fn det(class_id: i32, confidence: f32) -> DetectionKey {
    DetectionKey { class_id, score: key(confidence) }
}

#[test]
fn answer_boxes_take_class_zero_only() {
    let dets = vec![det(1, 0.99), det(0, 0.5), det(2, 0.9), det(0, 0.8)];
    assert_eq!(select_answer_boxes(&dets, &no_overlap(4)), vec![3, 1]);
}

#[test]
fn answer_boxes_are_cut_to_max_ans() {
    let dets: Vec<DetectionKey> = (0..11).map(|i| det(0, 0.5 + i as f32 * 0.01)).collect();
    let boxes = select_answer_boxes(&dets, &no_overlap(11));
    assert_eq!(boxes.len(), MAX_ANS);
    assert_eq!(boxes, vec![10, 9, 8, 7, 6, 5, 4, 3]);
}

#[test]
fn answer_boxes_ignore_overlap_with_other_classes() {
    // the prompt strip overlaps answer 2, which must not matter
    let dets = vec![det(1, 0.95), det(0, 0.6), det(0, 0.7)];
    let mut suppress = no_overlap(3);
    suppress[2][0] = true;
    suppress[0][2] = true;
    assert_eq!(select_answer_boxes(&dets, &suppress), vec![2, 1]);
}

#[test]
fn prompt_box_is_the_most_confident_prompt() {
    let dets = vec![det(1, 0.4), det(0, 0.99), det(1, 0.8), det(1, 0.6)];
    assert_eq!(select_prompt_box(&dets), Some(2));
}

#[test]
fn prompt_box_ties_go_to_the_last() {
    let dets = vec![det(1, 0.8), det(1, 0.8), det(0, 0.9)];
    assert_eq!(select_prompt_box(&dets), Some(1));
}

#[test]
fn no_prompt_box_without_prompt_class() {
    let dets = vec![det(0, 0.8), det(2, 0.9)];
    assert_eq!(select_prompt_box(&dets), None);
}

#[test]
fn plan_keeps_only_extracted_answers() {
    let mut plan: FeaturePlan<&str> = FeaturePlan::new(vec![4, 2, 7], 2);
    assert_eq!(plan.next_step(), ExtractionStep::Answer(4));
    plan.record(Some("f4"));
    assert_eq!(plan.next_step(), ExtractionStep::Answer(2));
    plan.record(None);
    assert_eq!(plan.next_step(), ExtractionStep::Answer(7));
    plan.record(Some("f7"));
    assert_eq!(plan.next_step(), ExtractionStep::Segment(0));
    plan.record(Some("p0"));
    assert_eq!(plan.next_step(), ExtractionStep::Segment(1));
    plan.record(Some("p1"));
    assert_eq!(plan.next_step(), ExtractionStep::Done);
    let (kept, answers, prompt) = plan.finish();
    assert_eq!(kept, vec![4, 7]);
    assert_eq!(answers, vec!["f4", "f7"]);
    assert_eq!(prompt, vec!["p0", "p1"]);
}

#[test]
fn plan_drops_every_prompt_feature_on_a_failed_segment() {
    let mut plan: FeaturePlan<u32> = FeaturePlan::new(vec![0], 4);
    plan.record(Some(10));
    assert_eq!(plan.next_step(), ExtractionStep::Segment(0));
    plan.record(Some(1));
    plan.record(Some(2));
    assert_eq!(plan.next_step(), ExtractionStep::Segment(2));
    plan.record(None);
    // the remaining segment is not tried
    assert_eq!(plan.next_step(), ExtractionStep::Done);
    let (kept, answers, prompt) = plan.finish();
    assert_eq!(kept, vec![0]);
    assert_eq!(answers, vec![10]);
    assert!(prompt.is_empty());
}

#[test]
fn plan_without_prompt_has_no_segments() {
    let mut plan: FeaturePlan<u8> = FeaturePlan::new(Vec::new(), 0);
    assert_eq!(plan.next_step(), ExtractionStep::Done);
    let (kept, answers, prompt) = plan.finish();
    assert!(kept.is_empty() && answers.is_empty() && prompt.is_empty());
}
