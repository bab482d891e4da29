//! Decisions of one solve: which detections become answer cells, which one is
//! the prompt box, and which features make it into the result.
//!
//! A detection is seen here through its class and an integer key that orders
//! it by confidence; box geometry and features stay with the caller.

use vstd::prelude::*;
use crate::imaging::{decode_as, decoded, decoded_as, guess_format, guessed_format};
use crate::perf::{after_start, after_stop, running_after_start, running_after_stop, PerfTimer};
use crate::yolo::{bool_rows, is_square, lemma_nms_kept, nms, nms_kept, ranks_before, restrict_matrix};
use image::{DynamicImage, ImageError};

verus! {

/// At most this many answer cells are reported. It is well above the number of
/// prompt characters: the grid holds decoys besides the cells to click.
pub const MAX_ANS: usize = 8;

/// Class of an answer cell.
pub const ANSWER_CLASS: i32 = 0;

/// Class of the prompt strip.
pub const PROMPT_CLASS: i32 = 1;

/// What the selection reads of a detection: its class and its confidence key
/// (larger means more confident, in the order of `f32::total_cmp`).
#[derive(Clone, Copy, Debug, PartialEq, Eq, Structural)]
pub struct DetectionKey {
    pub class_id: i32,
    pub score: i32,
}

/// Positions of the detections of class `class`, in input order.
pub open spec fn class_indices(dets: Seq<DetectionKey>, class: i32) -> Seq<usize>
    decreases dets.len(),
{
    if dets.len() == 0 {
        Seq::empty()
    } else {
        let prev = class_indices(dets.drop_last(), class);
        if dets.last().class_id == class {
            prev.push((dets.len() - 1) as usize)
        } else {
            prev
        }
    }
}

/// Confidence keys of the candidates `cands`.
pub open spec fn candidate_keys(dets: Seq<DetectionKey>, cands: Seq<usize>) -> Seq<i32> {
    Seq::new(cands.len(), |p: int| dets[cands[p] as int].score)
}

/// The answer cells: the answer-class detections that survive non-maximum
/// suppression, most confident first, at most `MAX_ANS` of them.
pub open spec fn answer_boxes(dets: Seq<DetectionKey>, sup: Seq<Seq<bool>>) -> Seq<usize> {
    let cands = class_indices(dets, ANSWER_CLASS);
    let kept = nms_kept(candidate_keys(dets, cands), restrict_matrix(sup, cands));
    let n = if kept.len() > MAX_ANS { MAX_ANS as int } else { kept.len() as int };
    kept.take(n).map_values(|p: usize| cands[p as int])
}

proof fn lemma_class_indices(dets: Seq<DetectionKey>, class: i32)
    requires
        dets.len() <= usize::MAX,
    ensures
        ({
            let c = class_indices(dets, class);
            &&& forall|p: int| 0 <= p < c.len() ==> #[trigger] c[p] < dets.len() && dets[c[p] as int].class_id == class
            &&& forall|p: int, q: int| 0 <= p < q < c.len() ==> #[trigger] c[p] < #[trigger] c[q]
            &&& forall|i: int| 0 <= i < dets.len() && #[trigger] dets[i].class_id == class ==> c.contains(i as usize)
            &&& c.len() <= dets.len()
        }),
    decreases dets.len(),
{
    if dets.len() > 0 {
        let prev = dets.drop_last();
        lemma_class_indices(prev, class);
        let cp = class_indices(prev, class);
        let c = class_indices(dets, class);
        if dets.last().class_id == class {
            assert(c == cp.push((dets.len() - 1) as usize));
            assert(dets.last() == dets[dets.len() - 1]);
        } else {
            assert(c == cp);
        }
        assert forall|p: int| 0 <= p < cp.len() implies #[trigger] cp[p] < dets.len() - 1
            && dets[cp[p] as int].class_id == class by {
            assert(dets[cp[p] as int] == prev[cp[p] as int]);
        }
        assert forall|p: int| 0 <= p < c.len() implies #[trigger] c[p] < dets.len()
            && dets[c[p] as int].class_id == class by {
            if p < cp.len() {
                assert(c[p] == cp[p]);
            }
        }
        assert forall|p: int, q: int| 0 <= p < q < c.len() implies #[trigger] c[p] < #[trigger] c[q] by {
            if q < cp.len() {
                assert(c[p] == cp[p] && c[q] == cp[q]);
            } else {
                assert(c[p] == cp[p]);
            }
        }
        assert forall|i: int| 0 <= i < dets.len() && #[trigger] dets[i].class_id == class implies c.contains(
            i as usize,
        ) by {
            if i < dets.len() - 1 {
                assert(prev[i] == dets[i]);
                assert(cp.contains(i as usize));
                let r = choose|r: int| 0 <= r < cp.len() && cp[r] == i as usize;
                assert(c[r] == i as usize);
            } else {
                assert(c[cp.len() as int] == i as usize);
            }
        }
    }
}

/// What the answer cells are, for every list of detections and every square
/// suppression matrix: at most `MAX_ANS` answer-class detections, most confident
/// first (ties in input order), none overlapping a more confident one; and no
/// answer-class detection is left out without cause: it is returned, or a
/// returned cell ranked before it suppresses it, or `MAX_ANS` cells ranked before
/// it are returned.
pub proof fn lemma_answer_boxes(dets: Seq<DetectionKey>, sup: Seq<Seq<bool>>)
    requires
        dets.len() <= usize::MAX,
        is_square(sup, dets.len() as int),
    ensures
        ({
            let boxes = answer_boxes(dets, sup);
            &&& boxes.len() <= MAX_ANS
            &&& forall|p: int| 0 <= p < boxes.len() ==> #[trigger] boxes[p] < dets.len()
                && dets[boxes[p] as int].class_id == ANSWER_CLASS
            &&& forall|p: int, q: int| 0 <= p < q < boxes.len() ==> {
                ||| dets[#[trigger] boxes[p] as int].score > dets[#[trigger] boxes[q] as int].score
                ||| dets[boxes[p] as int].score == dets[boxes[q] as int].score && boxes[p] < boxes[q]
            }
            &&& forall|p: int, q: int| 0 <= p < q < boxes.len() ==> !sup[#[trigger] boxes[q] as int][#[trigger] boxes[p] as int]
            &&& forall|i: int| 0 <= i < dets.len() && #[trigger] dets[i].class_id == ANSWER_CLASS ==> {
                ||| boxes.contains(i as usize)
                ||| exists|p: int| 0 <= p < boxes.len() && sup[i][boxes[p] as int] && {
                    ||| dets[boxes[p] as int].score > dets[i].score
                    ||| dets[boxes[p] as int].score == dets[i].score && boxes[p] < i
                }
                ||| boxes.len() == MAX_ANS && forall|p: int| 0 <= p < boxes.len() ==> {
                    ||| dets[#[trigger] boxes[p] as int].score > dets[i].score
                    ||| dets[boxes[p] as int].score == dets[i].score && boxes[p] < i
                }
            }
        }),
{
    lemma_class_indices(dets, ANSWER_CLASS);
    let cands = class_indices(dets, ANSWER_CLASS);
    let m = cands.len();
    let keys = candidate_keys(dets, cands);
    let sub = restrict_matrix(sup, cands);
    assert(is_square(sub, m as int));
    lemma_nms_kept(keys, sub);
    let kept = nms_kept(keys, sub);
    let take: int = if kept.len() > MAX_ANS { MAX_ANS as int } else { kept.len() as int };
    let boxes = answer_boxes(dets, sup);
    assert(boxes == kept.take(take).map_values(|p: usize| cands[p as int]));
    assert(boxes.len() == take);
    assert forall|p: int| 0 <= p < boxes.len() implies #[trigger] boxes[p] < dets.len()
        && dets[boxes[p] as int].class_id == ANSWER_CLASS by {
        assert(boxes[p] == cands[kept[p] as int]);
    }
    assert forall|p: int, q: int| 0 <= p < q < boxes.len() implies {
        ||| dets[#[trigger] boxes[p] as int].score > dets[#[trigger] boxes[q] as int].score
        ||| dets[boxes[p] as int].score == dets[boxes[q] as int].score && boxes[p] < boxes[q]
    } by {
        assert(ranks_before(keys, kept[p] as int, kept[q] as int));
        assert(boxes[p] == cands[kept[p] as int] && boxes[q] == cands[kept[q] as int]);
        if kept[p] < kept[q] {
            assert(cands[kept[p] as int] < cands[kept[q] as int]);
        }
    }
    assert forall|p: int, q: int| 0 <= p < q < boxes.len() implies
        !sup[#[trigger] boxes[q] as int][#[trigger] boxes[p] as int] by {
        assert(!sub[kept[q] as int][kept[p] as int]);
        assert(boxes[p] == cands[kept[p] as int] && boxes[q] == cands[kept[q] as int]);
    }
    // candidate ranking carries over to the detections
    assert forall|a: int, b: int| 0 <= a < m && 0 <= b < m && ranks_before(keys, a, b) implies {
        ||| dets[cands[a] as int].score > dets[cands[b] as int].score
        ||| dets[cands[a] as int].score == dets[cands[b] as int].score && cands[a] < cands[b]
    } by {
        if a < b {
            assert(cands[a] < cands[b]);
        }
    }
    assert forall|i: int| 0 <= i < dets.len() && #[trigger] dets[i].class_id == ANSWER_CLASS implies {
        ||| boxes.contains(i as usize)
        ||| exists|p: int| 0 <= p < boxes.len() && sup[i][boxes[p] as int] && {
            ||| dets[boxes[p] as int].score > dets[i].score
            ||| dets[boxes[p] as int].score == dets[i].score && boxes[p] < i
        }
        ||| boxes.len() == MAX_ANS && forall|p: int| 0 <= p < boxes.len() ==> {
            ||| dets[#[trigger] boxes[p] as int].score > dets[i].score
            ||| dets[boxes[p] as int].score == dets[i].score && boxes[p] < i
        }
    } by {
        assert(cands.contains(i as usize));
        let c = choose|c: int| 0 <= c < m && cands[c] == i as usize;
        assert(keys[c] == dets[i].score);
        assert((c as usize) < keys.len());
        if kept.contains(c as usize) {
            let q = choose|q: int| 0 <= q < kept.len() && kept[q] == c as usize;
            if q < take {
                assert(boxes[q] == i as usize);
            } else {
                assert forall|p: int| 0 <= p < boxes.len() implies {
                    ||| dets[#[trigger] boxes[p] as int].score > dets[i].score
                    ||| dets[boxes[p] as int].score == dets[i].score && boxes[p] < i
                } by {
                    assert(ranks_before(keys, kept[p] as int, kept[q] as int));
                    assert(boxes[p] == cands[kept[p] as int]);
                }
            }
        } else {
            let j = choose|j: int|
                0 <= j < kept.len() && sub[c][kept[j] as int] && ranks_before(keys, kept[j] as int, c);
            assert(sub[c][kept[j] as int] == sup[i][cands[kept[j] as int] as int]);
            if j < take {
                assert(boxes[j] == cands[kept[j] as int]);
            } else {
                assert forall|p: int| 0 <= p < boxes.len() implies {
                    ||| dets[#[trigger] boxes[p] as int].score > dets[i].score
                    ||| dets[boxes[p] as int].score == dets[i].score && boxes[p] < i
                } by {
                    assert(ranks_before(keys, kept[p] as int, kept[j] as int));
                    assert(ranks_before(keys, kept[p] as int, c));
                    assert(boxes[p] == cands[kept[p] as int]);
                }
            }
        }
    }
}

/// Picks the answer cells among `dets`: the detections of the answer class,
/// through non-maximum suppression (`suppress[a][b]`: detection `a` overlaps
/// detection `b` beyond the IoU threshold), most confident first, and cut to
/// `MAX_ANS` when more survive. Returns positions in `dets`.
pub fn select_answer_boxes(dets: &Vec<DetectionKey>, suppress: &Vec<Vec<bool>>) -> (boxes: Vec<usize>)
    requires
        is_square(bool_rows(suppress@), dets@.len() as int),
    ensures
        boxes@ == answer_boxes(dets@, bool_rows(suppress@)),
        boxes@.len() <= MAX_ANS,
        forall|p: int| 0 <= p < boxes@.len() ==> #[trigger] boxes@[p] < dets@.len()
            && dets@[boxes@[p] as int].class_id == ANSWER_CLASS,
        // most confident first; equal confidences keep their input order
        forall|p: int, q: int| 0 <= p < q < boxes@.len() ==> {
            ||| dets@[#[trigger] boxes@[p] as int].score > dets@[#[trigger] boxes@[q] as int].score
            ||| dets@[boxes@[p] as int].score == dets@[boxes@[q] as int].score && boxes@[p] < boxes@[q]
        },
        // no answer cell overlaps a more confident one
        forall|p: int, q: int| 0 <= p < q < boxes@.len() ==>
            !bool_rows(suppress@)[#[trigger] boxes@[q] as int][#[trigger] boxes@[p] as int],
        // no answer-class detection is left out without cause: it is returned, or a
        // returned cell ranked before it suppresses it, or `MAX_ANS` cells ranked
        // before it are returned
        forall|i: int| 0 <= i < dets@.len() && #[trigger] dets@[i].class_id == ANSWER_CLASS ==> {
            ||| boxes@.contains(i as usize)
            ||| exists|p: int| 0 <= p < boxes@.len() && bool_rows(suppress@)[i][boxes@[p] as int] && {
                ||| dets@[boxes@[p] as int].score > dets@[i].score
                ||| dets@[boxes@[p] as int].score == dets@[i].score && boxes@[p] < i
            }
            ||| boxes@.len() == MAX_ANS && forall|p: int| 0 <= p < boxes@.len() ==> {
                ||| dets@[#[trigger] boxes@[p] as int].score > dets@[i].score
                ||| dets@[boxes@[p] as int].score == dets@[i].score && boxes@[p] < i
            }
        },
{
    let ghost sup = bool_rows(suppress@);
    let n = dets.len();
    let mut cands: Vec<usize> = Vec::new();
    let mut i: usize = 0;
    while i < n
        invariant
            n == dets@.len(),
            i <= n,
            cands@ == class_indices(dets@.take(i as int), ANSWER_CLASS),
        decreases n - i,
    {
        assert(dets@.take(i + 1).drop_last() =~= dets@.take(i as int));
        if dets[i].class_id == ANSWER_CLASS {
            cands.push(i);
        }
        i = i + 1;
    }
    proof {
        assert(dets@.take(n as int) =~= dets@);
        lemma_class_indices(dets@, ANSWER_CLASS);
    }
    let m = cands.len();
    let mut keys: Vec<i32> = Vec::new();
    let mut p: usize = 0;
    while p < m
        invariant
            m == cands@.len(),
            p <= m,
            cands@ == class_indices(dets@, ANSWER_CLASS),
            forall|q: int| 0 <= q < m ==> #[trigger] cands@[q] < dets@.len(),
            keys@ =~= candidate_keys(dets@, cands@).take(p as int),
        decreases m - p,
    {
        keys.push(dets[cands[p]].score);
        p = p + 1;
    }
    assert(keys@ =~= candidate_keys(dets@, cands@));
    let mut sub: Vec<Vec<bool>> = Vec::new();
    let mut a: usize = 0;
    while a < m
        invariant
            m == cands@.len(),
            a <= m,
            sup == bool_rows(suppress@),
            is_square(sup, dets@.len() as int),
            forall|q: int| 0 <= q < m ==> #[trigger] cands@[q] < dets@.len(),
            sub@.len() == a,
            forall|x: int| 0 <= x < a ==> (#[trigger] sub@[x])@ =~= restrict_matrix(sup, cands@)[x],
        decreases m - a,
    {
        let mut row: Vec<bool> = Vec::new();
        let mut b: usize = 0;
        let ca = cands[a];
        assert(sup[ca as int] == suppress@[ca as int]@);
        while b < m
            invariant
                m == cands@.len(),
                a < m,
                b <= m,
                ca == cands@[a as int],
                sup == bool_rows(suppress@),
                is_square(sup, dets@.len() as int),
                sup[ca as int] == suppress@[ca as int]@,
                forall|q: int| 0 <= q < m ==> #[trigger] cands@[q] < dets@.len(),
                row@ =~= restrict_matrix(sup, cands@)[a as int].take(b as int),
            decreases m - b,
        {
            row.push(suppress[ca][cands[b]]);
            b = b + 1;
        }
        assert(row@ =~= restrict_matrix(sup, cands@)[a as int]);
        sub.push(row);
        a = a + 1;
    }
    assert(bool_rows(sub@) =~= restrict_matrix(sup, cands@));
    let kept = nms(&keys, &sub);
    let take = if kept.len() > MAX_ANS { MAX_ANS } else { kept.len() };
    let mut boxes: Vec<usize> = Vec::new();
    let mut t: usize = 0;
    while t < take
        invariant
            take <= kept@.len(),
            take <= MAX_ANS,
            t <= take,
            m == cands@.len(),
            forall|q: int| 0 <= q < kept@.len() ==> #[trigger] kept@[q] < m,
            boxes@ =~= kept@.take(take as int).map_values(|p: usize| cands@[p as int]).take(t as int),
        decreases take - t,
    {
        boxes.push(cands[kept[t]]);
        t = t + 1;
    }
    proof {
        let ghost mapped = kept@.take(take as int).map_values(|p: usize| cands@[p as int]);
        assert(boxes@ =~= mapped);
        lemma_answer_boxes(dets@, sup);
    }
    boxes
}

/// The prompt strip: among the detections of the prompt class, the most
/// confident one; of several equally confident ones, the last. `None` when there
/// is no prompt-class detection.
pub fn select_prompt_box(dets: &Vec<DetectionKey>) -> (best: Option<usize>)
    ensures
        best is None <==> forall|i: int| 0 <= i < dets@.len() ==> #[trigger] dets@[i].class_id != PROMPT_CLASS,
        best matches Some(b) ==> {
            &&& b < dets@.len()
            &&& dets@[b as int].class_id == PROMPT_CLASS
            &&& forall|i: int| 0 <= i < dets@.len() && #[trigger] dets@[i].class_id == PROMPT_CLASS
                ==> dets@[i].score <= dets@[b as int].score
            &&& forall|i: int| b < i < dets@.len() && #[trigger] dets@[i].class_id == PROMPT_CLASS
                ==> dets@[i].score < dets@[b as int].score
        },
{
    let mut best: Option<usize> = None;
    let mut i: usize = 0;
    while i < dets.len()
        invariant
            i <= dets@.len(),
            best is None <==> forall|j: int| 0 <= j < i ==> #[trigger] dets@[j].class_id != PROMPT_CLASS,
            best matches Some(b) ==> {
                &&& b < i
                &&& dets@[b as int].class_id == PROMPT_CLASS
                &&& forall|j: int| 0 <= j < i && #[trigger] dets@[j].class_id == PROMPT_CLASS
                    ==> dets@[j].score <= dets@[b as int].score
                &&& forall|j: int| b < j < i && #[trigger] dets@[j].class_id == PROMPT_CLASS
                    ==> dets@[j].score < dets@[b as int].score
            },
        decreases dets@.len() - i,
    {
        if dets[i].class_id == PROMPT_CLASS {
            match best {
                None => {
                    best = Some(i);
                },
                Some(b) => {
                    if dets[i].score >= dets[b].score {
                        best = Some(i);
                    }
                },
            }
        }
        i = i + 1;
    }
    best
}


/// The values of the successful results, in order.
pub open spec fn successes<T>(results: Seq<Option<T>>) -> Seq<T>
    decreases results.len(),
{
    if results.len() == 0 {
        Seq::empty()
    } else {
        let prev = successes(results.drop_last());
        match results.last() {
            Some(v) => prev.push(v),
            None => prev,
        }
    }
}

/// The entries of `items` whose result succeeded, in order (`results[i]` is the
/// result for `items[i]`).
pub open spec fn succeeded_items<T>(items: Seq<usize>, results: Seq<Option<T>>) -> Seq<usize>
    decreases results.len(),
{
    if results.len() == 0 {
        Seq::empty()
    } else {
        let n = results.len() - 1;
        let prev = succeeded_items(items, results.drop_last());
        if results.last() is Some {
            prev.push(items[n])
        } else {
            prev
        }
    }
}

/// Every result succeeded.
pub open spec fn all_succeeded<T>(results: Seq<Option<T>>) -> bool {
    forall|i: int| 0 <= i < results.len() ==> #[trigger] results[i] is Some
}

proof fn lemma_successes_all<T>(results: Seq<Option<T>>)
    requires
        all_succeeded(results),
    ensures
        successes(results).len() == results.len(),
    decreases results.len(),
{
    if results.len() > 0 {
        assert(all_succeeded(results.drop_last())) by {
            assert forall|i: int| 0 <= i < results.drop_last().len() implies
                #[trigger] results.drop_last()[i] is Some by {
                assert(results.drop_last()[i] == results[i]);
            }
        }
        lemma_successes_all(results.drop_last());
        assert(results[results.len() - 1] is Some);
    }
}

/// What to extract next.
#[derive(Clone, Copy, Debug, PartialEq, Eq, Structural)]
pub enum ExtractionStep {
    /// The features of the detection at this position.
    Answer(usize),
    /// The features of this segment of the prompt strip (segments count from the left).
    Segment(usize),
    /// Nothing is left to extract.
    Done,
}

/// The order in which the features of one solve are extracted, and what is kept
/// of them. Every answer cell is tried, in order, and only the cells whose
/// extraction succeeds are kept, with their features. Then the prompt segments
/// are tried left to right; the first failure discards every prompt feature and
/// ends the extraction: reporting fewer segments than the prompt has would make
/// the caller undercount the characters.
pub struct FeaturePlan<T> {
    boxes: Vec<usize>,
    segments: usize,
    tried: usize,
    kept_boxes: Vec<usize>,
    answer_features: Vec<T>,
    prompt_features: Vec<T>,
    prompt_failed: bool,
    answer_results: Ghost<Seq<Option<T>>>,
    segment_results: Ghost<Seq<Option<T>>>,
}

impl<T> FeaturePlan<T> {
    /// The answer cells to try, as positions among the detections.
    pub closed spec fn boxes(&self) -> Seq<usize> {
        self.boxes@
    }

    /// The number of prompt segments to try.
    pub closed spec fn segments(&self) -> nat {
        self.segments as nat
    }

    /// The results recorded for the answer cells so far, in order.
    pub closed spec fn answer_results(&self) -> Seq<Option<T>> {
        self.answer_results@
    }

    /// The results recorded for the prompt segments so far, in order.
    pub closed spec fn segment_results(&self) -> Seq<Option<T>> {
        self.segment_results@
    }

    /// The step that comes next, given what was recorded.
    pub open spec fn next(&self) -> ExtractionStep {
        if self.answer_results().len() < self.boxes().len() {
            ExtractionStep::Answer(self.boxes()[self.answer_results().len() as int])
        } else if all_succeeded(self.segment_results()) && self.segment_results().len() < self.segments() {
            ExtractionStep::Segment(self.segment_results().len() as usize)
        } else {
            ExtractionStep::Done
        }
    }

    /// The bookkeeping matches the recorded results.
    pub closed spec fn wf(&self) -> bool {
        &&& self.tried == self.answer_results@.len()
        &&& self.tried <= self.boxes@.len()
        &&& self.kept_boxes@ == succeeded_items(self.boxes@, self.answer_results@)
        &&& self.answer_features@ == successes(self.answer_results@)
        &&& self.segment_results@.len() > 0 ==> self.tried == self.boxes@.len()
        &&& self.segment_results@.len() <= self.segments
        &&& self.prompt_failed == !all_succeeded(self.segment_results@)
        &&& !self.prompt_failed ==> self.prompt_features@ == successes(self.segment_results@)
        &&& self.prompt_failed ==> {
            &&& self.prompt_features@.len() == 0
            &&& self.segment_results@.last() is None
            &&& all_succeeded(self.segment_results@.drop_last())
        }
    }

    /// A plan that tries the answer cells `boxes` (positions among the
    /// detections), then `segments` prompt segments.
    pub fn new(boxes: Vec<usize>, segments: usize) -> (plan: Self)
        ensures
            plan.wf(),
            plan.boxes() == boxes@,
            plan.segments() == segments,
            plan.answer_results() == Seq::<Option<T>>::empty(),
            plan.segment_results() == Seq::<Option<T>>::empty(),
    {
        FeaturePlan {
            boxes,
            segments,
            tried: 0,
            kept_boxes: Vec::new(),
            answer_features: Vec::new(),
            prompt_features: Vec::new(),
            prompt_failed: false,
            answer_results: Ghost(Seq::empty()),
            segment_results: Ghost(Seq::empty()),
        }
    }

    /// What to extract next.
    pub fn next_step(&self) -> (step: ExtractionStep)
        requires
            self.wf(),
        ensures
            step == self.next(),
    {
        proof {
            if !self.prompt_failed {
                lemma_successes_all(self.segment_results@);
            }
        }
        if self.tried < self.boxes.len() {
            ExtractionStep::Answer(self.boxes[self.tried])
        } else if !self.prompt_failed && self.prompt_features.len() < self.segments {
            ExtractionStep::Segment(self.prompt_features.len())
        } else {
            ExtractionStep::Done
        }
    }

    /// Records the outcome of the step that `next_step` named: `Some` with the
    /// features when the extraction succeeded, `None` when it failed.
    pub fn record(&mut self, result: Option<T>)
        requires
            old(self).wf(),
            old(self).next() != ExtractionStep::Done,
        ensures
            final(self).wf(),
            final(self).boxes() == old(self).boxes(),
            final(self).segments() == old(self).segments(),
            old(self).next() is Answer ==> {
                &&& final(self).answer_results() == old(self).answer_results().push(result)
                &&& final(self).segment_results() == old(self).segment_results()
            },
            old(self).next() is Segment ==> {
                &&& final(self).answer_results() == old(self).answer_results()
                &&& final(self).segment_results() == old(self).segment_results().push(result)
            },
    {
        proof {
            if !self.prompt_failed {
                lemma_successes_all(self.segment_results@);
            }
        }
        let ghost r = result;
        if self.tried < self.boxes.len() {
            let b = self.boxes[self.tried];
            let ghost prev = self.answer_results@;
            match result {
                Some(v) => {
                    self.kept_boxes.push(b);
                    self.answer_features.push(v);
                },
                None => {},
            }
            self.tried = self.tried + 1;
            proof {
                self.answer_results@ = prev.push(r);
                assert(self.answer_results@.drop_last() =~= prev);
            }
        } else {
            let ghost prev = self.segment_results@;
            match result {
                Some(v) => {
                    self.prompt_features.push(v);
                },
                None => {
                    self.prompt_features.clear();
                    self.prompt_failed = true;
                },
            }
            proof {
                self.segment_results@ = prev.push(r);
                assert(self.segment_results@.drop_last() =~= prev);
                if r is Some {
                    assert forall|i: int| 0 <= i < self.segment_results@.len() implies
                        #[trigger] self.segment_results@[i] is Some by {
                        if i < prev.len() {
                            assert(self.segment_results@[i] == prev[i]);
                        }
                    }
                } else {
                    assert(!(self.segment_results@[prev.len() as int] is Some));
                }
            }
        }
    }

    /// What the solve reports once every step is done: the answer cells whose
    /// extraction succeeded (positions among the detections), their features in
    /// the same order, and the prompt features: one per segment when every
    /// segment succeeded, none otherwise.
    pub fn finish(self) -> (out: (Vec<usize>, Vec<T>, Vec<T>))
        requires
            self.wf(),
            self.next() == ExtractionStep::Done,
        ensures
            self.answer_results().len() == self.boxes().len(),
            out.0@ == succeeded_items(self.boxes(), self.answer_results()),
            out.1@ == successes(self.answer_results()),
            out.0@.len() == out.1@.len(),
            all_succeeded(self.segment_results()) ==> self.segment_results().len() == self.segments()
                && out.2@ == successes(self.segment_results()),
            !all_succeeded(self.segment_results()) ==> out.2@.len() == 0,
            // every reported answer cell was planned
            forall|j: int| 0 <= j < out.0@.len() ==> self.boxes().contains(#[trigger] out.0@[j]),
            // all or nothing
            out.2@.len() == self.segments() || out.2@.len() == 0,
            // every cell whose extraction succeeded is reported, with its features
            forall|i: int| 0 <= i < self.boxes().len() && (#[trigger] self.answer_results()[i]) is Some
                ==> exists|j: int| 0 <= j < out.0@.len() && out.0@[j] == self.boxes()[i]
                && self.answer_results()[i] == Some(out.1@[j]),
            // every reported cell is one whose extraction succeeded, with those features
            forall|j: int| 0 <= j < out.1@.len() ==> #[trigger] came_from(
                self.boxes(),
                self.answer_results(),
                out.0@[j],
                out.1@[j],
            ),
            // reported prompt features are the segments' features, left to right
            forall|j: int| 0 <= j < out.2@.len() ==> #[trigger] self.segment_results()[j] == Some(out.2@[j]),
    {
        proof {
            lemma_results_pairing(self.boxes@, self.answer_results@);
            if !self.prompt_failed {
                lemma_successes_in_order(self.segment_results@);
            }
            let si = succeeded_items(self.boxes@, self.answer_results@);
            let sv = successes(self.answer_results@);
            assert(self.answer_results@.len() == self.boxes@.len());
            assert forall|i: int| 0 <= i < self.boxes@.len() && (#[trigger] self.answer_results@[i]) is Some
                implies exists|j: int| 0 <= j < si.len() && si[j] == self.boxes@[i]
                && self.answer_results@[i] == Some(sv[j]) by {
                let j = choose|j: int| 0 <= j < sv.len() && si[j] == self.boxes@[i]
                    && self.answer_results@[i] == Some(sv[j]);
            }
            lemma_succeeded_items_len(self.boxes@, self.answer_results@);
            lemma_succeeded_items_planned(self.boxes@, self.answer_results@);
            if !self.prompt_failed {
                lemma_successes_all(self.segment_results@);
            }
        }
        let ghost boxes = self.boxes();
        let ghost results = self.answer_results();
        let out = (self.kept_boxes, self.answer_features, self.prompt_features);
        proof {
            lemma_reports_come_from_results(boxes, results, out.0@, out.1@);
        }
        out
    }
}

/// Each successful result is reported with its item, and each report comes
/// from a successful result.
proof fn lemma_results_pairing<T>(items: Seq<usize>, results: Seq<Option<T>>)
    requires
        results.len() <= items.len(),
    ensures
        succeeded_items(items, results).len() == successes(results).len(),
        forall|i: int| 0 <= i < results.len() && (#[trigger] results[i]) is Some ==> exists|j: int|
            0 <= j < successes(results).len() && succeeded_items(items, results)[j] == items[i]
                && results[i] == Some(successes(results)[j]),
        forall|j: int| 0 <= j < successes(results).len() ==> exists|i: int|
            0 <= i < results.len() && results[i] == Some(#[trigger] successes(results)[j])
                && succeeded_items(items, results)[j] == items[i],
    decreases results.len(),
{
    lemma_succeeded_items_len(items, results);
    if results.len() > 0 {
        let prev = results.drop_last();
        let n = results.len() - 1;
        lemma_results_pairing(items, prev);
        let si = succeeded_items(items, results);
        let s = successes(results);
        let psi = succeeded_items(items, prev);
        let ps = successes(prev);
        assert forall|i: int| 0 <= i < results.len() && (#[trigger] results[i]) is Some implies exists|j: int|
            0 <= j < s.len() && si[j] == items[i] && results[i] == Some(s[j]) by {
            if i < n {
                assert(results[i] == prev[i]);
                let j = choose|j: int| 0 <= j < ps.len() && psi[j] == items[i] && prev[i] == Some(ps[j]);
                assert(si[j] == psi[j] && s[j] == ps[j]);
            } else {
                assert(si[ps.len() as int] == items[i]);
                assert(results[i] == Some(s[ps.len() as int]));
            }
        }
        assert forall|j: int| 0 <= j < s.len() implies exists|i: int|
            0 <= i < results.len() && results[i] == Some(#[trigger] s[j]) && si[j] == items[i] by {
            if results.last() is Some {
                assert(s == ps.push(results.last()->0));
                assert(si == psi.push(items[n]));
            } else {
                assert(s == ps);
                assert(si == psi);
            }
            if j < ps.len() {
                assert(s[j] == ps[j] && si[j] == psi[j]);
                let i = choose|i: int| 0 <= i < prev.len() && prev[i] == Some(ps[j]) && psi[j] == items[i];
                assert(results[i] == prev[i]);
            } else {
                assert(results[n] == Some(s[j]) && si[j] == items[n]);
            }
        }
    }
}

/// `value` is the successful result for some position whose item is `item`.
pub open spec fn came_from<T>(items: Seq<usize>, results: Seq<Option<T>>, item: usize, value: T) -> bool {
    exists|i: int| 0 <= i < items.len() && i < results.len() && results[i] == Some(value) && items[i] == item
}

/// Every reported value, with its item, comes from a successful result.
proof fn lemma_reports_come_from_results<T>(
    items: Seq<usize>,
    results: Seq<Option<T>>,
    reported_items: Seq<usize>,
    reported: Seq<T>,
)
    requires
        results.len() <= items.len(),
        reported_items == succeeded_items(items, results),
        reported == successes(results),
    ensures
        forall|j: int| 0 <= j < reported.len() ==> #[trigger] came_from(items, results, reported_items[j], reported[j]),
{
    lemma_results_pairing(items, results);
    assert forall|j: int| 0 <= j < reported.len() implies #[trigger] came_from(items, results, reported_items[j], reported[j]) by {
        let i = choose|i: int| 0 <= i < results.len() && results[i] == Some(#[trigger] successes(results)[j])
            && succeeded_items(items, results)[j] == items[i];
        assert(items[i] == reported_items[j]);
        assert(results[i] == Some(reported[j]));
    }
}

/// When every result succeeded, the values are the results, in order.
proof fn lemma_successes_in_order<T>(results: Seq<Option<T>>)
    requires
        all_succeeded(results),
    ensures
        successes(results).len() == results.len(),
        forall|j: int| 0 <= j < results.len() ==> #[trigger] results[j] == Some(successes(results)[j]),
    decreases results.len(),
{
    lemma_successes_all(results);
    if results.len() > 0 {
        let prev = results.drop_last();
        assert(all_succeeded(prev)) by {
            assert forall|i: int| 0 <= i < prev.len() implies #[trigger] prev[i] is Some by {
                assert(prev[i] == results[i]);
            }
        }
        lemma_successes_in_order(prev);
        assert(results[results.len() - 1] is Some);
        assert forall|j: int| 0 <= j < results.len() implies #[trigger] results[j] == Some(
            successes(results)[j],
        ) by {
            if j < prev.len() {
                assert(prev[j] == results[j]);
            }
        }
    }
}

proof fn lemma_succeeded_items_planned<T>(items: Seq<usize>, results: Seq<Option<T>>)
    requires
        results.len() <= items.len(),
    ensures
        forall|j: int| 0 <= j < succeeded_items(items, results).len() ==> items.contains(
            #[trigger] succeeded_items(items, results)[j],
        ),
    decreases results.len(),
{
    if results.len() > 0 {
        let prev = results.drop_last();
        lemma_succeeded_items_planned(items, prev);
        let n = results.len() - 1;
        let s = succeeded_items(items, results);
        let sp = succeeded_items(items, prev);
        assert forall|j: int| 0 <= j < s.len() implies items.contains(#[trigger] s[j]) by {
            if j < sp.len() {
                assert(s[j] == sp[j]);
            } else {
                assert(s[j] == items[n]);
            }
        }
    }
}

proof fn lemma_succeeded_items_len<T>(items: Seq<usize>, results: Seq<Option<T>>)
    ensures
        succeeded_items(items, results).len() == successes(results).len(),
    decreases results.len(),
{
    if results.len() > 0 {
        lemma_succeeded_items_len(items, results.drop_last());
    }
}

/// Decodes the captcha image once, for detection and for every crop, and times
/// it as stage "preprocess": the format is guessed from the magic bytes and the
/// bytes are decoded as that format (as `image::load_from_memory` does when no
/// format hook is registered in the process). A guessing or decoding error is
/// handed back as it is, and the stage is then left started but not stopped.
pub fn decode_image(bytes: &[u8], timer: &mut PerfTimer) -> (img: Result<DynamicImage, ImageError>)
    requires
        old(timer).wf(),
    ensures
        img == decoded(bytes@),
        // the bytes are decoded in the format guessed from those same bytes
        guessed_format(bytes@) matches Ok(format) ==> img == decoded_as(bytes@, format),
        // with no format recognised, the guessing error comes back
        guessed_format(bytes@) matches Err(e) ==> img == Err::<DynamicImage, ImageError>(e),
        bytes@.len() == 0 ==> img is Err,
        final(timer).wf(),
        final(timer).is_enabled() == old(timer).is_enabled(),
        img is Err ==> {
            &&& final(timer)@ == after_start(old(timer)@, old(timer).is_enabled(), "preprocess"@)
            &&& final(timer).running() == running_after_start(
                old(timer).running(),
                old(timer).is_enabled(),
                "preprocess"@,
            )
        },
        img is Ok ==> {
            let started = after_start(old(timer)@, old(timer).is_enabled(), "preprocess"@);
            let running = running_after_start(old(timer).running(), old(timer).is_enabled(), "preprocess"@);
            &&& exists|span: u128|
                final(timer)@ == after_stop(started, running, old(timer).is_enabled(), "preprocess"@, span)
            &&& final(timer).running() == running_after_stop(running, old(timer).is_enabled(), "preprocess"@)
        },
{
    timer.start("preprocess");
    let img = match guess_format(bytes) {
        Ok(format) => decode_as(bytes, format),
        Err(e) => Err(e),
    };
    match img {
        Ok(img) => {
            timer.stop("preprocess");
            Ok(img)
        },
        Err(e) => Err(e),
    }
}

} // verus!
