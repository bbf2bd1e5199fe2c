//! From a probability map to a short list of keypoints: candidates above a
//! threshold, thinned out by non-maximum suppression, cut to the best few.
use vstd::prelude::*;
use crate::config::KeypointConfig;
use crate::error::SuperPointError;
use crate::heatmap::{candidates_of, ProbabilityGrid};
use crate::keypoint::{dist_sq, lemma_dist_sq_symmetric, within, Keypoint};
use crate::ranking::{lemma_ranking, precedes, ranked, ranking, sort_by_score};
use crate::rescale::{all_movable, model_size_message, movable, range_message, rescaled_all, scalable, Scale};

verus! {

/// Whether some keypoint of `kept` lies strictly closer than `radius` to `k`.
pub open spec fn suppressed_by(kept: Seq<Keypoint>, k: Keypoint, radius: u64) -> bool {
    exists|a: int| 0 <= a < kept.len() && within(#[trigger] kept[a], k, radius)
}

/// What a walk along `sorted` keeps when it takes each keypoint that no
/// keypoint taken before it suppresses.
pub open spec fn survivors(sorted: Seq<Keypoint>, radius: u64) -> Seq<Keypoint>
    decreases sorted.len(),
{
    if sorted.len() == 0 {
        Seq::empty()
    } else {
        let kept = survivors(sorted.drop_last(), radius);
        if suppressed_by(kept, sorted.last(), radius) {
            kept
        } else {
            kept.push(sorted.last())
        }
    }
}

/// Non-maximum suppression: the survivors of the candidates taken from the
/// highest score down.
pub open spec fn nms_of(candidates: Seq<Keypoint>, radius: u64) -> Seq<Keypoint> {
    survivors(ranked(candidates), radius)
}

/// How many keypoints a limit of `limit` leaves of `len`.
pub open spec fn kept_count(len: nat, limit: usize) -> int {
    if limit <= len {
        limit as int
    } else {
        len as int
    }
}

/// The `limit` best of `keypoints`, from the highest score down.
pub open spec fn top_of(keypoints: Seq<Keypoint>, limit: usize) -> Seq<Keypoint> {
    ranked(keypoints).take(kept_count(keypoints.len(), limit))
}

/// What extraction returns for a map and its settings.
pub open spec fn extraction_of(cells: Seq<u32>, width: int, config: KeypointConfig) -> Seq<Keypoint> {
    let candidates = candidates_of(cells, width, config.threshold);
    let thinned = match config.nms_radius {
        Some(radius) => nms_of(candidates, radius),
        None => candidates,
    };
    match config.max_keypoints {
        Some(limit) => top_of(thinned, limit),
        None => thinned,
    }
}

/// Turns probability maps into keypoints under one set of settings.
pub struct KeypointExtractor {
    config: KeypointConfig,
}

impl KeypointExtractor {
    pub closed spec fn spec_config(&self) -> KeypointConfig {
        self.config
    }

    pub fn new(config: KeypointConfig) -> (extractor: KeypointExtractor)
        ensures
            extractor.spec_config() == config,
    {
        KeypointExtractor { config }
    }

    #[verifier::when_used_as_spec(spec_config)]
    pub fn config(&self) -> (config: KeypointConfig)
        ensures
            config == self.spec_config(),
    {
        self.config
    }

    /// The candidates of the map, suppressed and limited as the settings say.
    pub fn extract_keypoints(&self, heatmap: &ProbabilityGrid) -> (keypoints: Vec<Keypoint>)
        ensures
            keypoints@ == extraction_of(heatmap@, heatmap.spec_width() as int, self.spec_config()),
    {
        let mut keypoints = self.extract_candidates(heatmap);
        if let Some(radius) = self.config.nms_radius {
            keypoints = self.apply_nms(keypoints, radius);
        }
        if let Some(limit) = self.config.max_keypoints {
            keypoints = self.select_top(keypoints, limit);
        }
        keypoints
    }

    /// One keypoint for each cell whose value is strictly above the
    /// threshold, in the order of a scan row by row.
    pub fn extract_candidates(&self, heatmap: &ProbabilityGrid) -> (candidates: Vec<Keypoint>)
        ensures
            candidates@ == candidates_of(
                heatmap@,
                heatmap.spec_width() as int,
                self.spec_config().threshold,
            ),
    {
        heatmap.candidates(self.config.threshold)
    }

    /// Non-maximum suppression: walks the keypoints from the highest score
    /// down and keeps each one that is at least `radius` away from all kept
    /// before it.
    pub fn apply_nms(&self, keypoints: Vec<Keypoint>, radius: u64) -> (kept: Vec<Keypoint>)
        ensures
            kept@ == nms_of(keypoints@, radius),
            kept@.len() <= keypoints@.len(),
            forall|a: int, b: int| 0 <= a < kept@.len() && 0 <= b < kept@.len() && a != b
                ==> dist_sq(#[trigger] kept@[a], #[trigger] kept@[b]) >= radius * radius,
    {
        proof {
            lemma_nms_apart(keypoints@, radius);
        }
        let sorted = sort_by_score(keypoints);
        let mut kept: Vec<Keypoint> = Vec::new();
        let mut i: usize = 0;
        while i < sorted.len()
            invariant
                i <= sorted@.len(),
                kept@ == survivors(sorted@.take(i as int), radius),
            decreases sorted@.len() - i,
        {
            let k = sorted[i];
            assert(sorted@.take(i + 1).drop_last() =~= sorted@.take(i as int));
            if !is_suppressed(&kept, &k, radius) {
                kept.push(k);
            }
            i = i + 1;
        }
        assert(sorted@.take(i as int) =~= sorted@);
        kept
    }

    /// The `limit` best keypoints, from the highest score down; all of them,
    /// so ordered, if there are no more than `limit`.
    pub fn select_top(&self, keypoints: Vec<Keypoint>, limit: usize) -> (best: Vec<Keypoint>)
        ensures
            best@ == top_of(keypoints@, limit),
            best@.len() == kept_count(keypoints@.len(), limit),
            forall|a: int, j: int| 0 <= a < best@.len() && 0 <= j < keypoints@.len()
                && !ranking(keypoints@).take(best@.len() as int).contains(j)
                ==> #[trigger] best@[a].score >= #[trigger] keypoints@[j].score,
    {
        proof {
            lemma_top_beats_rest(keypoints@, limit);
        }
        let mut best = sort_by_score(keypoints);
        best.truncate(limit);
        assert(best@ =~= top_of(keypoints@, limit));
        best
    }

    /// The keypoints of a grid of `model_size`, given as `(height, width)`,
    /// at the resolution `original_size`, given as `(width, height)`, in the
    /// same order. A grid without extent is refused, and so are keypoints of
    /// which one would get a coordinate that passes the widest integer.
    pub fn scale_keypoints_to_original(
        &self,
        keypoints: Vec<Keypoint>,
        original_size: (u32, u32),
        model_size: (i64, i64),
    ) -> (moved: Result<Vec<Keypoint>, SuperPointError>)
        ensures
            moved is Ok <==> scalable(model_size) && all_movable(keypoints@, original_size, model_size),
            moved matches Ok(out) ==> out@ == rescaled_all(keypoints@, original_size, model_size),
            moved matches Err(e) ==> if scalable(model_size) {
                e matches SuperPointError::KeypointExtraction(m) && m@ == range_message()
            } else {
                e matches SuperPointError::Config(m) && m@ == model_size_message()
            },
    {
        let scale = match Scale::new(original_size, model_size) {
            Ok(scale) => scale,
            Err(e) => {
                return Err(e);
            },
        };
        let ghost target = rescaled_all(keypoints@, original_size, model_size);
        let mut out: Vec<Keypoint> = Vec::with_capacity(keypoints.len());
        let mut i: usize = 0;
        while i < keypoints.len()
            invariant
                i <= keypoints@.len(),
                scalable(model_size),
                scale.spec_original_size() == original_size,
                scale.spec_model_size() == model_size,
                target == rescaled_all(keypoints@, original_size, model_size),
                all_movable(keypoints@.take(i as int), original_size, model_size),
                out@ == target.take(i as int),
            decreases keypoints@.len() - i,
        {
            match scale.apply(keypoints[i]) {
                Some(at) => {
                    out.push(at);
                },
                None => {
                    return Err(
                        SuperPointError::KeypointExtraction(
                            "Rescaled coordinate is out of range".to_string(),
                        ),
                    );
                },
            }
            assert(out@ =~= target.take(i + 1));
            assert forall|j: int| 0 <= j < i + 1 implies movable(
                #[trigger] keypoints@.take(i + 1)[j],
                original_size,
                model_size,
            ) by {
                if j < i {
                    assert(keypoints@.take(i as int)[j] == keypoints@[j]);
                }
            }
            i = i + 1;
        }
        assert(target.take(i as int) =~= target);
        assert(keypoints@.take(i as int) =~= keypoints@);
        Ok(out)
    }
}

/// Whether a keypoint already kept lies strictly closer than `radius` to `k`.
fn is_suppressed(kept: &Vec<Keypoint>, k: &Keypoint, radius: u64) -> (clash: bool)
    ensures
        clash == suppressed_by(kept@, *k, radius),
{
    let mut a: usize = 0;
    while a < kept.len()
        invariant
            a <= kept@.len(),
            forall|b: int| 0 <= b < a ==> !within(#[trigger] kept@[b], *k, radius),
        decreases kept@.len() - a,
    {
        if kept[a].is_within(k, radius) {
            return true;
        }
        a = a + 1;
    }
    false
}

/// The survivors are keypoints of the walk, no more of them than it passed.
pub proof fn lemma_survivors_come_from(sorted: Seq<Keypoint>, radius: u64)
    ensures
        survivors(sorted, radius).len() <= sorted.len(),
        forall|a: int| 0 <= a < survivors(sorted, radius).len() ==> sorted.contains(#[trigger] survivors(sorted, radius)[a]),
    decreases sorted.len(),
{
    if sorted.len() > 0 {
        let head = sorted.drop_last();
        let kept = survivors(head, radius);
        lemma_survivors_come_from(head, radius);
        assert forall|a: int| 0 <= a < survivors(sorted, radius).len() implies sorted.contains(
            #[trigger] survivors(sorted, radius)[a],
        ) by {
            if a < kept.len() {
                let at = choose|at: int| 0 <= at < head.len() && head[at] == kept[a];
                assert(sorted[at] == kept[a]);
            } else {
                assert(sorted[sorted.len() - 1] == sorted.last());
            }
        }
    }
}

/// No two survivors are strictly closer than the radius.
pub proof fn lemma_survivors_apart(sorted: Seq<Keypoint>, radius: u64)
    ensures
        forall|a: int, b: int| 0 <= a < survivors(sorted, radius).len() && 0 <= b < survivors(sorted, radius).len() && a != b
            ==> dist_sq(#[trigger] survivors(sorted, radius)[a], #[trigger] survivors(sorted, radius)[b]) >= radius * radius,
    decreases sorted.len(),
{
    if sorted.len() > 0 {
        let kept = survivors(sorted.drop_last(), radius);
        let all = survivors(sorted, radius);
        lemma_survivors_apart(sorted.drop_last(), radius);
        assert forall|a: int, b: int| 0 <= a < all.len() && 0 <= b < all.len() && a != b implies dist_sq(
            #[trigger] all[a],
            #[trigger] all[b],
        ) >= radius * radius by {
            lemma_dist_sq_symmetric(all[a], all[b]);
            if a == kept.len() {
                assert(!within(kept[b], sorted.last(), radius));
            } else if b == kept.len() {
                assert(!within(kept[a], sorted.last(), radius));
            }
        }
    }
}

/// Every keypoint of the walk survives or lies strictly closer than the
/// radius to a survivor.
pub proof fn lemma_survivors_cover(sorted: Seq<Keypoint>, radius: u64, i: int)
    requires
        0 <= i < sorted.len(),
    ensures
        survivors(sorted, radius).contains(sorted[i]) || suppressed_by(
            survivors(sorted, radius),
            sorted[i],
            radius,
        ),
    decreases sorted.len(),
{
    let head = sorted.drop_last();
    let kept = survivors(head, radius);
    let all = survivors(sorted, radius);
    if i == sorted.len() - 1 {
        if suppressed_by(kept, sorted.last(), radius) {
        } else {
            assert(all[kept.len() as int] == sorted[i]);
        }
    } else {
        lemma_survivors_cover(head, radius, i);
        if kept.contains(head[i]) {
            let at = choose|at: int| 0 <= at < kept.len() && kept[at] == head[i];
            assert(all[at] == sorted[i]);
        } else {
            let at = choose|at: int| 0 <= at < kept.len() && within(#[trigger] kept[at], head[i], radius);
            assert(within(all[at], sorted[i], radius));
        }
    }
}

/// A walk over keypoints that are pairwise at least the radius apart keeps
/// them all.
pub proof fn lemma_survivors_of_spread_out(sorted: Seq<Keypoint>, radius: u64)
    requires
        forall|a: int, b: int| 0 <= a < b < sorted.len() ==> !within(#[trigger] sorted[a], #[trigger] sorted[b], radius),
    ensures
        survivors(sorted, radius) == sorted,
    decreases sorted.len(),
{
    if sorted.len() > 0 {
        let head = sorted.drop_last();
        lemma_survivors_of_spread_out(head, radius);
        assert(!suppressed_by(head, sorted.last(), radius)) by {
            assert forall|a: int| 0 <= a < head.len() implies !within(#[trigger] head[a], sorted.last(), radius) by {
                assert(!within(sorted[a], sorted[sorted.len() - 1], radius));
            }
        }
        assert(head.push(sorted.last()) =~= sorted);
    }
}

/// Suppression returns some of the candidates, and any two of them are at
/// least the radius apart.
pub proof fn lemma_nms_apart(candidates: Seq<Keypoint>, radius: u64)
    ensures
        nms_of(candidates, radius).len() <= candidates.len(),
        forall|a: int| 0 <= a < nms_of(candidates, radius).len() ==> candidates.contains(#[trigger] nms_of(candidates, radius)[a]),
        forall|a: int, b: int| 0 <= a < nms_of(candidates, radius).len() && 0 <= b < nms_of(candidates, radius).len() && a != b
            ==> dist_sq(#[trigger] nms_of(candidates, radius)[a], #[trigger] nms_of(candidates, radius)[b]) >= radius * radius,
{
    let sorted = ranked(candidates);
    lemma_ranking(candidates);
    lemma_survivors_come_from(sorted, radius);
    lemma_survivors_apart(sorted, radius);
    assert forall|a: int| 0 <= a < nms_of(candidates, radius).len() implies candidates.contains(
        #[trigger] nms_of(candidates, radius)[a],
    ) by {
        let k = nms_of(candidates, radius)[a];
        let at = choose|at: int| 0 <= at < sorted.len() && sorted[at] == k;
        assert(candidates[ranking(candidates)[at]] == k);
    }
}

/// Every candidate that suppression drops lies strictly closer than the
/// radius to one that it keeps.
pub proof fn lemma_nms_covers(candidates: Seq<Keypoint>, radius: u64, i: int)
    requires
        0 <= i < candidates.len(),
    ensures
        nms_of(candidates, radius).contains(candidates[i]) || suppressed_by(
            nms_of(candidates, radius),
            candidates[i],
            radius,
        ),
{
    lemma_ranking(candidates);
    let order = ranking(candidates);
    let at = choose|at: int| 0 <= at < order.len() && order[at] == i;
    assert(order.contains(i));
    assert(ranked(candidates)[at] == candidates[i]);
    lemma_survivors_cover(ranked(candidates), radius, at);
}

/// With a radius of zero, suppression only sorts.
pub proof fn lemma_nms_zero_radius(candidates: Seq<Keypoint>)
    ensures
        nms_of(candidates, 0) == ranked(candidates),
{
    let sorted = ranked(candidates);
    assert forall|a: int, b: int| 0 <= a < b < sorted.len() implies !within(
        #[trigger] sorted[a],
        #[trigger] sorted[b],
        0,
    ) by {
        lemma_dist_sq_symmetric(sorted[a], sorted[b]);
    }
    lemma_survivors_of_spread_out(sorted, 0);
}

/// On candidates that are pairwise at least `small` apart, suppression with
/// `small` keeps every one, so no other radius keeps more.
pub proof fn lemma_nms_radius_monotone(candidates: Seq<Keypoint>, small: u64, large: u64)
    requires
        small <= large,
        forall|i: int, j: int| 0 <= i < candidates.len() && 0 <= j < candidates.len() && i != j
            ==> !within(#[trigger] candidates[i], #[trigger] candidates[j], small),
    ensures
        nms_of(candidates, small) == ranked(candidates),
        nms_of(candidates, large).len() <= nms_of(candidates, small).len(),
{
    let sorted = ranked(candidates);
    let order = ranking(candidates);
    lemma_ranking(candidates);
    assert forall|a: int, b: int| 0 <= a < b < sorted.len() implies !within(
        #[trigger] sorted[a],
        #[trigger] sorted[b],
        small,
    ) by {
        assert(precedes(candidates, order[a], order[b]));
        assert(order[a] != order[b]);
        assert(!within(candidates[order[a]], candidates[order[b]], small));
    }
    lemma_survivors_of_spread_out(sorted, small);
    lemma_survivors_come_from(sorted, large);
}

/// A limit of `limit` leaves the smaller of `limit` and the number of
/// keypoints, and none that it leaves scores less than one that it drops.
pub proof fn lemma_top_beats_rest(keypoints: Seq<Keypoint>, limit: usize)
    ensures
        top_of(keypoints, limit).len() == kept_count(keypoints.len(), limit),
        forall|a: int| 0 <= a < top_of(keypoints, limit).len() ==> #[trigger] top_of(keypoints, limit)[a]
            == keypoints[ranking(keypoints)[a]],
        forall|a: int, j: int| 0 <= a < top_of(keypoints, limit).len() && 0 <= j < keypoints.len()
            && !ranking(keypoints).take(kept_count(keypoints.len(), limit)).contains(j)
            ==> #[trigger] top_of(keypoints, limit)[a].score >= #[trigger] keypoints[j].score,
{
    let order = ranking(keypoints);
    let m = kept_count(keypoints.len(), limit);
    lemma_ranking(keypoints);
    assert forall|a: int, j: int| 0 <= a < top_of(keypoints, limit).len() && 0 <= j < keypoints.len()
        && !order.take(m).contains(j) implies #[trigger] top_of(keypoints, limit)[a].score
        >= #[trigger] keypoints[j].score by {
        assert(order.contains(j));
        let b = choose|b: int| 0 <= b < order.len() && order[b] == j;
        if b < m {
            assert(order.take(m)[b] == j);
        }
        assert(precedes(keypoints, order[a], order[b]));
    }
}

/// Of two keypoints with one score, the one that came first in the input
/// comes first in the ranking: a limit that leaves the later one leaves the
/// earlier one too, before it.
pub proof fn lemma_equal_scores_keep_input_order(keypoints: Seq<Keypoint>, i: int, j: int)
    requires
        0 <= i < j < keypoints.len(),
        keypoints[i].score == keypoints[j].score,
    ensures
        ranking(keypoints).contains(i),
        ranking(keypoints).contains(j),
        ranking(keypoints).index_of(i) < ranking(keypoints).index_of(j),
        ranked(keypoints)[ranking(keypoints).index_of(i)] == keypoints[i],
        ranked(keypoints)[ranking(keypoints).index_of(j)] == keypoints[j],
{
    let order = ranking(keypoints);
    lemma_ranking(keypoints);
    assert(order.contains(i) && order.contains(j));
    let a = order.index_of(i);
    let b = order.index_of(j);
    if a > b {
        assert(precedes(keypoints, order[b], order[a]));
    }
}

} // verus!
