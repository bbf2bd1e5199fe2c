use superpoint_rs::config::{Config, KeypointConfig, DEFAULT_NMS_RADIUS, DEFAULT_THRESHOLD};
use superpoint_rs::error::SuperPointError;
use superpoint_rs::heatmap::ProbabilityGrid;
use superpoint_rs::keypoint::Keypoint;
use superpoint_rs::postprocessing::KeypointExtractor;
use superpoint_rs::ranking::sort_by_score;
use superpoint_rs::rescale::Scale;
use superpoint_rs::score::score_key;

const PX: u128 = 65536;
const RPX: u64 = 65536;

fn extractor() -> KeypointExtractor {
    KeypointExtractor::new(KeypointConfig { threshold: 0, max_keypoints: None, nms_radius: None })
}

fn at(x: u128, y: u128, score: u32) -> Keypoint {
    Keypoint::new(x * PX, y * PX, score)
}

fn key(p: f32) -> u32 {
    score_key(p.to_bits())
}

fn sq(a: &Keypoint, b: &Keypoint) -> u128 {
    a.distance_sq_to(b).unwrap()
}

#[test]
fn default_settings() {
    let c = Config::default();
    assert_eq!(c.model.path, "./superpoint_v2.pt");
    assert!(c.model.use_cuda);
    assert_eq!(c.image.width, 320);
    assert_eq!(c.image.height, 240);
    assert!(c.image.normalize);
    assert_eq!(c.keypoint.threshold, key(0.05));
    assert_eq!(c.keypoint.threshold, DEFAULT_THRESHOLD);
    assert_eq!(c.keypoint.max_keypoints, Some(1000));
    assert_eq!(c.keypoint.nms_radius, Some(4 * RPX));
    assert_eq!(c.keypoint.nms_radius, Some(DEFAULT_NMS_RADIUS));
    assert_eq!(c.visualization.circle_radius, 3);
    assert_eq!(c.visualization.circle_color, [255, 0, 0]);
    assert_eq!(c.visualization.line_thickness, 2);
}

#[test]
fn the_extractor_keeps_its_settings() {
    let config = KeypointConfig { threshold: 5, max_keypoints: Some(3), nms_radius: Some(7) };
    let e = KeypointExtractor::new(config);
    assert_eq!(e.config().threshold, 5);
    assert_eq!(e.config().max_keypoints, Some(3));
    assert_eq!(e.config().nms_radius, Some(7));
}

#[test]
fn sorting_is_by_falling_score_and_stable() {
    let input = vec![at(0, 0, 5), at(1, 0, 9), at(2, 0, 5), at(3, 0, 7), at(4, 0, 9), at(5, 0, 5)];
    let sorted = sort_by_score(input);
    assert_eq!(
        sorted,
        vec![at(1, 0, 9), at(4, 0, 9), at(3, 0, 7), at(0, 0, 5), at(2, 0, 5), at(5, 0, 5)]
    );
    assert_eq!(sort_by_score(vec![]), vec![]);
    assert_eq!(sort_by_score(vec![at(1, 1, 1)]), vec![at(1, 1, 1)]);
}

#[test]
fn sorting_a_longer_list_agrees_with_the_standard_stable_sort() {
    let mut input = Vec::new();
    let mut state: u32 = 12345;
    for i in 0..500u32 {
        state = state.wrapping_mul(1664525).wrapping_add(1013904223);
        input.push(Keypoint::new(i as u128, 0, (state >> 16) % 40));
    }
    let mut expect = input.clone();
    expect.sort_by(|a, b| b.score.cmp(&a.score));
    assert_eq!(sort_by_score(input), expect);
}

#[test]
fn suppression_keeps_the_higher_of_two_close_points() {
    let e = extractor();
    let kept = e.apply_nms(vec![at(0, 0, 5), at(3, 0, 9), at(10, 0, 1)], 4 * RPX);
    assert_eq!(kept, vec![at(3, 0, 9), at(10, 0, 1)]);
}

#[test]
fn suppression_radius_is_strict() {
    let e = extractor();
    // exactly four pixels apart: not strictly closer than four
    let kept = e.apply_nms(vec![at(0, 0, 5), at(4, 0, 9)], 4 * RPX);
    assert_eq!(kept, vec![at(4, 0, 9), at(0, 0, 5)]);
    let kept = e.apply_nms(vec![at(0, 0, 5), at(4, 0, 9)], 4 * RPX + 1);
    assert_eq!(kept, vec![at(4, 0, 9)]);
}

#[test]
fn suppression_with_a_fractional_radius() {
    let e = extractor();
    // (4, 2) is about 4.47 pixels from the origin
    let points = vec![at(0, 0, 9), at(4, 2, 5)];
    assert_eq!(e.apply_nms(points.clone(), 4 * RPX + RPX / 4).len(), 2);
    assert_eq!(e.apply_nms(points, 4 * RPX + RPX / 2), vec![at(0, 0, 9)]);
}

#[test]
fn a_suppressed_point_suppresses_nothing() {
    let e = extractor();
    // 9 suppresses 8, so 8 does not suppress 7
    let kept = e.apply_nms(vec![at(0, 0, 9), at(3, 0, 8), at(6, 0, 7)], 4 * RPX);
    assert_eq!(kept, vec![at(0, 0, 9), at(6, 0, 7)]);
}

#[test]
fn suppression_with_radius_zero_only_sorts() {
    let e = extractor();
    let input = vec![at(1, 1, 3), at(1, 1, 8), at(2, 1, 5), at(1, 1, 8)];
    let kept = e.apply_nms(input, 0);
    assert_eq!(kept, vec![at(1, 1, 8), at(1, 1, 8), at(2, 1, 5), at(1, 1, 3)]);
}

#[test]
fn suppression_with_the_smallest_radius_merges_points_at_one_place() {
    let e = extractor();
    let kept = e.apply_nms(vec![at(1, 1, 3), at(1, 1, 8), at(2, 1, 5)], 1);
    assert_eq!(kept, vec![at(1, 1, 8), at(2, 1, 5)]);
}

#[test]
fn survivors_are_at_least_the_radius_apart() {
    let e = extractor();
    let mut input = Vec::new();
    let mut state: u32 = 99;
    for _ in 0..300 {
        state = state.wrapping_mul(1664525).wrapping_add(1013904223);
        let x = (state >> 8) % 60;
        let y = (state >> 16) % 60;
        input.push(at(x as u128, y as u128, state >> 24));
    }
    for radius in [0u64, 1, RPX, 3 * RPX, 5 * RPX + 77, 20 * RPX] {
        let kept = e.apply_nms(input.clone(), radius);
        assert!(kept.len() <= input.len());
        for a in 0..kept.len() {
            assert!(input.contains(&kept[a]));
            for b in 0..kept.len() {
                if a != b {
                    assert!(sq(&kept[a], &kept[b]) >= (radius as u128) * (radius as u128));
                }
            }
        }
        for k in &input {
            assert!(kept.contains(k) || kept.iter().any(|s| s.is_within(k, radius)));
        }
    }
}

#[test]
fn a_larger_radius_keeps_no_more_of_spread_out_points() {
    let e = extractor();
    let input = vec![at(0, 0, 4), at(10, 0, 3), at(0, 10, 2), at(10, 10, 1), at(5, 5, 9)];
    let mut last = usize::MAX;
    for radius in [0u64, 7 * RPX, 8 * RPX, 11 * RPX, 15 * RPX] {
        let n = e.apply_nms(input.clone(), radius).len();
        assert!(n <= last);
        last = n;
    }
    assert_eq!(e.apply_nms(input.clone(), 7 * RPX).len(), 5);
    assert_eq!(e.apply_nms(input.clone(), 8 * RPX), vec![at(5, 5, 9)]);
}

#[test]
fn a_larger_radius_can_free_points_that_a_smaller_one_suppressed() {
    let e = extractor();
    let input = vec![at(3, 4, 9), at(3, 0, 8), at(0, 0, 7), at(6, 0, 6)];
    // radius four: the two best are exactly four apart and both stay,
    // and the second suppresses the two at its sides
    assert_eq!(e.apply_nms(input.clone(), 4 * RPX), vec![at(3, 4, 9), at(3, 0, 8)]);
    // radius five: the best suppresses the second, and the two at its sides,
    // five away from the best and six from each other, stay
    assert_eq!(
        e.apply_nms(input, 5 * RPX),
        vec![at(3, 4, 9), at(0, 0, 7), at(6, 0, 6)]
    );
}

#[test]
fn the_limit_keeps_the_best() {
    let e = extractor();
    let input = vec![at(0, 0, 2), at(1, 0, 9), at(2, 0, 4), at(3, 0, 7)];
    assert_eq!(e.select_top(input.clone(), 2), vec![at(1, 0, 9), at(3, 0, 7)]);
    assert_eq!(e.select_top(input.clone(), 0), vec![]);
    assert_eq!(
        e.select_top(input.clone(), 4),
        vec![at(1, 0, 9), at(3, 0, 7), at(2, 0, 4), at(0, 0, 2)]
    );
    assert_eq!(e.select_top(input.clone(), 9).len(), 4);
    assert_eq!(e.select_top(input, usize::MAX).len(), 4);
}

#[test]
fn the_limit_returns_the_smaller_of_limit_and_length() {
    let e = extractor();
    let input: Vec<Keypoint> = (0..10u32).map(|i| at(i as u128, 0, (i * 7) % 5)).collect();
    for limit in 0..15usize {
        let best = e.select_top(input.clone(), limit);
        assert_eq!(best.len(), limit.min(10));
        let worst_kept = best.iter().map(|k| k.score).min();
        let mut rest = input.clone();
        for k in &best {
            let at = rest.iter().position(|r| r == k).unwrap();
            rest.remove(at);
        }
        for r in &rest {
            assert!(worst_kept.unwrap_or(u32::MAX) >= r.score);
        }
    }
}

#[test]
fn equal_scores_stay_in_scan_order() {
    let e = extractor();
    let input = vec![at(5, 5, 3), at(1, 1, 3), at(9, 9, 3), at(2, 2, 3)];
    assert_eq!(e.select_top(input.clone(), 3), vec![at(5, 5, 3), at(1, 1, 3), at(9, 9, 3)]);
    assert_eq!(e.select_top(input.clone(), 3), e.select_top(input, 3));
}

#[test]
fn extraction_without_suppression_or_limit_returns_the_candidates() {
    let grid = ProbabilityGrid::new(3, 2, vec![1, 8, 1, 9, 1, 8]).unwrap();
    let e = KeypointExtractor::new(KeypointConfig { threshold: 1, max_keypoints: None, nms_radius: None });
    assert_eq!(e.extract_candidates(&grid), vec![at(1, 0, 8), at(0, 1, 9), at(2, 1, 8)]);
    assert_eq!(e.extract_keypoints(&grid), vec![at(1, 0, 8), at(0, 1, 9), at(2, 1, 8)]);
}

#[test]
fn extraction_suppresses_then_limits() {
    let grid = ProbabilityGrid::new(6, 1, vec![5, 9, 1, 1, 8, 7]).unwrap();
    let all = KeypointExtractor::new(KeypointConfig {
        threshold: 1,
        max_keypoints: None,
        nms_radius: Some(2 * RPX),
    });
    assert_eq!(all.extract_keypoints(&grid), vec![at(1, 0, 9), at(4, 0, 8)]);
    let one = KeypointExtractor::new(KeypointConfig {
        threshold: 1,
        max_keypoints: Some(1),
        nms_radius: Some(2 * RPX),
    });
    assert_eq!(one.extract_keypoints(&grid), vec![at(1, 0, 9)]);
    let limit_only = KeypointExtractor::new(KeypointConfig {
        threshold: 1,
        max_keypoints: Some(3),
        nms_radius: None,
    });
    assert_eq!(limit_only.extract_keypoints(&grid), vec![at(1, 0, 9), at(4, 0, 8), at(5, 0, 7)]);
}

#[test]
fn rescaling_scales_each_axis_on_its_own() {
    let e = extractor();
    let moved = e
        .scale_keypoints_to_original(
            vec![at(10, 30, 7), Keypoint::with_scale_angle(PX / 2, 3 * PX, 1, 2, 3)],
            (640, 960),
            (240, 320),
        )
        .unwrap();
    assert_eq!(
        moved,
        vec![
            Keypoint::new(20 * PX, 120 * PX, 7),
            Keypoint::with_scale_angle(PX, 12 * PX, 1, 2, 3),
        ]
    );
}

#[test]
fn rescaling_rounds_down_to_a_unit() {
    let scale = Scale::new((1, 2), (3, 3)).unwrap();
    let moved = scale.apply(Keypoint::new(10, 10, 0));
    assert_eq!(moved, Some(Keypoint::new(3, 6, 0)));
    let moved = scale.apply(Keypoint::new(PX, PX, 0));
    assert_eq!(moved, Some(Keypoint::new(21845, 43690, 0)));
}

#[test]
fn rescaling_to_the_same_size_changes_nothing() {
    let e = extractor();
    let input = vec![at(0, 0, 1), at(319, 239, 2), Keypoint::new(12345, 678, 3), Keypoint::new(u128::MAX, 1, 4)];
    let moved = e.scale_keypoints_to_original(input.clone(), (320, 240), (240, 320)).unwrap();
    assert_eq!(moved, input);
}

#[test]
fn rescaling_is_exact_far_from_the_origin() {
    let e = extractor();
    // forty thousand pixels, to an image twice as wide and three times as high
    let moved = e
        .scale_keypoints_to_original(vec![at(40000, 40000, 7)], (640, 720), (240, 320))
        .unwrap();
    assert_eq!(moved, vec![at(80000, 120000, 7)]);
    // a coordinate that has no room for the product, and a scale that needs none
    let scale = Scale::new((3, 1000), (2000, 6)).unwrap();
    let far = Keypoint::new(u128::MAX, u128::MAX - 1, 0);
    assert_eq!(
        scale.apply(far),
        Some(Keypoint::new(u128::MAX / 2, (u128::MAX - 1) / 2, 0))
    );
    let scale = Scale::new((7, 7), (i64::MAX, i64::MAX)).unwrap();
    let k = Keypoint::new(u128::MAX, i64::MAX as u128 * 5 + 3, 0);
    let x = (u128::MAX / i64::MAX as u128) * 7 + (u128::MAX % i64::MAX as u128) * 7 / i64::MAX as u128;
    assert_eq!(scale.apply(k), Some(Keypoint::new(x, 35, 0)));
}

#[test]
fn rescaling_past_the_widest_integer_is_refused() {
    let e = extractor();
    let scale = Scale::new((2, 1), (1, 1)).unwrap();
    assert_eq!(scale.apply(Keypoint::new(u128::MAX / 2, 7, 0)), Some(Keypoint::new(u128::MAX - 1, 7, 0)));
    assert_eq!(scale.apply(Keypoint::new(u128::MAX / 2 + 1, 7, 0)), None);
    assert_eq!(scale.apply(Keypoint::new(7, u128::MAX, 0)), Some(Keypoint::new(14, u128::MAX, 0)));
    let scale = Scale::new((3, 3), (2, 2)).unwrap();
    assert_eq!(scale.apply(Keypoint::new(0, u128::MAX, 0)), None);
    assert_eq!(
        e.scale_keypoints_to_original(vec![at(1, 1, 1), Keypoint::new(u128::MAX, 0, 0)], (3, 3), (2, 2)),
        Err(SuperPointError::KeypointExtraction(
            "Rescaled coordinate is out of range".to_string()
        ))
    );
    // a grid without extent is named first
    assert_eq!(
        e.scale_keypoints_to_original(vec![Keypoint::new(u128::MAX, 0, 0)], (3, 3), (0, 2)),
        Err(SuperPointError::Config(
            "Model size must be positive in both dimensions".to_string()
        ))
    );
}

#[test]
fn rescaling_keeps_order_and_length() {
    let e = extractor();
    let input: Vec<Keypoint> = (0..50u32).map(|i| at(i as u128, 50 - i as u128, i)).collect();
    let moved = e.scale_keypoints_to_original(input.clone(), (100, 200), (50, 50)).unwrap();
    assert_eq!(moved.len(), 50);
    for i in 0..50u32 {
        assert_eq!(moved[i as usize], at(2 * i as u128, 4 * (50 - i as u128), i));
    }
    assert_eq!(e.scale_keypoints_to_original(vec![], (1, 1), (1, 1)), Ok(vec![]));
}

#[test]
fn rescaling_refuses_a_grid_without_extent() {
    let e = extractor();
    for model in [(0i64, 16i64), (16, 0), (-1, 16), (16, -16), (0, 0)] {
        assert_eq!(
            e.scale_keypoints_to_original(vec![at(1, 1, 1)], (320, 240), model),
            Err(SuperPointError::Config(
                "Model size must be positive in both dimensions".to_string()
            ))
        );
        assert!(Scale::new((320, 240), model).is_err());
    }
}

#[test]
fn one_strong_cell_gives_one_keypoint_at_the_origin() {
    // logits of a [65, 2, 2] heatmap: class 0 of cell (0, 0) stands out
    let mut logits = vec![0.0f32; 65 * 4];
    logits[0] = 10.0;
    // softmax over the classes of each cell, the largest logit taken off first
    let mut probs = vec![0.0f32; 65 * 4];
    for cell in 0..4 {
        let mut top = f32::NEG_INFINITY;
        for k in 0..65 {
            top = top.max(logits[k * 4 + cell]);
        }
        let mut sum = 0.0f32;
        for k in 0..65 {
            sum += (logits[k * 4 + cell] - top).exp();
        }
        let mut total = 0.0f32;
        for k in 0..65 {
            probs[k * 4 + cell] = (logits[k * 4 + cell] - top).exp() / sum;
            total += probs[k * 4 + cell];
        }
        assert!((total - 1.0).abs() < 1e-5);
    }
    let keys: Vec<u32> = probs.iter().map(|p| key(*p)).collect();
    let grid = ProbabilityGrid::decode(&vec![65, 2, 2], &keys).unwrap();
    assert_eq!((grid.width(), grid.height()), (16, 16));
    assert!(grid.get(0, 0).unwrap() > key(0.9));

    let e = KeypointExtractor::new(KeypointConfig {
        threshold: key(0.5),
        max_keypoints: None,
        nms_radius: None,
    });
    let candidates = e.extract_candidates(&grid);
    assert_eq!(candidates, vec![Keypoint::new(0, 0, key(probs[0]))]);
    let keypoints = e.extract_keypoints(&grid);
    assert_eq!(keypoints, candidates);
    let moved = e.scale_keypoints_to_original(keypoints, (320, 240), (16, 16)).unwrap();
    assert_eq!(moved, vec![Keypoint::new(0, 0, key(probs[0]))]);
}

#[test]
fn the_default_settings_on_a_small_map() {
    let mut probs = vec![key(0.01); 16 * 16];
    probs[3 * 16 + 3] = key(0.9);
    probs[3 * 16 + 5] = key(0.8);
    probs[10 * 16 + 12] = key(0.06);
    probs[0] = key(0.05);
    let grid = ProbabilityGrid::new(16, 16, probs).unwrap();
    let e = KeypointExtractor::new(Config::default().keypoint);
    assert_eq!(
        e.extract_keypoints(&grid),
        vec![Keypoint::new(3 * PX, 3 * PX, key(0.9)), Keypoint::new(12 * PX, 10 * PX, key(0.06))]
    );
}

#[test]
fn an_error_gives_its_message() {
    let e = SuperPointError::KeypointExtraction("no scores".to_string());
    assert_eq!(e.message(), "no scores");
    assert_eq!(SuperPointError::Io("gone".to_string()).message(), "gone");
}
