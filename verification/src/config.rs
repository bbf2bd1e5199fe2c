//! The settings of one run.
use vstd::prelude::*;

verus! {

/// Everything a run is configured by.
#[derive(Debug)]
pub struct Config {
    pub model: ModelConfig,
    pub image: ImageConfig,
    pub keypoint: KeypointConfig,
    pub visualization: VisualizationConfig,
}

/// Where the detector's weights are and whether to run it on an accelerator.
#[derive(Debug)]
pub struct ModelConfig {
    pub path: String,
    pub use_cuda: bool,
}

/// The size of the detector's input, and whether pixels are scaled to the
/// unit interval.
#[derive(Debug, Clone, Copy)]
pub struct ImageConfig {
    pub width: i64,
    pub height: i64,
    pub normalize: bool,
}

/// How candidates are picked and thinned out.
#[derive(Debug, Clone, Copy)]
pub struct KeypointConfig {
    /// Key of the probability that a candidate must exceed.
    pub threshold: u32,
    /// Most keypoints to return; no limit if absent.
    pub max_keypoints: Option<usize>,
    /// Suppression radius in coordinate units; no suppression if absent.
    pub nms_radius: Option<u64>,
}

/// How keypoints are drawn.
#[derive(Debug, Clone, Copy)]
pub struct VisualizationConfig {
    pub circle_radius: u32,
    pub circle_color: [u8; 3],
    pub line_thickness: u32,
}

/// The key of the probability 0.05, the default threshold.
pub const DEFAULT_THRESHOLD: u32 = 0xbd4c_cccd;

/// Four pixels in coordinate units, the default suppression radius.
pub const DEFAULT_NMS_RADIUS: u64 = 0x4_0000;

impl Default for Config {
    fn default() -> (config: Config)
        ensures
            config.model.path@ == "./superpoint_v2.pt"@,
            config.model.use_cuda,
            config.image == (ImageConfig { width: 320, height: 240, normalize: true }),
            config.keypoint == (KeypointConfig {
                threshold: DEFAULT_THRESHOLD,
                max_keypoints: Some(1000usize),
                nms_radius: Some(DEFAULT_NMS_RADIUS),
            }),
            config.visualization.circle_radius == 3,
            config.visualization.circle_color@ == seq![255u8, 0u8, 0u8],
            config.visualization.line_thickness == 2,
    {
        let circle_color: [u8; 3] = [255, 0, 0];
        assert(circle_color@ =~= seq![255u8, 0u8, 0u8]);
        Config {
            model: ModelConfig { path: "./superpoint_v2.pt".to_string(), use_cuda: true },
            image: ImageConfig { width: 320, height: 240, normalize: true },
            keypoint: KeypointConfig {
                threshold: DEFAULT_THRESHOLD,
                max_keypoints: Some(1000),
                nms_radius: Some(DEFAULT_NMS_RADIUS),
            },
            visualization: VisualizationConfig { circle_radius: 3, circle_color, line_thickness: 2 },
        }
    }
}

} // verus!
