//! Verified core of the click-captcha solver: stage timing, detection selection
//! (non-maximum suppression, top-K, prompt-box choice), the feature-extraction plan
//! and the integer image preprocessing that feeds the models.

pub mod perf;
pub mod yolo;
pub mod engine;
pub mod types;
pub mod tensor;
pub mod imaging;
pub mod siamese;

pub use perf::PerfTimer;
pub use types::PerfTimings;
