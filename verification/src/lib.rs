//! Sizing, streaming and bookkeeping for decoding HiFi FM audio captures.
//!
//! A capture is decoded in overlapping blocks of about half a second. This
//! library holds what has to be settled exactly around the signal processing:
//! how long a block is and how far it overlaps (`block`), how blocks are cut
//! from a stream of unknown length (`stream`), what a resampler is handed
//! (`resample`, `soxr`), in which order blocks and chunks go through the
//! pipeline and what ends it (`pipeline`, `collector`, `delivery`), how output
//! is framed (`writer`) and what is reported on the way (`bias`, `progress`).
//! Frequencies are read by `frequency`. What all of this comes to in exact
//! arithmetic and plain text stands in `accuracy`, `block_laws`,
//! `progress_laws` and `decimal_laws`.
//!
//! Rates are binary64 numbers, and sizes that come out one sample off add up
//! to seconds over a tape. So the arithmetic is done on bit patterns
//! (`binary64`) against a statement of what rounding is (`rounding`), and
//! decimal numbers are read exactly (`decimal`, `bignat`).
//!
//! Samples are opaque to this library: it moves them, and takes the value
//! that stands for silence from its caller.

pub mod accuracy;
pub mod bias;
pub mod bignat;
pub mod binary64;
pub mod block;
pub mod block_laws;
pub mod collector;
pub mod decimal;
pub mod decimal_laws;
pub mod delivery;
pub mod frequency;
pub mod pipeline;
pub mod progress;
pub mod progress_laws;
pub mod resample;
pub mod rounding;
pub mod soxr;
pub mod stream;
pub mod writer;

pub use bias::{carrier_bias_khz, classify_calibration, CalibrationQuality};
pub use binary64::{Binary32, Binary64};
pub use block::{Block, BlockLayout};
pub use frequency::parse_frequency_mhz;
pub use resample::{BlockResampler, ResamplerQuality, ResamplerStage};
pub use soxr::{exact_ratio_pair, SoxrRecipe};
pub use stream::StreamingBlocks;
