//! Verified core of the VARUNA underwater acoustic platform: dataset
//! metadata, framing plans for the spectral processors, spectrogram peak
//! fingerprinting, multi-target track bookkeeping and classifier helpers.
pub mod dataset;
pub mod order;
pub mod fingerprint;
pub mod tracker;
pub mod framing;
pub mod cfar;
pub mod classifier;
pub mod clock;
pub mod wav;
