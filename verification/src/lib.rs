//! Core of a bucketed, multi-threaded path tracer: bucket decomposition
//! of the image plane, render settings, the sample-index stream, render
//! scheduling, the image buffer with its PPM output, and the
//! scene-description grammar. The float ray arithmetic lives with the
//! callers; what is here is proved.

pub mod buckets;
pub mod errors;
pub mod imagebuffer;
pub mod pipeline;
pub mod sampler;
pub mod scene;
pub mod settings;
