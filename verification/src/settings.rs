//! Render settings and their builder.
//!
//! A settings value fixes the image size, the bucket edge length and the
//! per-pixel sample parameter for one render call.

use vstd::prelude::*;

verus! {

/// The parameters of one render call. All fields are expected to be
/// positive; `valid()` states this.
#[derive(Copy, Clone, Debug)]
pub struct RenderSettings {
    pub width: u32,
    pub height: u32,
    pub bucket: u32,
    pub samples: u32,
}

impl RenderSettings {
    /// All dimensions positive, as a render call requires.
    pub open spec fn valid(self) -> bool {
        self.width > 0 && self.height > 0 && self.bucket > 0 && self.samples > 0
    }
}

/// Builds a `RenderSettings`, starting from the defaults
/// 720x480, bucket 16, samples 3.
pub struct SettingsBuilder {
    pub width: u32,
    pub height: u32,
    pub bucket: u32,
    pub samples: u32,
}

/// The image height that goes with `width` at the fixed 16:9 aspect ratio.
pub open spec fn spec_height_for(width: u32) -> int {
    width * 9 / 16
}

impl SettingsBuilder {
    pub fn new() -> (r: SettingsBuilder)
        ensures
            r.width == 720,
            r.height == 480,
            r.bucket == 16,
            r.samples == 3,
    {
        SettingsBuilder { width: 720, height: 480, bucket: 16, samples: 3 }
    }

    pub fn bucket(self, v: u32) -> (r: SettingsBuilder)
        ensures
            r.bucket == v,
            r.width == self.width,
            r.height == self.height,
            r.samples == self.samples,
    {
        SettingsBuilder { bucket: v, ..self }
    }

    /// Sets the image size. With no explicit height, the height follows from
    /// the fixed 16:9 aspect ratio.
    pub fn size(self, width: u32, height: Option<u32>) -> (r: SettingsBuilder)
        ensures
            r.width == width,
            r.height == match height {
                Some(h) => h as int,
                None => spec_height_for(width),
            },
            r.bucket == self.bucket,
            r.samples == self.samples,
    {
        let h: u32 = match height {
            Some(h) => h,
            None => {
                let wide: u64 = (width as u64) * 9 / 16;
                assert(wide == spec_height_for(width));
                wide as u32
            },
        };
        SettingsBuilder { width, height: h, ..self }
    }

    pub fn samples(self, v: u32) -> (r: SettingsBuilder)
        ensures
            r.samples == v,
            r.width == self.width,
            r.height == self.height,
            r.bucket == self.bucket,
    {
        SettingsBuilder { samples: v, ..self }
    }

    pub fn build(self) -> (r: RenderSettings)
        ensures
            r.width == self.width,
            r.height == self.height,
            r.bucket == self.bucket,
            r.samples == self.samples,
    {
        RenderSettings {
            width: self.width,
            height: self.height,
            bucket: self.bucket,
            samples: self.samples,
        }
    }
}

} // verus!
