use vstd::prelude::*;

verus! {

/// Settings for the folder recompression stage: the JPEG quality factor on the
/// 0 to 100 scale and the size of the worker pool the stage runs with.
#[derive(Debug, PartialEq, Eq, Structural, Clone, Copy)]
pub struct CompressionConfig {
    pub quality: u8,
    pub workers: u8,
}

impl CompressionConfig {
    /// A configuration is valid when the quality stays on the 0 to 100 scale
    /// and at least one worker runs.
    pub open spec fn valid(self) -> bool {
        self.quality <= 100 && self.workers >= 1
    }

    /// Accepts a quality factor and worker count, exactly when they are valid.
    pub fn new(quality: u8, workers: u8) -> (r: Option<CompressionConfig>)
        ensures
            r is Some <==> quality <= 100 && workers >= 1,
            r matches Some(c) ==> c.quality == quality && c.workers == workers && c.valid(),
    {
        if quality <= 100 && workers >= 1 {
            Some(CompressionConfig { quality, workers })
        } else {
            None
        }
    }
}

impl Default for CompressionConfig {
    /// The stage's defaults: quality 80, four workers.
    fn default() -> (c: CompressionConfig)
        ensures
            c.quality == 80 && c.workers == 4,
            c.valid(),
    {
        CompressionConfig { quality: 80, workers: 4 }
    }
}

} // verus!
