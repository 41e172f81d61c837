//! Command-line options of the optimiser.

use vstd::prelude::*;

verus! {

/// The optimiser's command-line options: compression method (0 zlib, the
/// default; 1 7-zip's stand-in; 2 zopfli), zopfli iterations (15 by
/// default), whether to disable palette quantization (0 or 1), the input
/// file and the optional output file.
pub struct Args {
    pub z_method: u8,
    pub iterations: u32,
    pub disable_imagequant: u8,
    pub input: String,
    pub output: Option<String>,
}

} // verus!
