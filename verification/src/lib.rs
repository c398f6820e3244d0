//! A Morse-code audio library: a verified text-to-Morse encoder and the
//! sample-accurate planning and chunking logic behind a PCM tone synthesizer.

pub mod morse;
pub mod play;
pub mod wave;

use vstd::prelude::*;

verus! {

} // verus!
