//! Declarative export configuration: the container, quality preset, frame
//! size and rate of an export. The rate is held by the bits of a double.
use vstd::prelude::*;

verus! {

/// Container of an export.
#[derive(Debug, Clone, Copy, PartialEq, Eq, Structural)]
pub enum ExportFormat {
    Mp4,
    Mov,
    WebM,
    Wav,
}

/// Speed against quality of an export.
#[derive(Debug, Clone, Copy, PartialEq, Eq, Structural)]
pub enum EncoderPreset {
    Preview,
    Balanced,
    Master,
}

/// What an export is asked to produce.
#[derive(Debug, Clone, Copy, PartialEq, Eq, Structural)]
pub struct Encoder {
    pub format: ExportFormat,
    pub preset: EncoderPreset,
    pub width: u32,
    pub height: u32,
    pub fps: u64,
    pub include_audio: bool,
}

/// A double that is finite and greater than zero: sign bit clear, some bit
/// set, exponent not all ones.
pub open spec fn positive_finite(bits: u64) -> bool {
    bits < 0x8000_0000_0000_0000 && bits != 0 && bits / 0x10_0000_0000_0000 != 0x7ff
}

impl Encoder {
    /// The export description, refused when the frame is empty or the rate
    /// is not a finite positive number.
    pub fn new(
        format: ExportFormat,
        preset: EncoderPreset,
        width: u32,
        height: u32,
        fps: u64,
        include_audio: bool,
    ) -> (r: Result<Encoder, String>)
        ensures
            (width == 0 || height == 0) ==> (r matches Err(e) && e@ == "Export dimensions must be greater than zero"@),
            (width != 0 && height != 0 && !positive_finite(fps)) ==> (r matches Err(e) && e@
                == "Export frame rate must be finite and greater than zero"@),
            (width != 0 && height != 0 && positive_finite(fps)) ==> r == Ok::<Encoder, String>(
                Encoder { format, preset, width, height, fps, include_audio },
            ),
    {
        if width == 0 || height == 0 {
            return Err("Export dimensions must be greater than zero".to_string());
        }
        if !(fps < 0x8000_0000_0000_0000 && fps != 0 && fps / 0x10_0000_0000_0000 != 0x7ff) {
            return Err("Export frame rate must be finite and greater than zero".to_string());
        }
        Ok(Encoder { format, preset, width, height, fps, include_audio })
    }
}

} // verus!
