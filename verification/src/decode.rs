//! Decoder configuration, the frames a decoder hands out, and the media
//! formats it opens.
use vstd::prelude::*;
use crate::text::{chars_eq_ignore_ascii_case, eq_ignore_ascii_case, to_chars};

verus! {

/// How the decoder runs.
#[derive(Debug, Clone)]
pub struct DecoderConfig {
    pub hw_acceleration: bool,
    pub thread_count: usize,
    pub max_frame_buffer: usize,
    pub proxy_quality: ProxyQuality,
}

/// Resolution of the proxies a decoder reads.
#[derive(Debug, Clone, Copy, PartialEq, Eq, Structural)]
pub enum ProxyQuality {
    Quarter,
    Half,
    Full,
}

/// Pixel layout of a decoded frame.
#[derive(Debug, Clone, Copy, PartialEq, Eq, Structural)]
pub enum PixelFormat {
    NV12,
    YUV420P,
    RGB24,
    BGRX,
    P010,
}

/// A decoded frame.
#[derive(Debug)]
pub struct FrameInfo {
    pub pts: i64,
    pub width: u32,
    pub height: u32,
    pub format: PixelFormat,
    pub data: Vec<u8>,
}

/// Two frames with the same timestamp, geometry, format and bytes.
pub open spec fn same_frame(a: FrameInfo, b: FrameInfo) -> bool {
    &&& a.pts == b.pts
    &&& a.width == b.width
    &&& a.height == b.height
    &&& a.format == b.format
    &&& a.data@ == b.data@
}

impl Clone for FrameInfo {
    fn clone(&self) -> (r: Self)
        ensures
            same_frame(r, *self),
    {
        FrameInfo {
            pts: self.pts,
            width: self.width,
            height: self.height,
            format: self.format,
            data: self.data.clone(),
        }
    }
}

/// The file extensions the decoder opens.
pub open spec fn supported_extensions() -> Seq<Seq<char>> {
    seq![
        "mp4"@,
        "mov"@,
        "mkv"@,
        "webm"@,
        "avi"@,
        "png"@,
        "jpg"@,
        "jpeg"@,
        "wav"@,
        "mp3"@,
        "aac"@,
        "flac"@,
    ]
}

/// An extension the decoder opens, in any ASCII case.
pub open spec fn is_supported_extension(ext: Seq<char>) -> bool {
    exists|i: int|
        0 <= i < supported_extensions().len() && eq_ignore_ascii_case(
            #[trigger] supported_extensions()[i],
            ext,
        )
}

/// Whether the decoder opens files with extension `ext` (without the dot;
/// empty when the file has none), compared ignoring ASCII case.
pub fn supported_extension(ext: &str) -> (b: bool)
    ensures
        b == is_supported_extension(ext@),
{
    let e = to_chars(ext);
    let names = ["mp4", "mov", "mkv", "webm", "avi", "png", "jpg", "jpeg", "wav", "mp3", "aac", "flac"];
    let ghost exts = supported_extensions();
    let mut i: usize = 0;
    while i < 12
        invariant
            i <= 12,
            e@ == ext@,
            exts == supported_extensions(),
            forall|k: int| 0 <= k < 12 ==> (#[trigger] names@[k])@ == exts[k],
            forall|k: int| 0 <= k < i ==> !eq_ignore_ascii_case(#[trigger] exts[k], ext@),
        decreases 12 - i,
    {
        let n = to_chars(names[i]);
        if chars_eq_ignore_ascii_case(&n, &e) {
            return true;
        }
        i = i + 1;
    }
    false
}

} // verus!
