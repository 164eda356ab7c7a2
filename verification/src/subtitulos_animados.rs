//! Styles of animated captions.
use vstd::prelude::*;

verus! {

/// How the spoken word is highlighted.
#[derive(Clone, Copy, Debug, Default, PartialEq, Eq, Structural)]
pub enum CaptionPreset {
    /// White text with an outline; the active word in colour.
    #[default]
    Clasico,
    /// Words colour in as they are said, and stay so.
    Karaoke,
    /// The active word has a coloured box behind it.
    Caja,
    /// The active word grows and changes colour.
    Pop,
}

pub open spec fn caption_label(p: CaptionPreset) -> Seq<char> {
    match p {
        CaptionPreset::Clasico => "Clásico (palabra en color)"@,
        CaptionPreset::Karaoke => "Karaoke (se van coloreando)"@,
        CaptionPreset::Caja => "Caja tras la palabra"@,
        CaptionPreset::Pop => "Pop (la palabra crece)"@,
    }
}

impl CaptionPreset {
    /// Name shown to the user.
    pub fn label(self) -> (s: &'static str)
        ensures
            s@ == caption_label(self),
    {
        match self {
            CaptionPreset::Clasico => "Clásico (palabra en color)",
            CaptionPreset::Karaoke => "Karaoke (se van coloreando)",
            CaptionPreset::Caja => "Caja tras la palabra",
            CaptionPreset::Pop => "Pop (la palabra crece)",
        }
    }
}

} // verus!
