//! Hardware encoding: NVENC (NVIDIA), Quick Sync (Intel), AMF (AMD) and
//! VideoToolbox (Apple). Which backends FFmpeg lists, and the arguments that
//! give each the quality of the CPU encoders.
use vstd::prelude::*;
use crate::text::{
    char_separator, split_at_char, split_by, split_words, string_views, to_chars, views_of, words,
};

verus! {

/// A hardware encoder family.
#[derive(Clone, Copy, Debug, PartialEq, Eq, Structural)]
pub enum HwBackend {
    Nvidia,
    Intel,
    Amd,
    Apple,
}

/// Preference order when several are usable: dedicated GPUs first.
pub open spec fn all_backends() -> Seq<HwBackend> {
    seq![HwBackend::Nvidia, HwBackend::Amd, HwBackend::Intel, HwBackend::Apple]
}

pub open spec fn label_of(b: HwBackend) -> Seq<char> {
    match b {
        HwBackend::Nvidia => "NVIDIA NVENC"@,
        HwBackend::Intel => "Intel Quick Sync"@,
        HwBackend::Amd => "AMD AMF"@,
        HwBackend::Apple => "Apple VideoToolbox"@,
    }
}

pub open spec fn encoder_of(b: HwBackend, hevc: bool) -> Seq<char> {
    match (b, hevc) {
        (HwBackend::Nvidia, false) => "h264_nvenc"@,
        (HwBackend::Nvidia, true) => "hevc_nvenc"@,
        (HwBackend::Intel, false) => "h264_qsv"@,
        (HwBackend::Intel, true) => "hevc_qsv"@,
        (HwBackend::Amd, false) => "h264_amf"@,
        (HwBackend::Amd, true) => "hevc_amf"@,
        (HwBackend::Apple, false) => "h264_videotoolbox"@,
        (HwBackend::Apple, true) => "hevc_videotoolbox"@,
    }
}

pub open spec fn pixel_format_of(b: HwBackend) -> Seq<char> {
    match b {
        HwBackend::Intel => "nv12"@,
        _ => "yuv420p"@,
    }
}

/// The rate-control arguments of each backend.
pub open spec fn quality_args_of(b: HwBackend, hevc: bool, fast: bool) -> Seq<Seq<char>> {
    match b {
        HwBackend::Nvidia => seq![
            "-preset"@,
            if fast { "p1"@ } else { "p5"@ },
            "-tune"@,
            "hq"@,
            "-rc"@,
            "vbr"@,
            "-cq"@,
            if fast { "28"@ } else if !hevc { "19"@ } else { "23"@ },
            "-b:v"@,
            "0"@,
        ],
        HwBackend::Intel => seq![
            "-preset"@,
            if fast { "veryfast"@ } else { "medium"@ },
            "-global_quality"@,
            if fast { "28"@ } else if !hevc { "20"@ } else { "23"@ },
        ],
        HwBackend::Amd => seq![
            "-quality"@,
            if fast { "speed"@ } else { "quality"@ },
            "-rc"@,
            "cqp"@,
            "-qp_i"@,
            if fast { "28"@ } else if !hevc { "19"@ } else { "22"@ },
            "-qp_p"@,
            if fast { "30"@ } else if !hevc { "21"@ } else { "24"@ },
        ],
        HwBackend::Apple => seq!["-q:v"@, if fast { "50"@ } else { "65"@ }],
    }
}

/// The FFmpeg video arguments of a backend: encoder, pixel format, quality
/// (`fast` for previews), and the `hvc1` tag for HEVC.
pub open spec fn video_args_of(b: HwBackend, hevc: bool, fast: bool) -> Seq<Seq<char>> {
    seq!["-c:v"@, encoder_of(b, hevc), "-pix_fmt"@, pixel_format_of(b)] + quality_args_of(
        b,
        hevc,
        fast,
    ) + if hevc {
        seq!["-tag:v"@, "hvc1"@]
    } else {
        Seq::empty()
    }
}

fn push_arg(args: &mut Vec<String>, a: &str)
    ensures
        string_views(final(args)@) == string_views(old(args)@).push(a@),
{
    args.push(a.to_owned());
    assert(string_views(args@) =~= string_views(old(args)@).push(a@));
}

impl HwBackend {
    /// Name shown to the user.
    pub fn label(self) -> (s: &'static str)
        ensures
            s@ == label_of(self),
    {
        match self {
            HwBackend::Nvidia => "NVIDIA NVENC",
            HwBackend::Intel => "Intel Quick Sync",
            HwBackend::Amd => "AMD AMF",
            HwBackend::Apple => "Apple VideoToolbox",
        }
    }

    /// FFmpeg encoder of the backend, H.264 or HEVC.
    pub fn encoder(self, hevc: bool) -> (s: &'static str)
        ensures
            s@ == encoder_of(self, hevc),
    {
        match (self, hevc) {
            (HwBackend::Nvidia, false) => "h264_nvenc",
            (HwBackend::Nvidia, true) => "hevc_nvenc",
            (HwBackend::Intel, false) => "h264_qsv",
            (HwBackend::Intel, true) => "hevc_qsv",
            (HwBackend::Amd, false) => "h264_amf",
            (HwBackend::Amd, true) => "hevc_amf",
            (HwBackend::Apple, false) => "h264_videotoolbox",
            (HwBackend::Apple, true) => "hevc_videotoolbox",
        }
    }

    fn pixel_format(self) -> (s: &'static str)
        ensures
            s@ == pixel_format_of(self),
    {
        match self {
            HwBackend::Intel => "nv12",
            _ => "yuv420p",
        }
    }

    /// Video arguments equivalent in quality to the CPU ones (CRF 18 in
    /// H.264, 22 in HEVC); `fast` is for preview renders.
    pub fn video_args(self, hevc: bool, fast: bool) -> (args: Vec<String>)
        ensures
            string_views(args@) == video_args_of(self, hevc, fast),
    {
        let mut args: Vec<String> = Vec::new();
        push_arg(&mut args, "-c:v");
        push_arg(&mut args, self.encoder(hevc));
        push_arg(&mut args, "-pix_fmt");
        push_arg(&mut args, self.pixel_format());
        match self {
            HwBackend::Nvidia => {
                push_arg(&mut args, "-preset");
                push_arg(&mut args, if fast { "p1" } else { "p5" });
                push_arg(&mut args, "-tune");
                push_arg(&mut args, "hq");
                push_arg(&mut args, "-rc");
                push_arg(&mut args, "vbr");
                push_arg(&mut args, "-cq");
                push_arg(&mut args, if fast { "28" } else if !hevc { "19" } else { "23" });
                push_arg(&mut args, "-b:v");
                push_arg(&mut args, "0");
            },
            HwBackend::Intel => {
                push_arg(&mut args, "-preset");
                push_arg(&mut args, if fast { "veryfast" } else { "medium" });
                push_arg(&mut args, "-global_quality");
                push_arg(&mut args, if fast { "28" } else if !hevc { "20" } else { "23" });
            },
            HwBackend::Amd => {
                push_arg(&mut args, "-quality");
                push_arg(&mut args, if fast { "speed" } else { "quality" });
                push_arg(&mut args, "-rc");
                push_arg(&mut args, "cqp");
                push_arg(&mut args, "-qp_i");
                push_arg(&mut args, if fast { "28" } else if !hevc { "19" } else { "22" });
                push_arg(&mut args, "-qp_p");
                push_arg(&mut args, if fast { "30" } else if !hevc { "21" } else { "24" });
            },
            HwBackend::Apple => {
                push_arg(&mut args, "-q:v");
                push_arg(&mut args, if fast { "50" } else { "65" });
            },
        }
        if hevc {
            push_arg(&mut args, "-tag:v");
            push_arg(&mut args, "hvc1");
        }
        assert(string_views(args@) =~= video_args_of(self, hevc, fast));
        args
    }
}

/// A line of `ffmpeg -encoders` lists `name`: its second word is it.
pub open spec fn lists_encoder(text: Seq<char>, name: Seq<char>) -> bool {
    let lines = split_by(text, char_separator('\n'));
    exists|i: int|
        0 <= i < lines.len() && words(#[trigger] lines[i]).len() >= 2 && words(lines[i])[1] == name
}

/// The backends whose H.264 encoder the listing `encoders` names, in
/// preference order.
pub open spec fn listed_backends_of(encoders: Seq<char>) -> Seq<HwBackend> {
    all_backends().filter(|b: HwBackend| lists_encoder(encoders, encoder_of(b, false)))
}

fn lists(lines: &Vec<Vec<char>>, name: &str) -> (b: bool)
    ensures
        b == exists|i: int|
            0 <= i < lines.len() && words(#[trigger] lines@[i]@).len() >= 2 && words(lines@[i]@)[1]
                == name@,
{
    let target = to_chars(name);
    let mut i: usize = 0;
    while i < lines.len()
        invariant
            i <= lines.len(),
            target@ == name@,
            forall|k: int|
                0 <= k < i ==> !(words(#[trigger] lines@[k]@).len() >= 2 && words(lines@[k]@)[1]
                    == name@),
        decreases lines.len() - i,
    {
        let ws = split_words(&lines[i]);
        if ws.len() >= 2 && crate::text::chars_equal(&ws[1], &target) {
            assert(views_of(ws@)[1] == ws@[1]@);
            return true;
        }
        proof {
            if ws.len() >= 2 {
                assert(views_of(ws@)[1] == ws@[1]@);
            }
        }
        i = i + 1;
    }
    false
}

/// Backends whose H.264 encoder appears in the output of `ffmpeg -encoders`,
/// in preference order.
pub fn listed_backends(encoders: &str) -> (r: Vec<HwBackend>)
    ensures
        r@ == listed_backends_of(encoders@),
{
    let chars = to_chars(encoders);
    let lines = split_at_char(&chars, '\n');
    let ghost lv = split_by(encoders@, char_separator('\n'));
    assert(views_of(lines@) == lv);
    let all = [HwBackend::Nvidia, HwBackend::Amd, HwBackend::Intel, HwBackend::Apple];
    let ghost pred = |b: HwBackend| lists_encoder(encoders@, encoder_of(b, false));
    let mut r: Vec<HwBackend> = Vec::new();
    let mut i: usize = 0;
    assert(all@ =~= all_backends());
    while i < 4
        invariant
            i <= 4,
            all@ == all_backends(),
            views_of(lines@) == lv,
            lv == split_by(encoders@, char_separator('\n')),
            pred == (|b: HwBackend| lists_encoder(encoders@, encoder_of(b, false))),
            r@ == all_backends().take(i as int).filter(pred),
        decreases 4 - i,
    {
        let b = all[i];
        let hit = lists(&lines, b.encoder(false));
        proof {
            reveal_with_fuel(Seq::filter, 1);
            assert(all_backends().take(i + 1).drop_last() =~= all_backends().take(i as int));
            assert forall|k: int| 0 <= k < lines.len() implies lines@[k]@ == #[trigger] lv[k] by {
                assert(views_of(lines@)[k] == lines@[k]@);
            }
            if hit {
                let k = choose|k: int|
                    0 <= k < lines.len() && words(#[trigger] lines@[k]@).len() >= 2 && words(
                        lines@[k]@,
                    )[1] == encoder_of(b, false);
                assert(lv[k] == lines@[k]@);
            }
            if pred(b) {
                let k = choose|k: int|
                    0 <= k < lv.len() && words(#[trigger] lv[k]).len() >= 2 && words(lv[k])[1]
                        == encoder_of(b, false);
                assert(lv[k] == lines@[k]@);
            }
        }
        if hit {
            r.push(b);
        }
        i = i + 1;
    }
    assert(all_backends().take(4) =~= all_backends());
    r
}

/// Where the quality numbers stand among the quality arguments of `b`:
/// `-cq`, `-global_quality`, `-qp_i` and `-qp_p`, or `-q:v`.
pub open spec fn quality_places(b: HwBackend) -> Seq<int> {
    match b {
        HwBackend::Nvidia => seq![7int],
        HwBackend::Intel => seq![3int],
        HwBackend::Amd => seq![5int, 7int],
        HwBackend::Apple => seq![1int],
    }
}

/// The quality numbers of `b`, in the order of `quality_places`.
pub open spec fn quality_numbers(b: HwBackend, hevc: bool, fast: bool) -> Seq<nat> {
    match b {
        HwBackend::Nvidia => seq![if fast { 28nat } else if !hevc { 19nat } else { 23nat }],
        HwBackend::Intel => seq![if fast { 28nat } else if !hevc { 20nat } else { 23nat }],
        HwBackend::Amd => seq![
            if fast { 28nat } else if !hevc { 19nat } else { 22nat },
            if fast { 30nat } else if !hevc { 21nat } else { 24nat },
        ],
        HwBackend::Apple => seq![if fast { 50nat } else { 65nat }],
    }
}

/// The quality arguments of `b` write its quality numbers at their places.
pub proof fn lemma_quality_numbers_written(b: HwBackend, hevc: bool, fast: bool)
    ensures
        quality_places(b).len() == quality_numbers(b, hevc, fast).len(),
        forall|k: int|
            0 <= k < quality_places(b).len() ==> 0 <= #[trigger] quality_places(b)[k] < quality_args_of(
                b,
                hevc,
                fast,
            ).len() && quality_args_of(b, hevc, fast)[quality_places(b)[k]] == crate::text::decimal(
                quality_numbers(b, hevc, fast)[k],
            ),
{
    reveal_strlit("19");
    reveal_strlit("20");
    reveal_strlit("21");
    reveal_strlit("22");
    reveal_strlit("23");
    reveal_strlit("24");
    reveal_strlit("28");
    reveal_strlit("30");
    reveal_strlit("50");
    reveal_strlit("65");
    reveal_with_fuel(crate::text::decimal, 3);
    assert(crate::text::decimal(19) =~= "19"@);
    assert(crate::text::decimal(20) =~= "20"@);
    assert(crate::text::decimal(21) =~= "21"@);
    assert(crate::text::decimal(22) =~= "22"@);
    assert(crate::text::decimal(23) =~= "23"@);
    assert(crate::text::decimal(24) =~= "24"@);
    assert(crate::text::decimal(28) =~= "28"@);
    assert(crate::text::decimal(30) =~= "30"@);
    assert(crate::text::decimal(50) =~= "50"@);
    assert(crate::text::decimal(65) =~= "65"@);
}

/// For previews (`fast`) the quality arguments do not depend on HEVC, and
/// each quality number is never better than without `fast`: not lower for
/// `-cq`, `-global_quality`, `-qp_i` and `-qp_p`, where lower is better; not
/// higher for Apple's `-q:v`, where higher is better.
pub proof fn lemma_fast_is_never_better(b: HwBackend, hevc: bool)
    ensures
        quality_args_of(b, hevc, true) == quality_args_of(b, !hevc, true),
        quality_numbers(b, hevc, true) == quality_numbers(b, !hevc, true),
        forall|k: int|
            0 <= k < quality_numbers(b, hevc, true).len() ==> if b == HwBackend::Apple {
                #[trigger] quality_numbers(b, hevc, true)[k] <= quality_numbers(b, hevc, false)[k]
            } else {
                quality_numbers(b, hevc, true)[k] >= quality_numbers(b, hevc, false)[k]
            },
{
}

/// Every backend has an HEVC encoder (its name starts with `hevc_`) and an
/// H.264 one (its name starts with `h264_`), and they are two encoders.
pub proof fn lemma_encoders_match_the_codec(b: HwBackend)
    ensures
        encoder_of(b, true).len() > 5 && encoder_of(b, true).take(5) == seq!['h', 'e', 'v', 'c', '_'],
        encoder_of(b, false).len() > 5 && encoder_of(b, false).take(5) == seq!['h', '2', '6', '4', '_'],
        encoder_of(b, true) != encoder_of(b, false),
{
    reveal_strlit("h264_nvenc");
    reveal_strlit("hevc_nvenc");
    reveal_strlit("h264_qsv");
    reveal_strlit("hevc_qsv");
    reveal_strlit("h264_amf");
    reveal_strlit("hevc_amf");
    reveal_strlit("h264_videotoolbox");
    reveal_strlit("hevc_videotoolbox");
    let h = encoder_of(b, true);
    let a = encoder_of(b, false);
    assert(h.take(5) =~= seq!['h', 'e', 'v', 'c', '_']);
    assert(a.take(5) =~= seq!['h', '2', '6', '4', '_']);
    assert(h[1] != a[1]);
}

} // verus!
