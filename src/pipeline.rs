//! Naming and sizing rules of the translation pipeline.

use vstd::prelude::*;

use crate::text::chars_of;

verus! {

/// The most cues sent for translation in one request.
pub const BATCH_SIZE: usize = 128;

/// The file name of a subtitle track: the video's stem, an underscore, the
/// suffix, and the `.srt` extension.
pub fn subtitle_file_name(stem: &str, suffix: &str) -> (r: String)
    ensures
        r@ == stem@ + seq!['_'] + suffix@ + seq!['.', 's', 'r', 't'],
{
    let mut r = String::new();
    r.append(stem);
    r.append("_");
    r.append(suffix);
    r.append(".srt");
    proof {
        reveal_strlit("_");
        reveal_strlit(".srt");
        assert("_"@ =~= seq!['_']);
        assert(".srt"@ =~= seq!['.', 's', 'r', 't']);
    }
    r
}

/// The suffix of the combined track: source and target language joined by a hyphen.
pub fn combined_suffix(source: &str, target: &str) -> (r: String)
    ensures
        r@ == source@ + seq!['-'] + target@,
{
    let mut r = String::new();
    r.append(source);
    r.append("-");
    r.append(target);
    proof {
        reveal_strlit("-");
        assert("-"@ =~= seq!['-']);
    }
    r
}

/// The subtitle codec that a container with this file extension takes:
/// Matroska (`mkv`) holds text subtitles as SubRip (`srt`); the other
/// containers written here (MP4 and QuickTime) take timed text (`mov_text`).
pub open spec fn codec_for_extension(extension: Seq<char>) -> Seq<char> {
    if extension == seq!['m', 'k', 'v'] {
        seq!['s', 'r', 't']
    } else {
        seq!['m', 'o', 'v', '_', 't', 'e', 'x', 't']
    }
}

/// The subtitle codec for the output container, chosen by its file extension.
pub fn subtitle_codec(extension: &str) -> (r: &'static str)
    ensures
        r@ == codec_for_extension(extension@),
{
    let c = chars_of(extension);
    proof {
        reveal_strlit("srt");
        reveal_strlit("mov_text");
        assert("srt"@ =~= seq!['s', 'r', 't']);
        assert("mov_text"@ =~= seq!['m', 'o', 'v', '_', 't', 'e', 'x', 't']);
    }
    if c.len() == 3 && c[0] == 'm' && c[1] == 'k' && c[2] == 'v' {
        proof {
            assert(extension@ =~= seq!['m', 'k', 'v']);
        }
        "srt"
    } else {
        proof {
            if extension@ == seq!['m', 'k', 'v'] {
                assert(c@[0] == 'm' && c@[1] == 'k' && c@[2] == 'v');
            }
        }
        "mov_text"
    }
}

} // verus!
