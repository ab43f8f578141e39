//! Subtitle tracks: parsing, rendering, merging, and the span-marker codec
//! that carries cue text through a translation service.

pub mod decimal;
pub mod pipeline;
pub mod srt;
pub mod text;
pub mod translation;

pub use pipeline::{combined_suffix, subtitle_codec, subtitle_file_name, BATCH_SIZE};
pub use srt::{subtitles, Subtitle, SubtitleIter, Subtitles};
pub use text::lines_of;
pub use translation::{Data, Translation, TranslationError, TranslationResponse};
