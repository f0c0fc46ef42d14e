//! A speech recognition service's verified core: the log of served queries and its report, the
//! choice of decoder for an upload, ADTS framing and AAC decoding, channel reduction, and the
//! text that a recognition reports.
pub mod aac;
pub mod asr;
pub mod audio;
pub mod codecs;
pub mod record;
pub mod text;

use vstd::prelude::*;

use crate::asr::transcript_of;
use crate::record::{record_step, Elapsed, QueryTracker, RecordView};

verus! {

/// The state that the server shares between requests.
pub struct AppState {
    pub track: QueryTracker,
}

impl AppState {
    /// Finishes a recognition that took `duration` and produced the converted
    /// `segments`: logs the reported text with the duration and returns that text.
    pub fn finish_query(&mut self, segments: &Vec<String>, duration: Elapsed) -> (text: String)
        requires
            old(self).track.total_cnts < usize::MAX,
        ensures
            text@ == transcript_of(segments.deep_view()),
            final(self).track@ == record_step(
                old(self).track@,
                RecordView { text: text@, secs: duration.secs as int, nanos: duration.nanos as int },
            ),
    {
        let text = crate::asr::final_transcript(segments);
        self.track.record_query(text.clone(), duration);
        text
    }
}

} // verus!
