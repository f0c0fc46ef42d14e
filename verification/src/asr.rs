//! The decisions of the recognition endpoint that do not touch the audio: which format an upload
//! is read as, what a rejected upload is answered, and which text a finished recognition
//! reports and logs.
use vstd::prelude::*;

use crate::audio::{audio_format, format_of_content_type, AudioFormat};

verus! {

broadcast use vstd::string::group_string_axioms;

/// The answer to an upload that the endpoint does not decode.
pub struct Rejection {
    pub status: u16,
    pub body: String,
}

/// The text that a recognition reports: that of the last segment the model produced (after
/// conversion), or the empty text when it produced none.
pub open spec fn transcript_of(segments: Seq<Seq<char>>) -> Seq<char> {
    if segments.len() == 0 {
        Seq::empty()
    } else {
        segments.last()
    }
}

/// The reported text is the text of the last segment, or empty when there is no segment.
pub proof fn lemma_transcript_is_last_segment(segments: Seq<Seq<char>>)
    ensures
        segments.len() > 0 ==> transcript_of(segments) == segments[segments.len() - 1],
        segments.len() == 0 ==> transcript_of(segments) == Seq::<char>::empty(),
{
}

/// The format that an upload with `content_type` is decoded as, or the answer `400` with the body
/// `err: unsupported audio format.` when there is none or the endpoint does not know it.
pub fn check_format(content_type: &Option<String>) -> (r: Result<AudioFormat, Rejection>)
    ensures
        match content_type {
            Some(ct) => format_of_content_type(ct@) is Some,
            None => false,
        } ==> r is Ok,
        r matches Ok(f) ==> content_type matches Some(ct) && format_of_content_type(ct@) == Some(f),
        r matches Err(rej) ==> rej.status == 400 && rej.body@ == "err: unsupported audio format."@,
{
    match audio_format(content_type) {
        Some(f) => Ok(f),
        None => Err(Rejection { status: 400, body: "err: unsupported audio format.".to_string() }),
    }
}

/// The text to report for the converted segments of a recognition, in order.
pub fn final_transcript(segments: &Vec<String>) -> (text: String)
    ensures
        text@ == transcript_of(segments.deep_view()),
{
    let n = segments.len();
    if n == 0 {
        String::new()
    } else {
        segments[n - 1].clone()
    }
}

} // verus!
