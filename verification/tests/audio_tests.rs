use asr_server::asr::{check_format, final_transcript};
use asr_server::aac::{decode_adts_stream, AacError};
use asr_server::audio::{
    adts_frame_length, audio_format, first_channel, next_adts_frame, upload_content_type, AdtsStep,
    AudioFormat,
};

fn ct(s: &str) -> Option<String> {
    Some(s.to_string())
}

#[test]
fn content_types_select_formats() {
    assert_eq!(audio_format(&ct("audio/webm;codecs=opus")), Some(AudioFormat::WebmOpus));
    assert_eq!(audio_format(&ct("audio/wav;codecs=pcm")), Some(AudioFormat::WavPcm));
    assert_eq!(audio_format(&ct("audio/mp3;codecs=mp3")), Some(AudioFormat::Mp3));
    assert_eq!(audio_format(&ct("audio/aac;codecs=aac")), Some(AudioFormat::AdtsAac));
    assert_eq!(audio_format(&ct("audio/webm")), None);
    assert_eq!(audio_format(&ct("AUDIO/WAV;CODECS=PCM")), None);
    assert_eq!(audio_format(&None), None);
}

#[test]
fn unsupported_format_is_rejected() {
    match check_format(&ct("audio/ogg")) {
        Err(rej) => {
            assert_eq!(rej.status, 400);
            assert_eq!(rej.body, "err: unsupported audio format.");
        }
        Ok(_) => panic!("accepted an unknown format"),
    }
    assert!(check_format(&None).is_err());
    assert!(matches!(check_format(&ct("audio/mp3;codecs=mp3")), Ok(AudioFormat::Mp3)));
}

#[test]
fn last_declared_content_type_counts() {
    let parts = vec![ct("audio/wav;codecs=pcm"), None, ct("audio/mp3;codecs=mp3"), None];
    assert_eq!(upload_content_type(&parts), ct("audio/mp3;codecs=mp3"));
    assert_eq!(upload_content_type(&vec![None, None]), None);
    assert_eq!(upload_content_type(&Vec::new()), None);
}

#[test]
fn first_channel_takes_every_nth_sample() {
    assert_eq!(first_channel(&[1, 2, 3, 4, 5, 6], 2), vec![1, 3, 5]);
    assert_eq!(first_channel(&[1, 2, 3, 4, 5], 2), vec![1, 3, 5]);
    assert_eq!(first_channel(&[1, 2, 3, 4, 5, 6, 7], 3), vec![1, 4, 7]);
    assert_eq!(first_channel(&[9, 8], 1), vec![9, 8]);
    assert_eq!(first_channel(&[], 2), Vec::<i16>::new());
    let original: Vec<i16> = [1i16, 2, 3, 4, 5].chunks(2).map(|c| c[0]).collect();
    assert_eq!(first_channel(&[1, 2, 3, 4, 5], 2), original);
}

fn original_length(h: [u8; 7]) -> usize {
    (((h[3] & 0x3) as usize) << 11) | ((h[4] << 3) as usize) | (((h[5] & 0xE0) as usize) >> 5)
}

#[test]
fn adts_length_is_read_as_the_server_reads_it() {
    assert_eq!(adts_frame_length(1, 0xFF, 0xE0), 2303);
    assert_eq!(adts_frame_length(0, 0x20, 0x00), 0);
    assert_eq!(adts_frame_length(0, 0x01, 0x20), 9);
    for b3 in [0u8, 1, 2, 3, 0xFC, 0xFF] {
        for b4 in [0u8, 1, 0x1F, 0x20, 0x80, 0xFF] {
            for b5 in [0u8, 0x1F, 0x20, 0xE0, 0xFF] {
                let h = [0xFF, 0xF1, 0x50, b3, b4, b5, 0xFC];
                assert_eq!(adts_frame_length(b3, b4, b5), original_length(h));
            }
        }
    }
}

fn header(len: usize) -> Vec<u8> {
    vec![0xFF, 0xF1, 0x50, ((len >> 11) & 3) as u8, ((len >> 3) & 0x1F) as u8, ((len & 7) << 5) as u8, 0xFC]
}

#[test]
fn adts_steps() {
    let mut s = header(9);
    s.extend_from_slice(&[0, 0]);
    s.extend(header(7));
    assert_eq!(next_adts_frame(&s, 0), AdtsStep::Frame { length: 9 });
    assert_eq!(next_adts_frame(&s, 9), AdtsStep::Frame { length: 7 });
    assert_eq!(next_adts_frame(&s, 16), AdtsStep::End);
    assert_eq!(next_adts_frame(&s, 12), AdtsStep::End);
    let short = header(20);
    assert_eq!(next_adts_frame(&short, 0), AdtsStep::End);
    let bad = header(3);
    assert_eq!(next_adts_frame(&bad, 0), AdtsStep::Malformed);
}

#[test]
fn adts_malformed_header_is_an_error() {
    let mut s = header(7);
    s.extend(header(2));
    assert_eq!(decode_adts_stream(&s), Err(AacError::MalformedHeader));
}

#[test]
fn adts_empty_stream_gives_no_samples() {
    assert_eq!(decode_adts_stream(&[]), Ok(Vec::new()));
    assert_eq!(decode_adts_stream(&[1, 2, 3]), Ok(Vec::new()));
}

#[test]
fn adts_decoding_gives_whole_frames_of_mono_samples() {
    let mut s = Vec::new();
    for _ in 0..3 {
        s.extend(header(16));
        s.extend_from_slice(&[0x21, 0x10, 0x04, 0x60, 0x8C, 0x1C, 0x00, 0x00, 0x00]);
    }
    match decode_adts_stream(&s) {
        Ok(pcm) => {
            assert_eq!(pcm.len() % 1024, 0);
            assert!(pcm.len() <= 3 * 1024);
        }
        Err(e) => assert_ne!(e, AacError::MalformedHeader),
    }
}

#[test]
fn transcript_is_the_last_segment() {
    assert_eq!(final_transcript(&vec!["a".to_string(), "b".to_string()]), "b");
    assert_eq!(final_transcript(&Vec::new()), "");
}
