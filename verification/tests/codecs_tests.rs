use asr_server::codecs::{mp3_samples, wav_samples, webm_opus_packets, WebmError};
use std::io::Cursor;
use webm_iterable::matroska_spec::{Master, MatroskaSpec};
use webm_iterable::WebmWriter;

fn wav_bytes(channels: u16, samples: &[i16]) -> Vec<u8> {
    let spec = hound::WavSpec { channels, sample_rate: 16000, bits_per_sample: 16, sample_format: hound::SampleFormat::Int };
    let mut cursor = Cursor::new(Vec::new());
    {
        let mut writer = hound::WavWriter::new(&mut cursor, spec).unwrap();
        for s in samples {
            writer.write_sample(*s).unwrap();
        }
        writer.finalize().unwrap();
    }
    cursor.into_inner()
}

#[test]
fn wav_samples_are_read_back() {
    let samples = [0i16, 1, -1, 32767, -32768, 1234];
    assert_eq!(wav_samples(&wav_bytes(1, &samples)), Some(samples.to_vec()));
    assert_eq!(wav_samples(&wav_bytes(2, &samples)), Some(samples.to_vec()));
}

#[test]
fn wav_garbage_is_unreadable() {
    assert_eq!(wav_samples(b"not a wav file at all"), None);
    assert_eq!(wav_samples(&[]), None);
}

fn webm_bytes(blocks: &[Vec<u8>]) -> Vec<u8> {
    let mut dest = Cursor::new(Vec::new());
    {
        let mut writer = WebmWriter::new(&mut dest);
        writer.write(&MatroskaSpec::Segment(Master::Start)).unwrap();
        writer.write(&MatroskaSpec::Cluster(Master::Start)).unwrap();
        for b in blocks {
            writer.write(&MatroskaSpec::SimpleBlock(b.clone())).unwrap();
        }
        writer.write(&MatroskaSpec::Cluster(Master::End)).unwrap();
        writer.write(&MatroskaSpec::Segment(Master::End)).unwrap();
    }
    dest.into_inner()
}

#[test]
fn webm_packets_are_the_block_payloads() {
    let bytes = webm_bytes(&[vec![0x81, 0x00, 0x01, 0x80, 1, 2, 3], vec![0x81, 0x00, 0x02, 0x80, 9]]);
    assert_eq!(webm_opus_packets(&bytes), Ok(vec![vec![1, 2, 3], vec![9]]));
}

#[test]
fn webm_two_byte_track_number() {
    let bytes = webm_bytes(&[vec![0x40, 0x02, 0x00, 0x00, 0x00, 7, 8]]);
    assert_eq!(webm_opus_packets(&bytes), Ok(vec![vec![7, 8]]));
}

#[test]
fn webm_short_block_is_an_error() {
    let bytes = webm_bytes(&[vec![0x81, 0x00]]);
    assert_eq!(webm_opus_packets(&bytes), Err(WebmError::ShortBlock));
}

#[test]
fn webm_unreadable_track_is_an_error() {
    let bytes = webm_bytes(&[vec![0x00, 0x00, 0x00, 0x00]]);
    assert_eq!(webm_opus_packets(&bytes), Err(WebmError::BadBlock));
}

#[test]
fn webm_empty_file_has_no_packets() {
    assert_eq!(webm_opus_packets(&[]), Ok(Vec::new()));
}

fn mp3_stream(mono: bool, frames: usize) -> Vec<u8> {
    // MPEG-1 layer III, 128 kbit/s, 44.1 kHz: 417 bytes per frame, silent payload.
    let mut out = Vec::new();
    for _ in 0..frames {
        out.extend_from_slice(&[0xFF, 0xFB, 0x90, if mono { 0xC0 } else { 0x00 }]);
        out.extend(std::iter::repeat(0u8).take(413));
    }
    out
}

fn mp3_reference(bytes: &[u8]) -> Vec<i16> {
    let mut decoder = minimp3::Decoder::new(Cursor::new(bytes.to_vec()));
    let mut pcm = Vec::new();
    while let Ok(frame) = decoder.next_frame() {
        pcm.extend(frame.data.chunks(frame.channels).map(|c| c[0]));
    }
    pcm
}

#[test]
fn mp3_samples_keep_first_channel_of_each_frame() {
    for mono in [true, false] {
        let bytes = mp3_stream(mono, 12);
        let pcm = mp3_samples(&bytes);
        assert_eq!(pcm, mp3_reference(&bytes));
        assert!(!pcm.is_empty());
        assert_eq!(pcm.len() % 1152, 0);
    }
}

#[test]
fn mp3_garbage_gives_no_samples() {
    assert_eq!(mp3_samples(&[]), Vec::<i16>::new());
    assert_eq!(mp3_samples(b"definitely not an mp3 stream"), Vec::<i16>::new());
}
