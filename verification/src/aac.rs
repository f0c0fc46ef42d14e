//! Decoding an ADTS stream of AAC with fdk-aac, the first channel kept.
//!
//! The decoder is a state machine of the outside library. This module drives it in one fixed
//! pattern: open it for ADTS, give it one configuration, then, frame after frame, fill it with
//! the frame and decode once into a zeroed buffer. The decoder's answers are then a function of
//! the configuration and of the frames filled so far, and the names below stand for them.
use vstd::prelude::*;

use crate::audio::{
    adts_frames_from, adts_length, adts_malformed_from, adts_step, first_channel, first_channel_of,
    lemma_first_channel_picks, next_adts_frame, AdtsStep,
};

verus! {

/// Why an AAC upload could not be turned into samples.
#[derive(Debug, Clone, Copy, PartialEq, Eq, Structural)]
pub enum AacError {
    /// The decoder refused the stream configuration it is given first.
    ConfigRejected,
    /// The decoder refused a frame that it was filled with.
    FillRejected,
    /// A header announces a frame shorter than its own seven bytes.
    MalformedHeader,
}

#[verifier::external_type_specification]
#[verifier::external_body]
pub struct ExAacDecoder(fdk_aac::dec::Decoder);

#[verifier::external_type_specification]
#[verifier::external_body]
pub struct ExAacDecoderError(fdk_aac::dec::DecoderError);

/// Whether a fresh ADTS decoder accepts the AudioSpecificConfig `config`.
pub uninterp spec fn aac_config_accepted(config: Seq<u8>) -> bool;

/// Whether a fresh ADTS decoder, given the configuration `config`, then filled with the frames of
/// `filled` in turn and, after each but the last, asked to decode into a buffer that held the
/// corresponding element of `buffers`, accepts the last frame of `filled`.
pub uninterp spec fn aac_fill_accepted(
    config: Seq<u8>,
    filled: Seq<Seq<u8>>,
    buffers: Seq<Seq<i16>>,
) -> bool;

/// What a fresh ADTS decoder, given the configuration `config`, then filled with the frames of
/// `filled` in turn and, after each, asked to decode into a buffer that held the corresponding
/// element of `buffers`, answers to the last of these decodes: `None` where it says that it needs
/// more bits, else the samples it leaves in that buffer.
pub uninterp spec fn aac_frame_output(
    config: Seq<u8>,
    filled: Seq<Seq<u8>>,
    buffers: Seq<Seq<i16>>,
) -> Option<Seq<i16>>;

/// The configuration the server gives the decoder: AAC LC, 48 kHz, two channels.
pub open spec fn server_aac_config() -> Seq<u8> {
    seq![0x10u8, 0x90u8]
}

/// How many samples (both channels) the decoder is asked for per frame.
pub const AAC_FRAME_SAMPLES: usize = 2048;

/// The zeroed buffer that each frame is decoded into.
pub open spec fn zero_frame_buffer() -> Seq<i16> {
    Seq::new(AAC_FRAME_SAMPLES as nat, |i: int| 0i16)
}

/// `n` zeroed buffers.
pub open spec fn zero_frame_buffers(n: nat) -> Seq<Seq<i16>> {
    Seq::new(n, |i: int| zero_frame_buffer())
}

/// An fdk-aac decoder for ADTS, with the calls made on it so far: the configuration it was given,
/// the frames it was filled with, and what each buffer held before it was decoded into. The
/// history is written only by the calls themselves.
struct AdtsDecoder {
    decoder: fdk_aac::dec::Decoder,
    config: Ghost<Option<Seq<u8>>>,
    filled: Ghost<Seq<Seq<u8>>>,
    buffers: Ghost<Seq<Seq<i16>>>,
}

impl AdtsDecoder {
    /// `fdk_aac::dec::Decoder::new(Transport::Adts)`: a fresh decoder for ADTS framed AAC, on which
    /// no call was made yet.
    #[verifier::external_body]
    fn open() -> (d: AdtsDecoder)
        ensures
            d.config@ is None,
            d.filled@ == Seq::<Seq<u8>>::empty(),
            d.buffers@ == Seq::<Seq<i16>>::empty(),
    {
        AdtsDecoder {
            decoder: fdk_aac::dec::Decoder::new(fdk_aac::dec::Transport::Adts),
            config: Ghost(None),
            filled: Ghost(Seq::empty()),
            buffers: Ghost(Seq::empty()),
        }
    }

    /// `Decoder::config_raw` on a fresh decoder: whether it accepts `config` is named by
    /// `aac_config_accepted`; the call is recorded.
    #[verifier::external_body]
    fn config_raw(&mut self, config: &[u8]) -> (r: Result<(), fdk_aac::dec::DecoderError>)
        requires
            old(self).config@ is None,
            old(self).filled@.len() == 0,
            old(self).buffers@.len() == 0,
        ensures
            r is Ok <==> aac_config_accepted(config@),
            final(self).config@ == Some(config@),
            final(self).filled == old(self).filled,
            final(self).buffers == old(self).buffers,
    {
        self.decoder.config_raw(config)
    }

    /// `Decoder::fill` with `data`, on a configured decoder that decoded once after each earlier
    /// frame: the frame is recorded; whether the decoder accepts it is named by
    /// `aac_fill_accepted`; the count it returns is `data.len()` less what it left unused.
    #[verifier::external_body]
    fn fill(&mut self, data: &[u8]) -> (r: Result<usize, fdk_aac::dec::DecoderError>)
        requires
            old(self).config@ is Some,
            old(self).buffers@.len() == old(self).filled@.len(),
        ensures
            final(self).filled@ == old(self).filled@.push(data@),
            r is Ok <==> aac_fill_accepted(
                old(self).config@->0,
                final(self).filled@,
                old(self).buffers@,
            ),
            r matches Ok(n) ==> n <= data@.len(),
            final(self).config == old(self).config,
            final(self).buffers == old(self).buffers,
    {
        self.decoder.fill(data)
    }

    /// `Decoder::decode_frame` into `pcm`, once after the last fill: what `pcm` held is recorded;
    /// returns whether the decoder answered `DecoderError::NOT_ENOUGH_BITS`, and otherwise leaves
    /// in `pcm` the samples named by `aac_frame_output`. `pcm` keeps its length.
    #[verifier::external_body]
    fn decode_frame(&mut self, pcm: &mut Vec<i16>) -> (not_enough_bits: bool)
        requires
            old(self).config@ is Some,
            old(self).buffers@.len() + 1 == old(self).filled@.len(),
            old(pcm)@.len() == AAC_FRAME_SAMPLES,
        ensures
            final(self).buffers@ == old(self).buffers@.push(old(pcm)@),
            final(pcm)@.len() == old(pcm)@.len(),
            match aac_frame_output(old(self).config@->0, old(self).filled@, final(self).buffers@) {
                None => not_enough_bits,
                Some(out) => !not_enough_bits && final(pcm)@ == out,
            },
            final(self).config == old(self).config,
            final(self).filled == old(self).filled,
    {
        match self.decoder.decode_frame(pcm.as_mut_slice()) {
            Err(e) => e == fdk_aac::dec::DecoderError::NOT_ENOUGH_BITS,
            Ok(()) => false,
        }
    }
}

/// The bytes of the frames that the reader finds in `s`, in order.
pub open spec fn adts_frame_bytes(s: Seq<u8>) -> Seq<Seq<u8>> {
    adts_frames_from(s, 0).map_values(|f: (nat, nat)| s.subrange(f.0 as int, f.0 as int + f.1))
}

/// The bytes of the frames that the reader finds from offset `pos` of `s` on, in order.
pub open spec fn adts_frame_bytes_from(s: Seq<u8>, pos: nat) -> Seq<Seq<u8>> {
    adts_frames_from(s, pos).map_values(|f: (nat, nat)| s.subrange(f.0 as int, f.0 as int + f.1))
}

proof fn lemma_frame_bytes_prefix_from(s: Seq<u8>, pos: nat)
    requires
        pos <= s.len(),
    ensures
        pos + adts_frame_bytes_from(s, pos).flatten().len() <= s.len(),
        adts_frame_bytes_from(s, pos).flatten() == s.subrange(
            pos as int,
            pos as int + adts_frame_bytes_from(s, pos).flatten().len(),
        ),
    decreases s.len() - pos,
{
    let fb = adts_frame_bytes_from(s, pos);
    match adts_step(s, pos) {
        AdtsStep::Frame { length } => {
            if length > 0 && pos + length <= s.len() {
                let next = (pos + length) as nat;
                lemma_frame_bytes_prefix_from(s, next);
                let rest = adts_frame_bytes_from(s, next);
                assert(adts_frames_from(s, pos) == seq![(pos, length as nat)] + adts_frames_from(s, next));
                assert(fb =~= seq![s.subrange(pos as int, next as int)] + rest);
                assert(fb.first() == s.subrange(pos as int, next as int));
                assert(fb.drop_first() =~= rest);
                assert(fb.flatten() == s.subrange(pos as int, next as int) + rest.flatten());
                assert(fb.flatten() =~= s.subrange(pos as int, pos as int + fb.flatten().len()));
            } else {
                assert(fb =~= Seq::<Seq<u8>>::empty());
            }
        },
        _ => {
            assert(fb =~= Seq::<Seq<u8>>::empty());
        },
    }
}

/// The frames handed to the decoder, joined end to end, are the stream's first bytes: each frame
/// is the next piece of the stream, none is skipped, reordered or cut.
pub proof fn lemma_frame_bytes_tile_stream(s: Seq<u8>)
    ensures
        adts_frame_bytes(s).flatten().len() <= s.len(),
        adts_frame_bytes(s).flatten() == s.take(adts_frame_bytes(s).flatten().len() as int),
{
    lemma_frame_bytes_prefix_from(s, 0);
    assert(adts_frame_bytes(s) =~= adts_frame_bytes_from(s, 0));
}

/// Whether the decoder configured with `config` accepts each of `frames` as it is filled with it,
/// each earlier frame decoded into a zeroed buffer.
pub open spec fn all_fills_accepted(config: Seq<u8>, frames: Seq<Seq<u8>>) -> bool {
    forall|i: int|
        0 < i <= frames.len() ==> #[trigger] aac_fill_accepted(
            config,
            frames.take(i),
            zero_frame_buffers((i - 1) as nat),
        )
}

/// The samples that the frames give: for each frame in turn, nothing where the decoder wants more
/// bits, else the first of the two channels of what it decoded into a zeroed buffer.
pub open spec fn decoded_mono(config: Seq<u8>, frames: Seq<Seq<u8>>) -> Seq<i16>
    decreases frames.len(),
{
    if frames.len() == 0 {
        Seq::empty()
    } else {
        decoded_mono(config, frames.drop_last()) + match aac_frame_output(
            config,
            frames,
            zero_frame_buffers(frames.len()),
        ) {
            None => Seq::empty(),
            Some(out) => first_channel_of(out, 2),
        }
    }
}

/// No frame, no samples.
pub proof fn lemma_decoded_mono_empty(config: Seq<u8>)
    ensures
        decoded_mono(config, Seq::empty()) == Seq::<i16>::empty(),
{
}

/// Each frame adds to the samples of the frames before it exactly the first of the two channels
/// of what the decoder wrote for it: nothing where it wanted more bits; otherwise, for output
/// `out`, samples whose `k`-th is `out[2 * k]`, as many as it takes to cover `out`.
pub proof fn lemma_decoded_mono_appends_first_channel(config: Seq<u8>, frames: Seq<Seq<u8>>)
    requires
        frames.len() > 0,
    ensures
        ({
            let prev = decoded_mono(config, frames.drop_last());
            let all = decoded_mono(config, frames);
            let added = all.subrange(prev.len() as int, all.len() as int);
            match aac_frame_output(config, frames, zero_frame_buffers(frames.len())) {
                None => all == prev,
                Some(out) => {
                    &&& all.len() >= prev.len()
                    &&& all.subrange(0, prev.len() as int) == prev
                    &&& added.len() * 2 >= out.len()
                    &&& forall|k: int|
                        0 <= k < added.len() ==> {
                            &&& #[trigger] added[k] == out[2 * k]
                            &&& 2 * k < out.len()
                        }
                },
            }
        }),
{
    let prev = decoded_mono(config, frames.drop_last());
    let all = decoded_mono(config, frames);
    match aac_frame_output(config, frames, zero_frame_buffers(frames.len())) {
        None => {
            assert(all =~= prev);
        },
        Some(out) => {
            let fc = first_channel_of(out, 2);
            lemma_first_channel_picks(out, 2);
            assert(all == prev + fc);
            let added = all.subrange(prev.len() as int, all.len() as int);
            assert(added =~= fc);
            assert(all.subrange(0, prev.len() as int) =~= prev);
            assert forall|k: int| 0 <= k < added.len() implies {
                &&& #[trigger] added[k] == out[2 * k]
                &&& 2 * k < out.len()
            } by {
                assert(added[k] == fc[k]);
                assert(k * 2 == 2 * k);
            }
        },
    }
}

proof fn lemma_frames_split(s: Seq<u8>, pos: nat, length: nat)
    requires
        adts_step(s, pos) == (AdtsStep::Frame { length: length as usize }),
        length < 8192,
    ensures
        adts_frames_from(s, pos) == seq![(pos, length)] + adts_frames_from(s, pos + length),
        adts_malformed_from(s, pos) == adts_malformed_from(s, pos + length),
        length >= 7,
        pos + length <= s.len(),
{
}

/// Decodes an ADTS stream of AAC LC, 48 kHz, two channels, keeping the first channel.
///
/// The decoder is configured with `0x10 0x90`, then filled with each frame that
/// [`next_adts_frame`] finds, in order, and decoded once after each into 2048 zeroed samples. A
/// frame for which it wants more bits gives nothing; any other gives the first channel of what
/// it decoded. Reading stops where the stream ends or a frame runs past it; a header that
/// announces a frame shorter than seven bytes, a refused configuration and a refused frame are
/// errors.
pub fn decode_adts_stream(bytes: &[u8]) -> (r: Result<Vec<i16>, AacError>)
    ensures
        ({
            let cfg = server_aac_config();
            let frames = adts_frame_bytes(bytes@);
            &&& (r == Err::<Vec<i16>, AacError>(AacError::ConfigRejected) <==> !aac_config_accepted(
                cfg,
            ))
            &&& (r == Err::<Vec<i16>, AacError>(AacError::FillRejected) <==> aac_config_accepted(
                cfg,
            ) && !all_fills_accepted(cfg, frames))
            &&& (r == Err::<Vec<i16>, AacError>(AacError::MalformedHeader) <==> aac_config_accepted(
                cfg,
            ) && all_fills_accepted(cfg, frames) && adts_malformed_from(bytes@, 0))
            &&& (r matches Ok(pcm) ==> pcm@ == decoded_mono(cfg, frames))
        }),
{
    let ghost s = bytes@;
    let ghost cfg = server_aac_config();
    let ghost all = adts_frames_from(s, 0);
    let ghost frames = adts_frame_bytes(s);
    let mut decoder = AdtsDecoder::open();
    let config: Vec<u8> = vec![0x10u8, 0x90u8];
    assert(config@ =~= cfg);
    match decoder.config_raw(config.as_slice()) {
        Err(_) => {
            return Err(AacError::ConfigRejected);
        },
        Ok(()) => {},
    }
    let n = bytes.len();
    let mut pcm: Vec<i16> = Vec::new();
    let mut pos: usize = 0;
    let ghost mut k: nat = 0;
    assert(frames.take(0) =~= Seq::<Seq<u8>>::empty());
    assert(zero_frame_buffers(0) =~= Seq::<Seq<i16>>::empty());
    assert(all.take(0) + adts_frames_from(s, 0) =~= all);
    loop
        invariant
            s == bytes@,
            n == s.len(),
            pos <= n,
            all == adts_frames_from(s, 0),
            frames == adts_frame_bytes(s),
            cfg == server_aac_config(),
            aac_config_accepted(cfg),
            k <= all.len(),
            all == all.take(k as int) + adts_frames_from(s, pos as nat),
            adts_malformed_from(s, 0) == adts_malformed_from(s, pos as nat),
            decoder.config@ == Some(cfg),
            decoder.filled@ == frames.take(k as int),
            decoder.buffers@ == zero_frame_buffers(k),
            all_fills_accepted(cfg, frames.take(k as int)),
            pcm@ == decoded_mono(cfg, frames.take(k as int)),
        decreases n - pos,
    {
        match next_adts_frame(bytes, pos) {
            AdtsStep::End => {
                assert(adts_frames_from(s, pos as nat).len() == 0);
                assert(all.take(k as int) =~= all);
                assert(frames.take(k as int) =~= frames);
                return Ok(pcm);
            },
            AdtsStep::Malformed => {
                assert(adts_frames_from(s, pos as nat).len() == 0);
                assert(all.take(k as int) =~= all);
                assert(frames.take(k as int) =~= frames);
                return Err(AacError::MalformedHeader);
            },
            AdtsStep::Frame { length } => {
                proof {
                    let len = adts_length(s[pos as int + 3], s[pos as int + 4], s[pos as int + 5]);
                    assert(len < 8192);
                    lemma_frames_split(s, pos as nat, length as nat);
                    assert(all[k as int] == (pos as nat, length as nat)) by {
                        assert((all.take(k as int) + adts_frames_from(s, pos as nat))[k as int]
                            == adts_frames_from(s, pos as nat)[0]);
                    }
                    assert(all.take(k as int + 1) + adts_frames_from(s, (pos + length) as nat) =~= all)
                        by {
                        assert(adts_frames_from(s, pos as nat) =~= seq![(pos as nat, length as nat)]
                            + adts_frames_from(s, (pos + length) as nat));
                    }
                }
                let mut aac_frame: Vec<u8> = Vec::new();
                let mut j: usize = 0;
                while j < length
                    invariant
                        n == bytes@.len(),
                        pos + length <= n,
                        j <= length,
                        aac_frame@ == bytes@.subrange(pos as int, pos + j),
                    decreases length - j,
                {
                    aac_frame.push(bytes[pos + j]);
                    j = j + 1;
                    assert(aac_frame@ =~= bytes@.subrange(pos as int, pos + j));
                }
                let ghost next = frames.take(k as int + 1);
                proof {
                    assert(frames[k as int] == aac_frame@);
                    assert(next =~= frames.take(k as int).push(aac_frame@));
                }
                match decoder.fill(aac_frame.as_slice()) {
                    Err(_) => {
                        assert(!all_fills_accepted(cfg, frames)) by {
                            let i = k as int + 1;
                            assert(frames.take(i) == next);
                            assert(zero_frame_buffers((i - 1) as nat) == zero_frame_buffers(k));
                            assert(!aac_fill_accepted(cfg, frames.take(i), zero_frame_buffers((i - 1) as nat)));
                        }
                        return Err(AacError::FillRejected);
                    },
                    Ok(_) => {},
                }
                let mut pcm_frame: Vec<i16> = vec![0i16; AAC_FRAME_SAMPLES];
                assert(pcm_frame@ =~= zero_frame_buffer());
                let not_enough_bits = decoder.decode_frame(&mut pcm_frame);
                proof {
                    assert(decoder.buffers@ =~= zero_frame_buffers(k + 1));
                    assert(next.drop_last() =~= frames.take(k as int));
                    assert forall|i: int| 0 < i <= next.len() implies #[trigger] aac_fill_accepted(
                        cfg,
                        next.take(i),
                        zero_frame_buffers((i - 1) as nat),
                    ) by {
                        if i <= k {
                            assert(next.take(i) =~= frames.take(k as int).take(i));
                        } else {
                            assert(next.take(i) =~= next);
                        }
                    }
                }
                if !not_enough_bits {
                    let mut mono = first_channel(pcm_frame.as_slice(), 2);
                    pcm.append(&mut mono);
                }
                proof {
                    k = k + 1;
                }
                pos = pos + length;
            },
        }
    }
}

} // verus!
