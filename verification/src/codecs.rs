//! Reading the samples or packets out of the other uploads: WAV through hound, the Opus packets
//! of a WebM file through webm_iterable, and the first channel of decoded MP3 frames.
use vstd::prelude::*;

use crate::audio::{first_channel, first_channel_of, lemma_first_channel_picks};
use webm_iterable::matroska_spec::{Master, MatroskaSpec};

verus! {

/// The 16-bit samples, all channels interleaved, that hound reads from the WAV file `bytes`
/// (`WavReader::new`, then every sample as `i16`); `None` where the header or a sample cannot be
/// read that way.
pub uninterp spec fn wav_i16_samples(bytes: Seq<u8>) -> Option<Seq<i16>>;

/// `hound::WavReader::new` over `bytes`, then its `samples::<i16>()` collected; `None` on the
/// first error of either. The result is named by `wav_i16_samples`: the reader works on the bytes
/// in memory, so it depends on them alone.
#[verifier::external_body]
fn read_wav_i16(bytes: &[u8]) -> (r: Option<Vec<i16>>)
    ensures
        match r {
            Some(v) => wav_i16_samples(bytes@) == Some(v@),
            None => wav_i16_samples(bytes@) is None,
        },
{
    match hound::WavReader::new(bytes) {
        Ok(mut reader) => reader.samples::<i16>().collect::<Result<Vec<i16>, hound::Error>>().ok(),
        Err(_) => None,
    }
}

/// The 16-bit samples of a WAV upload, or `None` where it cannot be read.
pub fn wav_samples(bytes: &[u8]) -> (r: Option<Vec<i16>>)
    ensures
        match r {
            Some(v) => wav_i16_samples(bytes@) == Some(v@),
            None => wav_i16_samples(bytes@) is None,
        },
{
    read_wav_i16(bytes)
}

/// The tags that webm_iterable reads from the WebM file `bytes` (with `TrackEntry` read whole),
/// in order, each given as the data of a `SimpleBlock` or as `None` for any other tag; `None`
/// where a tag cannot be read.
pub uninterp spec fn webm_tags(bytes: Seq<u8>) -> Option<Seq<Option<Seq<u8>>>>;

/// `webm_iterable::WebmIterator::new(bytes, &[MatroskaSpec::TrackEntry(Master::Start)])`, every
/// tag taken in order, a `SimpleBlock` as its data and any other tag as `None`; `None` at the
/// first tag that cannot be read. The result is named by `webm_tags`: the iterator reads the
/// bytes in memory, so it depends on them alone.
#[verifier::external_body]
fn read_webm_tags(bytes: &[u8]) -> (r: Option<Vec<Option<Vec<u8>>>>)
    ensures
        match r {
            Some(v) => webm_tags(bytes@) == Some(v.deep_view()),
            None => webm_tags(bytes@) is None,
        },
{
    webm_iterable::WebmIterator::new(bytes, &[MatroskaSpec::TrackEntry(Master::Start)])
        .map(|tag| tag.map(|t| match t {
            MatroskaSpec::SimpleBlock(data) => Some(data),
            _ => None,
        }))
        .collect::<Result<Vec<Option<Vec<u8>>>, _>>()
        .ok()
}

/// The width of an EBML variable-size integer whose first byte is `b` (`b > 0`): one more than
/// the number of leading zero bits of `b`.
pub open spec fn vint_width(b: u8) -> nat {
    if b >= 128 {
        1
    } else if b >= 64 {
        2
    } else if b >= 32 {
        3
    } else if b >= 16 {
        4
    } else if b >= 8 {
        5
    } else if b >= 4 {
        6
    } else if b >= 2 {
        7
    } else {
        8
    }
}

/// Whether the track number of the block `d` can be read: `d` starts with a non-zero byte and
/// holds the whole variable-size integer it begins.
pub open spec fn block_track_readable(d: Seq<u8>) -> bool {
    d.len() > 0 && d[0] != 0 && vint_width(d[0]) <= d.len()
}

/// Whether the block `d` is long enough for webm_iterable to read it without a slice running
/// past its end: when its track number can be read, the timestamp and flags follow it.
pub open spec fn block_fits(d: Seq<u8>) -> bool {
    block_track_readable(d) ==> d.len() >= vint_width(d[0]) + 3
}

/// The frame data of a `SimpleBlock` whose data is `d`: what follows the track number, the two
/// timestamp bytes and the flags byte; `None` where the track number cannot be read.
pub open spec fn simple_block_payload(d: Seq<u8>) -> Option<Seq<u8>> {
    if block_track_readable(d) {
        Some(d.subrange(vint_width(d[0]) as int + 3, d.len() as int))
    } else {
        None
    }
}

/// `SimpleBlock::try_from` on the block data, then `raw_frame_data`: per the source of
/// webm_iterable and ebml_iterable's `read_vint`, the bytes after the track number, timestamp and
/// flags, or `None` where the track number cannot be read. A block too short for its timestamp
/// and flags makes `Block::try_from` index past its end, so such blocks are left out.
#[verifier::external_body]
fn simple_block_frame(data: &[u8]) -> (r: Option<Vec<u8>>)
    requires
        block_fits(data@),
    ensures
        match r {
            Some(v) => simple_block_payload(data@) == Some(v@),
            None => simple_block_payload(data@) is None,
        },
{
    webm_iterable::matroska_spec::SimpleBlock::try_from(data).ok().map(|b| b.raw_frame_data().to_vec())
}

/// Why the Opus packets of a WebM upload could not be read.
#[derive(Debug, Clone, Copy, PartialEq, Eq, Structural)]
pub enum WebmError {
    /// A tag of the file cannot be read.
    UnreadableTag,
    /// A `SimpleBlock` is too short for its timestamp and flags.
    ShortBlock,
    /// The track number of a `SimpleBlock` cannot be read.
    BadBlock,
}

/// The frame data of the `SimpleBlock`s among `tags`, in order, or the error of the first block
/// that cannot be read.
pub open spec fn webm_packets(tags: Seq<Option<Seq<u8>>>) -> Result<Seq<Seq<u8>>, WebmError>
    decreases tags.len(),
{
    if tags.len() == 0 {
        Ok(Seq::empty())
    } else {
        match webm_packets(tags.drop_last()) {
            Err(e) => Err(e),
            Ok(prev) => match tags.last() {
                None => Ok(prev),
                Some(d) => if !block_fits(d) {
                    Err(WebmError::ShortBlock)
                } else {
                    match simple_block_payload(d) {
                        None => Err(WebmError::BadBlock),
                        Some(p) => Ok(prev.push(p)),
                    }
                },
            },
        }
    }
}

/// A tag that is not a `SimpleBlock` adds no packet and no error, wherever it stands.
pub proof fn lemma_webm_other_tag_adds_nothing(tags: Seq<Option<Seq<u8>>>)
    ensures
        webm_packets(tags.push(None)) == webm_packets(tags),
{
    assert(tags.push(None).drop_last() =~= tags);
}

/// A readable `SimpleBlock` after tags that gave packets adds one packet at the end, whatever
/// tags came before it: the bytes after its track number, two timestamp bytes and flags byte.
pub proof fn lemma_webm_block_adds_its_payload(tags: Seq<Option<Seq<u8>>>, d: Seq<u8>)
    requires
        webm_packets(tags) is Ok,
        d.len() > 0,
        d[0] != 0,
        d.len() >= vint_width(d[0]) + 3,
    ensures
        webm_packets(tags.push(Some(d))) == Ok::<Seq<Seq<u8>>, WebmError>(
            webm_packets(tags)->Ok_0.push(d.subrange(vint_width(d[0]) as int + 3, d.len() as int)),
        ),
{
    assert(tags.push(Some(d)).drop_last() =~= tags);
}

/// After tags that gave packets, a block too short for its timestamp and flags is the error
/// `ShortBlock`, and a block whose track number cannot be read (it is empty, starts with a zero
/// byte, or ends inside its track number) is the error `BadBlock`.
pub proof fn lemma_webm_unreadable_block_errs(tags: Seq<Option<Seq<u8>>>, d: Seq<u8>)
    requires
        webm_packets(tags) is Ok,
    ensures
        (d.len() > 0 && d[0] != 0 && vint_width(d[0]) <= d.len() < vint_width(d[0]) + 3)
            ==> webm_packets(tags.push(Some(d))) == Err::<Seq<Seq<u8>>, WebmError>(
            WebmError::ShortBlock,
        ),
        (d.len() == 0 || d[0] == 0 || vint_width(d[0]) > d.len()) ==> webm_packets(
            tags.push(Some(d)),
        ) == Err::<Seq<Seq<u8>>, WebmError>(WebmError::BadBlock),
{
    assert(tags.push(Some(d)).drop_last() =~= tags);
}

/// The width of a variable-size integer is where its first set bit lies: a first byte `b > 0`
/// shifted left by one less than the width lands in `128..256`, and the width is 1 to 8.
pub proof fn lemma_vint_width_leading_bit(b: u8)
    requires
        b > 0,
    ensures
        1 <= vint_width(b) <= 8,
        128 <= b * pow2_of(vint_width(b) - 1) < 256,
{
    assert(pow2_of(0) == 1);
    assert(pow2_of(1) == 2);
    assert(pow2_of(2) == 4);
    assert(pow2_of(3) == 8);
    assert(pow2_of(4) == 16);
    assert(pow2_of(5) == 32);
    assert(pow2_of(6) == 64);
    assert(pow2_of(7) == 128);
}

/// `2` to the power `k`.
pub open spec fn pow2_of(k: int) -> int
    decreases k,
{
    if k <= 0 {
        1
    } else {
        2 * pow2_of(k - 1)
    }
}

/// The number of `SimpleBlock`s among `tags`.
pub open spec fn block_count(tags: Seq<Option<Seq<u8>>>) -> nat
    decreases tags.len(),
{
    if tags.len() == 0 {
        0
    } else {
        block_count(tags.drop_last()) + if tags.last() is Some {
            1nat
        } else {
            0nat
        }
    }
}

/// When the tags give packets, they give one for each `SimpleBlock`.
pub proof fn lemma_webm_one_packet_per_block(tags: Seq<Option<Seq<u8>>>)
    ensures
        webm_packets(tags) matches Ok(p) ==> p.len() == block_count(tags),
    decreases tags.len(),
{
    if tags.len() > 0 {
        lemma_webm_one_packet_per_block(tags.drop_last());
    }
}

/// Once a block cannot be read, the tags after it change nothing: the first error stands.
pub proof fn lemma_webm_error_stays(ts: Seq<Option<Seq<u8>>>, k: int)
    requires
        0 <= k <= ts.len(),
        webm_packets(ts.take(k)) is Err,
    ensures
        webm_packets(ts) == webm_packets(ts.take(k)),
    decreases ts.len(),
{
    if ts.len() == k {
        assert(ts.take(k) =~= ts);
    } else {
        let prev = ts.drop_last();
        assert(prev.take(k) =~= ts.take(k));
        lemma_webm_error_stays(prev, k);
    }
}

fn vint_width_of(b: u8) -> (w: usize)
    requires
        b > 0,
    ensures
        w == vint_width(b),
{
    if b >= 128 {
        1
    } else if b >= 64 {
        2
    } else if b >= 32 {
        3
    } else if b >= 16 {
        4
    } else if b >= 8 {
        5
    } else if b >= 4 {
        6
    } else if b >= 2 {
        7
    } else {
        8
    }
}

/// The Opus packets of a WebM upload: the frame data of its `SimpleBlock`s, in order.
pub fn webm_opus_packets(bytes: &[u8]) -> (r: Result<Vec<Vec<u8>>, WebmError>)
    ensures
        match webm_tags(bytes@) {
            None => r == Err::<Vec<Vec<u8>>, WebmError>(WebmError::UnreadableTag),
            Some(tags) => match r {
                Ok(v) => webm_packets(tags) == Ok::<Seq<Seq<u8>>, WebmError>(v.deep_view()),
                Err(e) => webm_packets(tags) == Err::<Seq<Seq<u8>>, WebmError>(e),
            },
        },
{
    let tags = match read_webm_tags(bytes) {
        None => {
            return Err(WebmError::UnreadableTag);
        },
        Some(t) => t,
    };
    let ghost ts = tags.deep_view();
    let mut packets: Vec<Vec<u8>> = Vec::new();
    let mut i: usize = 0;
    assert(ts.take(0) =~= Seq::<Option<Seq<u8>>>::empty());
    assert(packets.deep_view() =~= Seq::<Seq<u8>>::empty());
    while i < tags.len()
        invariant
            ts == tags.deep_view(),
            webm_tags(bytes@) == Some(ts),
            i <= tags@.len(),
            webm_packets(ts.take(i as int)) == Ok::<Seq<Seq<u8>>, WebmError>(packets.deep_view()),
        decreases tags.len() - i,
    {
        proof {
            assert(ts.take(i + 1).drop_last() =~= ts.take(i as int));
            assert(ts.take(i + 1).last() == ts[i as int]);
        }
        match &tags[i] {
            None => {},
            Some(data) => {
                assert(data.deep_view() =~= data@);
                assert(ts[i as int] == Some(data@));
                let fits = if data.len() == 0 || data[0] == 0 {
                    true
                } else {
                    let w = vint_width_of(data[0]);
                    w > data.len() || data.len() - w >= 3
                };
                assert(fits == block_fits(data@));
                if !fits {
                    proof {
                        assert(webm_packets(ts.take(i + 1)) == Err::<Seq<Seq<u8>>, WebmError>(
                            WebmError::ShortBlock,
                        ));
                        lemma_webm_error_stays(ts, i + 1);
                    }
                    return Err(WebmError::ShortBlock);
                }
                match simple_block_frame(data.as_slice()) {
                    None => {
                        proof {
                            assert(webm_packets(ts.take(i + 1)) == Err::<Seq<Seq<u8>>, WebmError>(
                                WebmError::BadBlock,
                            ));
                            lemma_webm_error_stays(ts, i + 1);
                        }
                        return Err(WebmError::BadBlock);
                    },
                    Some(p) => {
                        let ghost before = packets.deep_view();
                        assert(p.deep_view() =~= p@);
                        packets.push(p);
                        assert(packets.deep_view() =~= before.push(p@));
                    },
                }
            },
        }
        i = i + 1;
    }
    assert(ts.take(tags@.len() as int) =~= ts);
    Ok(packets)
}

#[verifier::external_type_specification]
#[verifier::external_body]
#[verifier::reject_recursive_types(R)]
pub struct ExMp3Decoder<R>(minimp3::Decoder<R>);

/// One frame that the MP3 decoder gave: interleaved samples and the number of channels.
pub struct Mp3Frame {
    pub samples: Vec<i16>,
    pub channels: usize,
}

/// What the `index`-th call of `next_frame` on a fresh minimp3 decoder reading `bytes` gives,
/// after `index` earlier calls that each gave a frame: the frame's samples and channel count, or
/// `None` where it answers with an error.
pub uninterp spec fn mp3_next_frame(bytes: Seq<u8>, index: nat) -> Option<(Seq<i16>, usize)>;

/// A minimp3 decoder reading `input`, with the number of frames asked of it so far; the count is
/// written only by the calls themselves.
struct Mp3Decoder<'a> {
    decoder: minimp3::Decoder<&'a [u8]>,
    input: Ghost<Seq<u8>>,
    calls: Ghost<nat>,
}

impl<'a> Mp3Decoder<'a> {
    /// `minimp3::Decoder::new` over `bytes`: a fresh decoder that was asked for nothing yet.
    #[verifier::external_body]
    fn open(bytes: &'a [u8]) -> (d: Mp3Decoder<'a>)
        ensures
            d.input@ == bytes@,
            d.calls@ == 0,
    {
        Mp3Decoder { decoder: minimp3::Decoder::new(bytes), input: Ghost(bytes@), calls: Ghost(0) }
    }

    /// `Decoder::next_frame`, after calls that each gave a frame: the call is counted, and what it
    /// gives is named by `mp3_next_frame`, an error as `None`. Per minimp3's source a frame it
    /// gives has one or two channels (`HDR_IS_MONO ? 1 : 2` in `mp3dec_decode_frame`), and each
    /// frame takes at least one byte of the input off its buffer, so no more frames come than the
    /// input has bytes.
    #[verifier::external_body]
    fn next_frame(&mut self) -> (r: Option<Mp3Frame>)
        requires
            forall|j: nat| j < old(self).calls@ ==> #[trigger] mp3_next_frame(old(self).input@, j) is Some,
        ensures
            final(self).calls@ == old(self).calls@ + 1,
            final(self).input == old(self).input,
            match r {
                None => mp3_next_frame(old(self).input@, old(self).calls@) is None,
                Some(f) => {
                    &&& mp3_next_frame(old(self).input@, old(self).calls@) == Some((f.samples@, f.channels))
                    &&& (f.channels == 1 || f.channels == 2)
                    &&& old(self).calls@ < old(self).input@.len()
                },
            },
    {
        match self.decoder.next_frame() {
            Ok(frame) => Some(Mp3Frame { samples: frame.data, channels: frame.channels }),
            Err(_) => None,
        }
    }
}

/// Whether the decoder reading `bytes` gives `n` frames and then an error.
pub open spec fn mp3_ends_after(bytes: Seq<u8>, n: nat) -> bool {
    &&& mp3_next_frame(bytes, n) is None
    &&& forall|j: nat| j < n ==> #[trigger] mp3_next_frame(bytes, j) is Some
}

/// The first channel of each of the first `n` frames that the decoder reading `bytes` gives,
/// frame after frame.
pub open spec fn mp3_mono_prefix(bytes: Seq<u8>, n: nat) -> Seq<i16>
    decreases n,
{
    if n == 0 {
        Seq::empty()
    } else {
        mp3_mono_prefix(bytes, (n - 1) as nat) + match mp3_next_frame(bytes, (n - 1) as nat) {
            Some(f) => first_channel_of(f.0, f.1 as nat),
            None => Seq::empty(),
        }
    }
}

/// No frame, no samples.
pub proof fn lemma_mp3_mono_prefix_empty(bytes: Seq<u8>)
    ensures
        mp3_mono_prefix(bytes, 0) == Seq::<i16>::empty(),
{
}

/// Each further frame adds to the samples of the frames before it exactly its first channel: for
/// a frame of `c` channels and interleaved samples `s`, samples whose `k`-th is `s[k * c]`, as many
/// as it takes to cover `s`.
pub proof fn lemma_mp3_frame_adds_first_channel(bytes: Seq<u8>, n: nat)
    ensures
        ({
            let prev = mp3_mono_prefix(bytes, n);
            let all = mp3_mono_prefix(bytes, n + 1);
            let added = all.subrange(prev.len() as int, all.len() as int);
            match mp3_next_frame(bytes, n) {
                None => all == prev,
                Some(f) => f.1 > 0 ==> {
                    &&& all.len() >= prev.len()
                    &&& all.subrange(0, prev.len() as int) == prev
                    &&& added.len() * f.1 >= f.0.len()
                    &&& forall|k: int|
                        0 <= k < added.len() ==> {
                            &&& #[trigger] added[k] == f.0[k * f.1]
                            &&& k * f.1 < f.0.len()
                        }
                },
            }
        }),
{
    let prev = mp3_mono_prefix(bytes, n);
    let all = mp3_mono_prefix(bytes, n + 1);
    assert(((n + 1) - 1) as nat == n);
    match mp3_next_frame(bytes, n) {
        None => {
            assert(all =~= prev);
        },
        Some(f) => {
            if f.1 > 0 {
                let fc = first_channel_of(f.0, f.1 as nat);
                lemma_first_channel_picks(f.0, f.1 as nat);
                assert(all == prev + fc);
                let added = all.subrange(prev.len() as int, all.len() as int);
                assert(added =~= fc);
                assert(all.subrange(0, prev.len() as int) =~= prev);
                assert forall|k: int| 0 <= k < added.len() implies {
                    &&& #[trigger] added[k] == f.0[k * f.1]
                    &&& k * f.1 < f.0.len()
                } by {
                    assert(added[k] == fc[k]);
                }
            }
        },
    }
}

/// The samples of an MP3 upload: minimp3 is asked for frames until it answers with an error, and
/// the first channel of each frame is kept, frame after frame.
pub fn mp3_samples(bytes: &[u8]) -> (r: Vec<i16>)
    ensures
        exists|n: nat| mp3_ends_after(bytes@, n) && r@ == mp3_mono_prefix(bytes@, n),
{
    let mut decoder = Mp3Decoder::open(bytes);
    let n = bytes.len();
    let mut pcm: Vec<i16> = Vec::new();
    let mut k: usize = 0;
    loop
        invariant
            n == bytes@.len(),
            decoder.input@ == bytes@,
            decoder.calls@ == k,
            k <= n,
            forall|j: nat| j < k ==> #[trigger] mp3_next_frame(bytes@, j) is Some,
            pcm@ == mp3_mono_prefix(bytes@, k as nat),
        decreases n - k,
    {
        match decoder.next_frame() {
            None => {
                assert(mp3_ends_after(bytes@, k as nat));
                return pcm;
            },
            Some(frame) => {
                let mut mono = first_channel(frame.samples.as_slice(), frame.channels);
                pcm.append(&mut mono);
                proof {
                    assert(mp3_next_frame(bytes@, k as nat) is Some);
                }
                k = k + 1;
                assert forall|j: nat| j < k implies #[trigger] mp3_next_frame(bytes@, j) is Some by {
                    if j == (k - 1) as nat {
                    }
                }
            },
        }
    }
}

} // verus!
