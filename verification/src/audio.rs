//! What the recognition request does with the uploaded audio before the model sees it: which
//! decoder its content type selects, how an ADTS stream is cut into AAC frames, and how
//! interleaved samples are reduced to one channel.
use vstd::prelude::*;

verus! {

broadcast use vstd::string::group_string_axioms;

/// The audio encodings that the recognition endpoint accepts.
#[derive(Debug, Clone, Copy, PartialEq, Eq, Structural)]
pub enum AudioFormat {
    /// `audio/webm;codecs=opus`
    WebmOpus,
    /// `audio/wav;codecs=pcm`
    WavPcm,
    /// `audio/mp3;codecs=mp3`
    Mp3,
    /// `audio/aac;codecs=aac`
    AdtsAac,
}

/// The format that a content type names, if the endpoint accepts it: an exact, case-sensitive
/// match on the whole string.
pub open spec fn format_of_content_type(ct: Seq<char>) -> Option<AudioFormat> {
    if ct == "audio/webm;codecs=opus"@ {
        Some(AudioFormat::WebmOpus)
    } else if ct == "audio/wav;codecs=pcm"@ {
        Some(AudioFormat::WavPcm)
    } else if ct == "audio/mp3;codecs=mp3"@ {
        Some(AudioFormat::Mp3)
    } else if ct == "audio/aac;codecs=aac"@ {
        Some(AudioFormat::AdtsAac)
    } else {
        None
    }
}

/// A content type selects a format exactly when it is, character for character, the name of that
/// format; every other content type selects none.
pub proof fn lemma_content_type_exact(ct: Seq<char>)
    ensures
        format_of_content_type(ct) == Some(AudioFormat::WebmOpus) <==> ct == "audio/webm;codecs=opus"@,
        format_of_content_type(ct) == Some(AudioFormat::WavPcm) <==> ct == "audio/wav;codecs=pcm"@,
        format_of_content_type(ct) == Some(AudioFormat::Mp3) <==> ct == "audio/mp3;codecs=mp3"@,
        format_of_content_type(ct) == Some(AudioFormat::AdtsAac) <==> ct == "audio/aac;codecs=aac"@,
        format_of_content_type(ct) is None <==> (ct != "audio/webm;codecs=opus"@ && ct
            != "audio/wav;codecs=pcm"@ && ct != "audio/mp3;codecs=mp3"@ && ct
            != "audio/aac;codecs=aac"@),
{
    reveal_strlit("audio/webm;codecs=opus");
    reveal_strlit("audio/wav;codecs=pcm");
    reveal_strlit("audio/mp3;codecs=mp3");
    reveal_strlit("audio/aac;codecs=aac");
    let webm = "audio/webm;codecs=opus"@;
    let wav = "audio/wav;codecs=pcm"@;
    let mp3 = "audio/mp3;codecs=mp3"@;
    let aac = "audio/aac;codecs=aac"@;
    assert(webm[7] != wav[7] && webm[6] != mp3[6] && webm[6] != aac[6]);
    assert(wav[6] != mp3[6] && wav[6] != aac[6]);
    assert(mp3[6] != aac[6]);
}

/// The content type that counts for a multipart upload: that of the last part that has one.
pub open spec fn last_content_type(parts: Seq<Option<String>>) -> Option<Seq<char>>
    decreases parts.len(),
{
    if parts.len() == 0 {
        None
    } else {
        match parts.last() {
            Some(ct) => Some(ct@),
            None => last_content_type(parts.drop_last()),
        }
    }
}

/// The content type that counts is that of a part that declares one, with no part after it
/// declaring one; there is none only when no part declares one.
pub proof fn lemma_last_declared_content_type(parts: Seq<Option<String>>)
    ensures
        last_content_type(parts) is None <==> forall|i: int|
            0 <= i < parts.len() ==> #[trigger] parts[i] is None,
        last_content_type(parts) matches Some(c) ==> exists|j: int|
            0 <= j < parts.len() && (#[trigger] parts[j] matches Some(x) && x@ == c) && forall|i: int|
                j < i < parts.len() ==> #[trigger] parts[i] is None,
    decreases parts.len(),
{
    if parts.len() > 0 {
        let prev = parts.drop_last();
        lemma_last_declared_content_type(prev);
        let j = parts.len() - 1;
        match parts.last() {
            Some(x) => {
                assert(parts[j] matches Some(y) && y@ == x@);
            },
            None => {
                assert forall|i: int| 0 <= i < prev.len() implies #[trigger] prev[i] == parts[i] by {}
                if last_content_type(prev) is None {
                    assert forall|i: int| 0 <= i < parts.len() implies #[trigger] parts[i] is None by {
                        if i < prev.len() {
                            assert(prev[i] == parts[i]);
                        }
                    }
                } else {
                    let c = last_content_type(prev)->0;
                    let k = choose|k: int|
                        0 <= k < prev.len() && (#[trigger] prev[k] matches Some(x) && x@ == c)
                            && forall|i: int| k < i < prev.len() ==> #[trigger] prev[i] is None;
                    assert(parts[k] == prev[k]);
                    assert forall|i: int| k < i < parts.len() implies #[trigger] parts[i] is None by {
                        if i < prev.len() {
                            assert(prev[i] == parts[i]);
                        }
                    }
                    assert(prev[k] is Some);
                    assert(!(forall|i: int| 0 <= i < parts.len() ==> #[trigger] parts[i] is None));
                }
            },
        }
    }
}

/// The content type of a multipart upload, given the content type of each part in order: the
/// last one that a part declares, or none.
pub fn upload_content_type(parts: &Vec<Option<String>>) -> (ct: Option<String>)
    ensures
        match ct {
            Some(c) => last_content_type(parts@) == Some(c@),
            None => last_content_type(parts@) is None,
        },
{
    let mut found: Option<String> = None;
    let mut i: usize = 0;
    while i < parts.len()
        invariant
            i <= parts@.len(),
            match found {
                Some(c) => last_content_type(parts@.take(i as int)) == Some(c@),
                None => last_content_type(parts@.take(i as int)) is None,
            },
        decreases parts.len() - i,
    {
        assert(parts@.take(i + 1).drop_last() =~= parts@.take(i as int));
        match &parts[i] {
            Some(c) => {
                found = Some(c.clone());
            },
            None => {},
        }
        i = i + 1;
    }
    assert(parts@.take(parts@.len() as int) =~= parts@);
    found
}

/// The format that `content_type` selects, or `None` where the endpoint answers that the
/// format is unsupported (no content type, or one it does not know).
pub fn audio_format(content_type: &Option<String>) -> (f: Option<AudioFormat>)
    ensures
        f == match content_type {
            Some(ct) => format_of_content_type(ct@),
            None => None,
        },
{
    match content_type {
        None => None,
        Some(ct) => {
            let webm = "audio/webm;codecs=opus".to_string();
            let wav = "audio/wav;codecs=pcm".to_string();
            let mp3 = "audio/mp3;codecs=mp3".to_string();
            let aac = "audio/aac;codecs=aac".to_string();
            if *ct == webm {
                Some(AudioFormat::WebmOpus)
            } else if *ct == wav {
                Some(AudioFormat::WavPcm)
            } else if *ct == mp3 {
                Some(AudioFormat::Mp3)
            } else if *ct == aac {
                Some(AudioFormat::AdtsAac)
            } else {
                None
            }
        },
    }
}

/// The first channel of interleaved samples: one sample out of every `channels`, starting with
/// the first; a short last group still gives its first sample.
pub open spec fn first_channel_of(samples: Seq<i16>, channels: nat) -> Seq<i16>
    recommends
        channels > 0,
{
    Seq::new(
        ((samples.len() + channels - 1) / channels as int) as nat,
        |i: int| samples[i * channels],
    )
}

/// The number of groups of `c` that `n` samples make, a short last group counted.
pub open spec fn group_count(n: int, c: int) -> int {
    n / c + if n % c != 0 { 1int } else { 0int }
}

proof fn lemma_group_count(n: int, c: int, k: int)
    requires
        n >= 0,
        c > 0,
        0 <= k,
    ensures
        group_count(n, c) == (n + c - 1) / c,
        group_count(n, c) <= n,
        group_count(n, c) * c >= n,
        k < group_count(n, c) ==> k * c < n,
{
    let q = n / c;
    let r = n % c;
    assert(n == q * c + r && 0 <= r < c) by (nonlinear_arith)
        requires
            c > 0,
            q == n / c,
            r == n % c,
    ;
    assert((n + c - 1) / c == group_count(n, c)) by (nonlinear_arith)
        requires
            c > 0,
            n == q * c + r,
            0 <= r < c,
            q == n / c,
            r == n % c,
            group_count(n, c) == q + if r != 0 { 1int } else { 0int },
    {
        if r == 0 {
            assert(n + c - 1 == q * c + (c - 1));
        } else {
            assert(n + c - 1 == (q + 1) * c + (r - 1));
        }
    };
    assert(q + (if r != 0 { 1int } else { 0int }) <= n) by (nonlinear_arith)
        requires
            c > 0,
            n == q * c + r,
            0 <= r < c,
            q >= 0,
    {
        assert(q <= q * c);
    };
    assert(group_count(n, c) * c >= n) by (nonlinear_arith)
        requires
            c > 0,
            n == q * c + r,
            0 <= r < c,
            group_count(n, c) == q + if r != 0 { 1int } else { 0int },
    {
        if r != 0 {
            assert((q + 1) * c == q * c + c);
        }
    };
    assert(k < q + (if r != 0 { 1int } else { 0int }) ==> k * c < n) by (nonlinear_arith)
        requires
            c > 0,
            n == q * c + r,
            0 <= r < c,
            0 <= k,
    {
        if k >= q + (if r != 0 { 1int } else { 0int }) {
        } else if r == 0 {
            assert(k <= q - 1);
            assert(k * c <= (q - 1) * c);
        } else {
            assert(k <= q);
            assert(k * c <= q * c);
        }
    };
}

/// The first channel of `samples` with `channels` channels is one sample out of every
/// `channels`: its `k`-th sample is the input's sample at `k * channels`, and it has as many
/// samples as it takes to cover the input, the last group counted though it be short.
pub proof fn lemma_first_channel_picks(samples: Seq<i16>, channels: nat)
    requires
        channels > 0,
    ensures
        first_channel_of(samples, channels).len() * channels >= samples.len(),
        forall|k: int|
            0 <= k < first_channel_of(samples, channels).len() ==> {
                &&& #[trigger] first_channel_of(samples, channels)[k] == samples[k * channels]
                &&& k * channels < samples.len()
            },
{
    let n = samples.len() as int;
    let c = channels as int;
    lemma_group_count(n, c, 0);
    assert(first_channel_of(samples, channels).len() == group_count(n, c));
    assert forall|k: int| 0 <= k < first_channel_of(samples, channels).len() implies {
        &&& #[trigger] first_channel_of(samples, channels)[k] == samples[k * channels]
        &&& k * channels < samples.len()
    } by {
        lemma_group_count_index(n, c, k);
    }
}

proof fn lemma_group_count_index(n: int, c: int, k: int)
    requires
        n >= 0,
        c > 0,
        0 <= k < group_count(n, c),
    ensures
        k * c < n,
{
    lemma_group_count(n, c, k);
}

/// Keeps the first channel of interleaved `samples` that carry `channels` channels.
pub fn first_channel(samples: &[i16], channels: usize) -> (mono: Vec<i16>)
    requires
        channels > 0,
    ensures
        mono@ == first_channel_of(samples@, channels as nat),
{
    let n = samples.len();
    proof {
        lemma_group_count(n as int, channels as int, 0);
    }
    let q = n / channels;
    let count = if n % channels != 0 { q + 1 } else { q };
    let mut mono: Vec<i16> = Vec::new();
    let mut pos: usize = 0;
    let mut k: usize = 0;
    while k < count
        invariant
            n == samples@.len(),
            channels > 0,
            count == group_count(n as int, channels as int),
            k <= count,
            k == mono@.len(),
            k < count ==> pos == k * channels,
            forall|j: int| 0 <= j < k ==> #[trigger] mono@[j] == samples@[j * channels],
        decreases count - k,
    {
        proof {
            lemma_group_count(n as int, channels as int, k as int);
        }
        mono.push(samples[pos]);
        if k + 1 < count {
            proof {
                lemma_group_count(n as int, channels as int, (k + 1) as int);
                assert((k + 1) * channels == k * channels + channels) by (nonlinear_arith);
            }
            pos = pos + channels;
        }
        k = k + 1;
    }
    assert(mono@ =~= first_channel_of(samples@, channels as nat));
    mono
}

/// The length field of an ADTS header, computed from its bytes 3, 4 and 5 as this server reads
/// it: the two low bits of byte 3, then byte 4 shifted left by three inside its own eight bits
/// (so its three high bits are lost), then the three high bits of byte 5.
pub open spec fn adts_length(b3: u8, b4: u8, b5: u8) -> nat {
    ((b3 % 4) * 2048 + (b4 * 8) % 256 + b5 / 32) as nat
}

/// The length read from a header is made of its bits: the two low bits of byte 3 as bits 11 and
/// 12, the five low bits of byte 4 as bits 3 to 7 (its three high bits fall out when the byte is
/// shifted inside itself), and the three high bits of byte 5 as bits 0 to 2.
pub proof fn lemma_adts_length_bits(b3: u8, b4: u8, b5: u8)
    ensures
        adts_length(b3, b4, b5) == (b3 & 3) as int * 2048 + (b4 & 31) as int * 8 + (b5 >> 5) as int,
        adts_length(b3, b4, b5) < 8192,
{
    assert(b3 & 3 == b3 % 4) by (bit_vector);
    assert(b4 & 31 == b4 % 32) by (bit_vector);
    assert(b5 >> 5 == b5 / 32) by (bit_vector);
}

/// Reads the frame length out of an ADTS header's bytes 3, 4 and 5.
pub fn adts_frame_length(b3: u8, b4: u8, b5: u8) -> (len: usize)
    ensures
        len == adts_length(b3, b4, b5),
        len < 8192,
{
    let len = (((b3 & 0x3) as usize) << 11) | ((b4 << 3) as usize) | (((b5 & 0xE0) as usize) >> 5);
    assert(len == ((b3 % 4) * 2048 + (b4 * 8) % 256 + b5 / 32)) by (bit_vector)
        requires
            len == (((b3 & 0x3) as usize) << 11) | ((b4 << 3) as usize) | (((b5 & 0xE0) as usize)
                >> 5),
    ;
    len
}

/// What the reader finds at an offset of an ADTS stream.
#[derive(Debug, Clone, Copy, PartialEq, Eq, Structural)]
pub enum AdtsStep {
    /// Fewer than seven bytes are left for a header, or the frame that the header announces
    /// runs past the end: reading stops here.
    End,
    /// A whole frame of `length` bytes, header included, starts here.
    Frame { length: usize },
    /// The header announces a frame shorter than its own seven bytes.
    Malformed,
}

/// The step that the ADTS reader takes at offset `pos` of `s`.
pub open spec fn adts_step(s: Seq<u8>, pos: nat) -> AdtsStep {
    if pos + 7 > s.len() {
        AdtsStep::End
    } else {
        let len = adts_length(s[pos as int + 3], s[pos as int + 4], s[pos as int + 5]);
        if len < 7 {
            AdtsStep::Malformed
        } else if pos + len > s.len() {
            AdtsStep::End
        } else {
            AdtsStep::Frame { length: len as usize }
        }
    }
}

/// The frames, as (offset, length), that the reader finds from offset `pos` of `s` on, up to
/// the end of the stream or the first malformed header.
pub open spec fn adts_frames_from(s: Seq<u8>, pos: nat) -> Seq<(nat, nat)>
    decreases s.len() - pos,
{
    match adts_step(s, pos) {
        AdtsStep::Frame { length } => if length > 0 && pos + length <= s.len() {
            seq![(pos, length as nat)] + adts_frames_from(s, pos + length as nat)
        } else {
            Seq::empty()
        },
        _ => Seq::empty(),
    }
}

/// Whether reading from offset `pos` of `s` on runs into a header that announces a frame
/// shorter than seven bytes.
pub open spec fn adts_malformed_from(s: Seq<u8>, pos: nat) -> bool
    decreases s.len() - pos,
{
    match adts_step(s, pos) {
        AdtsStep::Frame { length } => if length > 0 && pos + length <= s.len() {
            adts_malformed_from(s, pos + length as nat)
        } else {
            false
        },
        AdtsStep::Malformed => true,
        AdtsStep::End => false,
    }
}

/// Looks at offset `pos` of an ADTS stream.
pub fn next_adts_frame(bytes: &[u8], pos: usize) -> (step: AdtsStep)
    requires
        pos <= bytes@.len(),
    ensures
        step == adts_step(bytes@, pos as nat),
{
    if bytes.len() - pos < 7 {
        return AdtsStep::End;
    }
    let len = adts_frame_length(bytes[pos + 3], bytes[pos + 4], bytes[pos + 5]);
    if len < 7 {
        AdtsStep::Malformed
    } else if bytes.len() - pos < len {
        AdtsStep::End
    } else {
        AdtsStep::Frame { length: len }
    }
}

/// The frames that the reader finds from `pos` on follow each other without gap: the first
/// starts at `pos`, each starts where the one before it ends, each is at least seven bytes long
/// and lies inside the stream, and its length is the one its header announces.
pub proof fn lemma_adts_frames_tile(s: Seq<u8>, pos: nat)
    ensures
        ({
            let f = adts_frames_from(s, pos);
            &&& f.len() > 0 ==> f[0].0 == pos
            &&& forall|i: int|
                0 <= i < f.len() ==> {
                    &&& #[trigger] f[i].1 >= 7
                    &&& f[i].0 + f[i].1 <= s.len()
                    &&& f[i].1 == adts_length(s[f[i].0 as int + 3], s[f[i].0 as int + 4], s[f[i].0 as int + 5])
                }
            &&& forall|i: int| 0 <= i < f.len() - 1 ==> #[trigger] f[i + 1].0 == f[i].0 + f[i].1
        }),
    decreases s.len() - pos,
{
    match adts_step(s, pos) {
        AdtsStep::Frame { length } => {
            if length > 0 && pos + length <= s.len() {
                let next = (pos + length) as nat;
                lemma_adts_frames_tile(s, next);
                let f = adts_frames_from(s, pos);
                let rest = adts_frames_from(s, next);
                assert(rest.len() > 0 ==> rest[0].0 == next);
                assert(f == seq![(pos, length as nat)] + rest);
                assert forall|i: int| 0 <= i < f.len() - 1 implies #[trigger] f[i + 1].0 == f[i].0
                    + f[i].1 by {
                    if i == 0 {
                        if rest.len() > 0 {
                            assert(f[1] == rest[0]);
                        }
                    } else {
                        assert(f[i] == rest[i - 1]);
                        assert(f[i + 1] == rest[i]);
                        let j = i - 1;
                        assert(rest[j + 1].0 == rest[j].0 + rest[j].1);
                    }
                }
                assert forall|i: int| 0 <= i < f.len() implies {
                    &&& #[trigger] f[i].1 >= 7
                    &&& f[i].0 + f[i].1 <= s.len()
                    &&& f[i].1 == adts_length(s[f[i].0 as int + 3], s[f[i].0 as int + 4], s[f[i].0 as int + 5])
                } by {
                    if i > 0 {
                        assert(f[i] == rest[i - 1]);
                    }
                }
            }
        },
        _ => {},
    }
}

} // verus!
