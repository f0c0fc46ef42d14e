# asr_server

A speech recognition HTTP service. The library in `src/` holds the parts of it that are
specified and proved with Verus:

- `record`: the query log (count of served queries, the last ten kept oldest first) and its
  status report;
- `audio`: the choice of decoder from an upload's content type, ADTS framing, and reduction of
  interleaved samples to their first channel;
- `aac`: decoding an ADTS stream with fdk-aac, the decoder's answers named per configuration and
  frames filled;
- `codecs`: WAV samples through hound, the Opus packets of a WebM file through webm_iterable,
  and the first channel of the frames minimp3 decodes from an MP3 file;
- `asr`: the answer to an unsupported upload and the text that a recognition reports;
- `text`: decimal rendering used by the report and the start-time stamp.

`app/` is the server itself: actix-web routing and multipart upload, the Opus decoder,
floating-point scaling and resampling, the Whisper model and OpenCC conversion.
