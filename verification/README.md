# ltc_timecode

Linear timecode (LTC) and the conversion of the recordings that carry it.

- `src/` is the library, verified with Verus. It encodes timecode words, decodes
  them from audio, finds recordings in folders, plans the outputs of a conversion,
  builds the command lines for ffmpeg and decides what follows from how they ended,
  and holds the engine behind the user interface.
- `app/` surrounds the library with files, processes, threads, sound and stored
  settings. It is ordinary Rust.
- `tests/` runs the library.

## How the library is laid out

| modules | what they hold |
|---------|----------------|
| `text`, `paths`, `json`, `regexes` | texts, paths and what outside crates read from texts |
| `timecode`, `timecode_meta`, `steppers` | timecodes, frame rates and counting |
| `ltc_encoder`, `ltc_frames`, `ltc_signal`, `ltc_decoder`, `ltc_chunks`, `ltc_decoder_libltc`, `wav` | from timecodes to signals and back |
| `recording`, `square_signal`, `round_trip` | what is decoded from a recording is what was put into it |
| `capabilities`, `hw_device`, `video_codecs`, `formats` | what ffmpeg can do, and what is chosen from it |
| `settings`, `unique_names`, `channel_map`, `outputs`, `planner`, `sanity`, `readiness` | what is to be converted, and into which files |
| `ffprobe`, `keyframes`, `copy_mode`, `ffmpeg_args`, `progress`, `fallback`, `conversion` | running a conversion, step by step |
| `scan`, `file_pattern`, `duration` | recordings in folders |
| `command`, `state`, `messages`, `turns`, `engine`, `engine_decode`, `engine_commands`, `config`, `log_buffer` | the engine |

## Numbers

The library holds no floating-point numbers. Samples are fixed-point numbers with 48
fractional bits, positions between samples have 32, frame rates are fractions, times are
nanoseconds, progress is counted in millionths. Volumes and other settings that only pass
through are carried as the bits of an `f32`.

## Work outside

Where a decision needs something from outside, the library hands out what is to be done
and takes back how it ended: `Conversion` hands out command lines and takes their
outcomes, `Engine` answers every command and event with a `Turn`, `Scan` asks for the
entries of one folder after another.
