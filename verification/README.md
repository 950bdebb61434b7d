# framenote

FrameNote plays a video and keeps a timestamped Markdown timeline beside it.
This crate holds what FrameNote decides, written in Verus: every function states
in its contract what it returns, and Verus proves it.

## Layout

- `src/` is the library.
  - `text`, `digits`, `big`, `number`, `single`, `clock`, `names`, `table`,
    `json`, `encoding`, `address`, `paths` and `ids` are what the rest stands on.
    Times and levels are binary floating-point numbers; `number` and `single`
    hold them by their bits and compute with them exactly as the machine does.
  - `markdown`, `chapters`, `entries`, `transcript`, `sidecar` and `fingerprint`
    read and write the sidecar of a video.
  - `media`, `mix`, `probe`, `waveform` and `arguments` serve the player.
  - `export` and `jobs` cut clips.
  - `providers`, `gemini`, `analysis` and `chunk` ask a model about a piece of a
    video.
  - `session`, `protocol`, `joining` and `relay` let people watch together.
  - `laws`, `roundtrip`, `marks`, `summaries`, `ranges`, `listing`, `imports` and `sharing`
    prove what holds of several functions together: what is written is read back, what is
    added is found, what is deleted is gone, and what is not concerned stays.
- `tests/` runs the library on concrete values.
- `app/` is the application around the library: the window, files, processes,
  servers and network connections.

## What is trusted

Calls of other crates stand behind small functions marked
`#[verifier::external_body]`, whose doc comments say what is claimed of the
call: `url` reads and joins addresses, `serde_json` reads documents, `base64`
writes and reads bytes, and `uuid` draws identifiers. Of the standard library,
`String::push` is specified, and the upper and lower case of a text are named.
