//! Timestamped Markdown sidecars for local video: the timeline model, the
//! export formats, the private media protocol and the watch-together session.

pub mod address;
pub mod analysis;
pub mod arguments;
pub mod big;
pub mod chapters;
pub mod chunk;
pub mod clips;
pub mod clock;
pub mod digits;
pub mod encoding;
pub mod entries;
pub mod exchange;
pub mod export;
pub mod fingerprint;
pub mod gemini;
pub mod ids;
pub mod imports;
pub mod jobs;
pub mod joining;
pub mod json;
pub mod laws;
pub mod listing;
pub mod markdown;
pub mod marks;
pub mod media;
pub mod mix;
pub mod names;
pub mod number;
pub mod paths;
pub mod people;
pub mod probe;
pub mod protocol;
pub mod providers;
pub mod ranges;
pub mod relay;
pub mod roundtrip;
pub mod selection;
pub mod serving;
pub mod session;
pub mod sharing;
pub mod sidecar;
pub mod single;
pub mod sound;
pub mod sources;
pub mod speech;
pub mod summaries;
pub mod table;
pub mod text;
pub mod timeline;
pub mod transcript;
pub mod waveform;
pub mod wording;
