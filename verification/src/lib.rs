//! Reads, rearranges, splits and writes MML scores.
pub mod adapt;
pub mod archive;
pub mod arranging;
pub mod ascii;
pub mod assemble;
pub mod attack_selection;
pub mod attacks;
pub mod audibility;
pub mod bag;
pub mod bars;
pub mod boundaries;
pub mod checked;
pub mod chords;
pub mod chunk;
pub mod clocks;
pub mod core_selection;
pub mod counted;
pub mod crowded;
pub mod cuts;
pub mod downloads;
pub mod encode;
pub mod ended;
pub mod exact;
pub mod favoured;
pub mod files;
pub mod fold;
pub mod folding;
pub mod followed;
pub mod frame;
pub mod game_mml;
pub mod gamed;
pub mod harmony;
pub mod heard;
pub mod homes;
pub mod import;
pub mod input;
pub mod instruments;
pub mod jobs;
pub mod led;
pub mod lengths;
pub mod lookback;
pub mod lossless;
pub mod loudness;
pub mod matching;
pub mod measures;
pub mod meta;
pub mod midi;
pub mod mmi;
pub mod mml;
pub mod mobile;
pub mod musical;
pub mod named;
pub mod network;
pub mod numerals;
pub mod onsets;
pub mod options;
pub mod order;
pub mod ordered;
pub mod packing;
pub mod piano;
pub mod placing;
pub mod playable;
pub mod playback;
pub mod polyphony;
pub mod prepare;
pub mod prepared;
pub mod quiet;
pub mod ratio;
pub mod reading;
pub mod reduce;
pub mod released;
pub mod report;
pub mod resolve;
pub mod roll;
pub mod roundtrip;
pub mod salience;
pub mod score;
pub mod scroll;
pub mod seating;
pub mod shapes;
pub mod shortest;
pub mod shown;
pub mod smf;
pub mod song;
pub mod spared;
pub mod spelling;
pub mod split;
pub mod stacked;
pub mod steady;
pub mod storage;
pub mod struck;
pub mod tally;
pub mod text;
pub mod timeline;
pub mod told;
pub mod verify;
pub mod voices;
pub mod voicing;
pub mod weighed;
pub mod workflow;
pub mod workspace;
pub mod writer;
pub mod written;

pub use meta::Meta;
pub use score::{Note, Score, Tempo, Tick, Track};
