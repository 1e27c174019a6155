//! Joining, synchronising and mastering the recordings of clip-on recorders.

pub mod text;
pub mod bytes;
pub mod wav;
pub mod calendar;
pub mod names;
pub mod order;
pub mod paths;
pub mod scan;
pub mod joins;
pub mod group;
pub mod recording;
pub mod survey;
pub mod track;
pub mod pairing;
pub mod phases;
pub mod alignment;
pub mod sums;
pub mod plan;
pub mod dropouts;
pub mod coverage;
pub mod items;
pub mod render;
pub mod exact;
pub mod lane;
pub mod compare;
pub mod outcome;
pub mod limiter;
pub mod loudness;
pub mod audio;
pub mod describe;
pub mod master;
pub mod lame;
pub mod meter;
pub mod engine;
pub mod reader;
pub mod requests;
pub mod checks;
pub mod batch;
pub mod results;
pub mod windows;
pub mod merge;
pub mod sources;
pub mod plans;
