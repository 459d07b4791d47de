//! Object and channel audio folded down to binaural stereo: the stream
//! parsers, metadata decoders, selection rules, container plans and scheduling
//! behind an offline renderer.

pub mod binaural;
pub mod bits;
pub mod cancel;
pub mod cli;
pub mod continuous;
pub mod dictionary;
pub mod dsp;
pub mod eac3;
pub mod eac3_render;
pub mod error;
pub mod finishing;
pub mod hrir;
pub mod isf;
pub mod joc;
pub mod media;
pub mod mux;
pub mod oamd;
pub mod object;
pub mod object_render;
pub mod parametric;
pub mod paths;
pub mod preservation;
pub mod process;
pub mod progress;
pub mod qmf;
pub mod render;
pub mod room;
pub mod selection;
pub mod session;
pub mod spatial;
pub mod speaker;
pub mod text;
pub mod truehd_adapter;
pub mod upmix;
pub mod workspace;
