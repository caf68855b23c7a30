//! Configuration model and process-reconciliation logic of a live-stream
//! re-streaming server.

pub mod api;
pub mod callback;
pub mod ffmpeg;
pub mod ids;
pub mod laws;
pub mod lookup;
pub mod restreamer;
pub mod state;
pub mod statistics;
pub mod store;
pub mod supervisor;
pub mod text;
pub mod urls;
pub mod v1;
pub mod voice_chat;
pub mod volume;

pub use urls::{InputSrcUrl, MixinSrcUrl, OutputDstUrl, UrlParts};
pub use volume::{Delay, Volume, VolumeLevel};
