//! An RTP/RTCP session engine: participant bookkeeping, jitter buffering,
//! inter-stream synchronisation and RTCP scheduling, with machine-checked
//! contracts.

pub mod ancmux;
pub mod config;
pub mod engine;
pub mod jitterbuffer;
pub mod packet;
pub mod receiver;
pub mod rtcp;
pub mod seqnum;
pub mod session;
pub mod source;
pub mod sync;
