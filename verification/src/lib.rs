//! Metrics, measurement and bookkeeping behind the ZCode speed panel.
pub mod aggregate;
pub mod attribution;
pub mod autostart;
pub mod breakdown;
pub mod calibration;
pub mod call;
pub mod chart;
pub mod ckpt;
pub mod clock;
pub mod engine;
pub mod export;
pub mod figures;
pub mod guard;
pub mod history;
pub mod inflight;
pub mod journal;
pub mod json;
pub mod latest;
pub mod live;
pub mod net;
pub mod order;
pub mod panel;
pub mod probe;
pub mod procs;
pub mod pulse;
pub mod rate;
pub mod settle;
pub mod stream;
pub mod strmap;
pub mod tables;
pub mod text;
pub mod updater;
pub mod window;
