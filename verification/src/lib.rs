//! Verified decision logic of an RTL-SDR FM receiver: RDS block decoding,
//! station detection decisions, presets, tuner rules and player control.

pub mod audio;
pub mod city;
pub mod detect;
pub mod player;
pub mod rds;
pub mod scan;
pub mod stations;
pub mod text;
pub mod tuner;
