pub mod assignment_network;
pub mod commands;
pub mod config;
pub mod dinic;
pub mod flow_network;
pub mod human_datetime;
pub mod human_duration;
pub mod jam_types;
pub mod models;
pub mod scheduler;
pub mod submissions;
pub mod text;
pub mod timestamp;
