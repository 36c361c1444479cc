//! Decisions of a Matrix homeserver about the event graph of a room: which
//! events take part in state resolution and what the resolved state is, which
//! auth events an event needs, what an export of the event graph holds, and
//! what an inspection of one event reports.

pub mod algorithm;
pub mod auth_set;
pub mod auth_types;
pub mod conflict;
pub mod conflicted_set;
pub mod dag_files;
pub mod dag_report;
pub mod dag_stats;
pub mod export;
pub mod export_run;
pub mod ids;
pub mod json;
pub mod order;
pub mod power_sort;
pub mod resolve;
pub mod rules;
pub mod signatures;
pub mod state_map;
pub mod text;
pub mod unreject;
pub mod verify_pdu;
