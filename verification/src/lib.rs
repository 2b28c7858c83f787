//! furet: a fuzzy directory jumper. This library holds its verified core:
//! normalization, the two-stage matching engine, ranking and the decision
//! rule, the `--explain` report, and the small pure helpers around them.
pub mod text;
pub mod normalize;
pub mod stage1;
pub mod placement;
pub mod stage2;
pub mod stage1_nucleo;
pub mod clock;
pub mod rank;
pub mod decision;
pub mod explain;
pub mod calibration;
pub mod storage;
pub mod soft_delete;
pub mod paths;
pub mod project;
pub mod remove;
pub mod fallback;
pub mod config;
pub mod commands;
pub mod import;
pub mod order;
