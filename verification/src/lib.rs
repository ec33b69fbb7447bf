//! Graph algorithms, an undo/redo editing history and the bookkeeping of an
//! interactive graph-algorithm teaching tool.

pub mod graph;

pub mod algorithm;

pub mod performance;
pub mod text;

pub mod storage;

pub mod ui;

pub mod visualization;
