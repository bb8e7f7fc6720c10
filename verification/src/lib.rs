//! # dush
//!
//! What takes up space in a directory: the recursive size of each of its
//! immediate children, largest first, and the reports and windows that show
//! it.
//!
//! The library does no I/O of its own. Where the file system, a terminal or a
//! window is needed it says what to do next and takes what came of it:
//!
//! - [`scan`] sizes the children of a directory one by one, reports progress,
//!   and makes an [`Analysis`] of what was found; [`listing`] lists a directory
//!   without sizing anything.
//! - [`rows`] decides which directories a report drills into and collects its
//!   rows, and [`nesting`] proves what they show; [`report`], [`delimited`],
//!   [`bar`] and [`color`] turn them into text, [`reporter`] draws the progress
//!   line.
//! - [`window`], [`models`], [`outline`] and [`status`] hold the rows that a
//!   window shows while listings and sizes come in; [`beneath`] and [`columns`]
//!   prove what each of them leaves there, and [`current`] that the shares are
//!   never out of date.
//!
//! [`model`], [`order`] and [`text`] hold what the others share, and
//! [`outside`] the calls into `std`, `csv` and `humansize`.
pub mod bar;
pub mod beneath;
pub mod color;
pub mod columns;
pub mod current;
pub mod delimited;
pub mod listing;
pub mod model;
pub mod models;
pub mod nesting;
pub mod order;
pub mod outline;
pub mod outside;
pub mod report;
pub mod reporter;
pub mod rows;
pub mod scan;
pub mod status;
pub mod text;
pub mod window;

pub use model::{
    Analysis, AnalysisError, AnalyzeOptions, Entry, Progress, ProgressEvent, WalkFault,
};
