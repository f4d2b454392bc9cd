//! The decision core of ShufflePic, a photo slideshow that shows one or two
//! pictures at a time, in random order, without repeating a picture before
//! every picture has been shown.
//!
//! Paths are text ([`paths`]), one text for each path however it was spelled;
//! clock readings are nanosecond counts; and the outcome of each file operation
//! is an argument: the program around this library reads and writes files, runs
//! the threads that decode, and draws.

pub mod app;
pub mod bounds;
pub mod cache;
pub mod coherence;
pub mod decoder;
pub mod frame;
pub mod image_loader;
pub mod laws;
pub mod paths;
pub mod persist;
pub mod playback;
pub mod quarantine;
pub mod ready;
pub mod refill;
pub mod scanner;
pub mod settings;

use vstd::prelude::*;

verus! {

/// Seconds between two pictures when nothing else was chosen.
pub const DEFAULT_INTERVAL_SECS: u64 = 15;

pub const MIN_INTERVAL_SECS: u64 = 5;

pub const MAX_INTERVAL_SECS: u64 = 60;

/// Pictures side by side when nothing else was chosen.
pub const DEFAULT_DISPLAY_COUNT: usize = 2;

pub const STATE_FILE_NAME: &'static str = "shufflepic_state.json";

/// Seconds between two writes of the state file.
pub const SAVE_THROTTLE_SECS: u64 = 5;

pub const PERSIST_SCHEMA_VERSION: u32 = 1;

/// Worker threads that decode; 0 picks a number from the machine's cores.
pub const DECODE_WORKERS: usize = 0;

/// Requests for pictures ahead of the display that may be under way at once.
pub const MAX_INFLIGHT: usize = 6;

/// Decoded pictures ahead of the display that may wait for a place at once.
pub const MAX_READY_BUFFER: usize = 6;

/// How many places, counted from the cursor, are filled ahead of time.
pub const READAHEAD_DEPTH: usize = 8;

pub const MAX_RESULTS_PER_FRAME: usize = 4;

pub const MAX_UPLOADS_PER_FRAME: usize = 2;

pub const DISPLAY_QUEUE_CAPACITY: usize = 2;

pub const PREFETCH_QUEUE_CAPACITY: usize = 6;

pub const RESULT_QUEUE_CAPACITY: usize = 8;

/// Pictures with more pixels than this are set aside.
pub const OVERSIZED_MAX_PIXELS: u64 = 32_000_000;

/// Pictures with a longer side than this are set aside.
pub const OVERSIZED_MAX_SIDE: u32 = 10_000;

pub const OVERSIZED_DIR_NAME: &'static str = "oversized";

/// Failed moves of one oversized picture after which the slideshow halts.
pub const MAX_OVERSIZED_MOVE_ATTEMPTS: u32 = 5;

/// Bytes of texture memory above which nothing is uploaded ahead of time.
pub const VRAM_LIMIT: usize = 2 * 1024 * 1024 * 1024;

pub const RESCAN_INTERVAL_SECS: u64 = 10;

/// Failed decodes of one picture after which it leaves the play order.
pub const MAX_DECODE_FAILS: u32 = 3;

/// Seconds for which an error message stays on screen.
pub const ERROR_MSG_SECS: u64 = 4;

pub const DELETE_DIR_NAME: &'static str = "delete";

} // verus!
