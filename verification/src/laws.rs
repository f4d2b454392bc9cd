//! What the operations are for, each said by itself: relations between what
//! goes in and what comes out, whatever the operation does in between.

pub mod clock;
pub mod folder;
pub mod moves;
pub mod pictures;
pub mod saved;
pub mod show;
pub mod window;
