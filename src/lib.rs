//! A static dictionary of weighted words, compiled into a finite state
//! transducer and searched for the best matches within one character edit.

pub mod backend;
pub mod index;
pub mod order;
pub mod ranking;
pub mod text;
