//! Arranging a score into a three-octave playable window.
//!
//! `pitch` reads and writes pitch names, `arrange` folds every key of a score
//! into the window by whole octaves, and `keys` gives the virtual-key codes of
//! the characters that keys are typed with.
pub mod arrange;
pub mod keys;
pub mod pitch;
pub mod processes;
