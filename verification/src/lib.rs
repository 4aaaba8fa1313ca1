//! Verified core of a small digital audio workstation: musical time, parameter
//! automation, clip placement on the timeline, the looping transport, the
//! planar/interleaved sample layouts and the WAV container format.
//!
//! Everything here is integer and structural logic. Sample arithmetic (gains,
//! interpolation, oscillators) is floating point and lives with the audio host.

pub mod tempo;
pub mod automation;
pub mod wav;
pub mod transport;
pub mod layout;
pub mod timeline;
pub mod project;
pub mod routing;
