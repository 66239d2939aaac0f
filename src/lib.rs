//! Text sanitization primitives that neutralize HTML markup in untrusted text.
//!
//! Three independent transforms are offered:
//! - [`allocating::sanitize_string`] entity-encodes `<` and `>`;
//! - [`allocating::remove_html_tags`] deletes bracket-delimited tag spans;
//! - [`fast::remove_brackets`] drops the bracket characters alone.
//!
//! Each is specified over the characters of its input (`Seq<char>`): the
//! models and their laws (idempotence, output length) are in [`entities`],
//! [`tags`] and [`fast`].

/// Functions that may allocate more memory for the result than the input held.
pub mod allocating;
/// The entity-encoding model.
pub mod entities;
/// Fast transforms whose output may look rougher than the allocating ones.
pub mod fast;
/// What the transforms accept as input.
pub mod input;
/// The public transforms in one place.
pub mod prelude;
/// The tag-stripping scanner's model.
pub mod tags;
