//! Recovery of Xpress-compressed pages from Windows 8/10 page files and memory
//! dumps.
//!
//! - [`format`] says what a Plain LZ77 (Xpress) stream decodes to, and
//!   [`format_laws`] what is true of every decode;
//! - [`layout`] says how tokens stand in a stream, and [`layout_laws`] that a
//!   decode yields what they stand for; [`writer`] writes streams, and says that
//!   decoding undoes that;
//! - [`xpress`] is the decoder;
//! - [`scan`] finds the compressed pages in a range of bytes, and [`scan_laws`]
//!   says what is true of every scan;
//! - [`recover`] recovers all pages of one piece of data on all cores, and
//!   [`recover_laws`] says what is true of every recovery.

pub mod format;
pub mod format_laws;
pub mod layout;
pub mod layout_laws;
pub mod recover;
pub mod recover_laws;
pub mod scan;
pub mod scan_laws;
pub mod writer;
pub mod xpress;
