//! Offline data infrastructure for an astrometric plate solver: a USNO-B
//! catalog record decoder, a similarity-invariant four-point geometric hash,
//! a star source extractor over grayscale images, a FITS binary-table reader,
//! and a spatial index pairing stars and quads in kd-trees.
//!
//! Angles and magnitudes are carried as exactly scaled integers (for example
//! right ascension in hundredths of an arcsecond); callers that want floating
//! point apply the documented scale factors themselves.

pub mod bitmatrix;
pub mod error;
pub mod extract;
pub mod fits;
pub mod index;
pub mod quad;
pub mod quad_laws;
pub mod usnob;
