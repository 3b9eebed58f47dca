//! Errors of the decoding pipeline.  All are terminal for one decode
//! attempt: the caller surfaces the message and moves on.

use vstd::prelude::*;

verus! {

/// Why a decode attempt failed.
#[derive(Clone, Copy, Debug, PartialEq, Eq, Structural)]
pub enum FitsError {
    /// The file could not be read, or a header or data block is truncated.
    FileError,
    /// A header is malformed: no `END` card before the end of the file.
    FormatError,
    /// The image has an axis count outside {2, 3}.
    UnsupportedFormat,
    /// No HDU in the file holds non-empty image data.
    NotFound,
    /// The demosaic step could not produce the expected sample count.
    Reconstruction,
}

impl FitsError {
    /// A human-readable message, in place of a `Display` impl.
    pub fn describe(&self) -> String {
        match self {
            FitsError::FileError => String::from_str("cannot read FITS file (truncated or unreadable)"),
            FitsError::FormatError => String::from_str("malformed FITS header: no END card"),
            FitsError::UnsupportedFormat => String::from_str("unsupported FITS image axis count"),
            FitsError::NotFound => String::from_str("no image HDU found in file"),
            FitsError::Reconstruction => String::from_str("debayer error: wrong sample count"),
        }
    }
}

} // verus!
