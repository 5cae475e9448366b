//! Extraction of a named, possibly nested region from line-oriented text.
//!
//! A source file marks regions with lines whose trimmed content begins with
//! `#region` (carrying a name) or `#endregion`. This library scans the
//! source once, tracks region nesting with a stack, and copies the body of
//! the region named `Script` to an output buffer, stripping from every body
//! line the indentation at which the region opened. It also builds the
//! destination path under which the extracted script is published.
//!
//! All input and output is plain bytes; reading the source file and writing
//! the target file are left to the caller.

pub mod laws;
pub mod paths;
pub mod scan;
pub mod text;
