//! Sizes and addresses as memory-management messages show them.
use vstd::prelude::*;

verus! {

/// Bytes in a kilobyte.
pub const KB: usize = 1024;

/// Bytes in a megabyte.
pub const MB: usize = 1024 * 1024;

/// A size in the largest unit (MB, KB or bytes) of which it holds at least
/// one, rounded down.
pub open spec fn spec_format_size(bytes: usize) -> (usize, &'static str) {
    if bytes >= MB {
        ((bytes / MB) as usize, "MB")
    } else if bytes >= KB {
        ((bytes / KB) as usize, "KB")
    } else {
        (bytes, "bytes")
    }
}

/// Format a size as (value, unit): MB from 1 MiB up, else KB from 1 KiB up,
/// else bytes.
pub fn format_size(bytes: usize) -> (r: (usize, &'static str))
    ensures
        r == spec_format_size(bytes),
{
    if bytes >= MB {
        (bytes / MB, "MB")
    } else if bytes >= KB {
        (bytes / KB, "KB")
    } else {
        (bytes, "bytes")
    }
}

/// An address as it is printed (in hexadecimal by the format string).
pub fn format_addr(addr: usize) -> (r: usize)
    ensures
        r == addr,
{
    addr
}

/// Same as `format_size`.
pub fn format_size_str(bytes: usize) -> (r: (usize, &'static str))
    ensures
        r == spec_format_size(bytes),
{
    format_size(bytes)
}

} // verus!
