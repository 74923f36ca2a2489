//! The checks of the file-system calls that this kernel answers without a
//! file system: `mount` and `umount` check their strings, the sync calls
//! their descriptor.
use vstd::prelude::*;

use crate::sys::syscall::{FdTable, MAX_FDS};

verus! {

/// Whether `b` is a UTF-8 continuation byte.
pub open spec fn is_cont(b: u8) -> bool {
    0x80 <= b <= 0xBF
}

/// Length of the well-formed UTF-8 sequence starting at `s[i]`, or 0 when
/// none starts there (overlong forms, surrogates and values above U+10FFFF
/// are not well formed).
pub open spec fn utf8_char_len(s: Seq<u8>, i: int) -> int {
    let n = s.len() - i;
    let b0 = s[i];
    if b0 <= 0x7F {
        1
    } else if 0xC2 <= b0 <= 0xDF {
        if n >= 2 && is_cont(s[i + 1]) { 2 } else { 0 }
    } else if 0xE0 <= b0 <= 0xEF {
        if n >= 3 && is_cont(s[i + 2]) && (if b0 == 0xE0 {
            0xA0 <= s[i + 1] <= 0xBF
        } else if b0 == 0xED {
            0x80 <= s[i + 1] <= 0x9F
        } else {
            is_cont(s[i + 1])
        }) { 3 } else { 0 }
    } else if 0xF0 <= b0 <= 0xF4 {
        if n >= 4 && is_cont(s[i + 2]) && is_cont(s[i + 3]) && (if b0 == 0xF0 {
            0x90 <= s[i + 1] <= 0xBF
        } else if b0 == 0xF4 {
            0x80 <= s[i + 1] <= 0x8F
        } else {
            is_cont(s[i + 1])
        }) { 4 } else { 0 }
    } else {
        0
    }
}

/// `s[i..]` is well-formed UTF-8.
pub open spec fn utf8_from(s: Seq<u8>, i: int) -> bool
    decreases s.len() - i,
{
    if i < 0 || i >= s.len() {
        i == s.len()
    } else {
        let n = utf8_char_len(s, i);
        n > 0 && utf8_from(s, i + n)
    }
}

/// `s` is well-formed UTF-8.
pub open spec fn utf8(s: Seq<u8>) -> bool {
    utf8_from(s, 0)
}

fn char_len(s: &[u8], i: usize) -> (r: usize)
    requires
        i < s@.len(),
    ensures
        r == utf8_char_len(s@, i as int),
{
    let n = s.len() - i;
    let b0 = s[i];
    if b0 <= 0x7F {
        1
    } else if 0xC2 <= b0 && b0 <= 0xDF {
        if n >= 2 && 0x80 <= s[i + 1] && s[i + 1] <= 0xBF { 2 } else { 0 }
    } else if 0xE0 <= b0 && b0 <= 0xEF {
        if n < 3 {
            return 0;
        }
        let b1 = s[i + 1];
        let b2 = s[i + 2];
        let second_ok = if b0 == 0xE0 {
            0xA0 <= b1 && b1 <= 0xBF
        } else if b0 == 0xED {
            0x80 <= b1 && b1 <= 0x9F
        } else {
            0x80 <= b1 && b1 <= 0xBF
        };
        if second_ok && 0x80 <= b2 && b2 <= 0xBF { 3 } else { 0 }
    } else if 0xF0 <= b0 && b0 <= 0xF4 {
        if n < 4 {
            return 0;
        }
        let b1 = s[i + 1];
        let b2 = s[i + 2];
        let b3 = s[i + 3];
        let second_ok = if b0 == 0xF0 {
            0x90 <= b1 && b1 <= 0xBF
        } else if b0 == 0xF4 {
            0x80 <= b1 && b1 <= 0x8F
        } else {
            0x80 <= b1 && b1 <= 0xBF
        };
        if second_ok && 0x80 <= b2 && b2 <= 0xBF && 0x80 <= b3 && b3 <= 0xBF { 4 } else { 0 }
    } else {
        0
    }
}

/// Whether `s` is well-formed UTF-8.
pub fn is_utf8(s: &[u8]) -> (r: bool)
    ensures
        r == utf8(s@),
{
    let mut i: usize = 0;
    while i < s.len()
        invariant
            i <= s@.len(),
            utf8(s@) == utf8_from(s@, i as int),
        decreases s@.len() - i,
    {
        let n = char_len(s, i);
        if n == 0 {
            return false;
        }
        i = i + n;
    }
    true
}

/// The bytes of "mfs_ram".
pub open spec fn mfs_ram_bytes() -> Seq<u8> {
    seq![109u8, 102u8, 115u8, 95u8, 114u8, 97u8, 109u8]
}

/// The bytes of "mfs_disk".
pub open spec fn mfs_disk_bytes() -> Seq<u8> {
    seq![109u8, 102u8, 115u8, 95u8, 100u8, 105u8, 115u8, 107u8]
}

fn is_supported_fstype(f: &[u8]) -> (r: bool)
    ensures
        r == (f@ == mfs_ram_bytes() || f@ == mfs_disk_bytes()),
{
    let ram = f.len() == 7 && f[0] == 109 && f[1] == 102 && f[2] == 115 && f[3] == 95 && f[4] == 114 && f[5] == 97
        && f[6] == 109;
    let disk = f.len() == 8 && f[0] == 109 && f[1] == 102 && f[2] == 115 && f[3] == 95 && f[4] == 100 && f[5] == 105
        && f[6] == 115 && f[7] == 107;
    proof {
        if f@ == mfs_ram_bytes() {
            assert(f@.len() == 7);
        }
        if f@ == mfs_disk_bytes() {
            assert(f@.len() == 8);
        }
        if ram {
            assert(f@ =~= mfs_ram_bytes());
        }
        if disk {
            assert(f@ =~= mfs_disk_bytes());
        }
    }
    ram || disk
}

/// The checks of `mount` on the source path, the target path and the file
/// system type, as read from the caller (None: no terminating zero within
/// 4096, 4096 and 256 bytes): 0 when both paths are UTF-8 and the type is
/// "mfs_ram" or "mfs_disk", -1 otherwise.
pub fn mount_check(source: Option<&[u8]>, target: Option<&[u8]>, fstype: Option<&[u8]>) -> (r: isize)
    ensures
        r == 0 || r == -1,
        r == 0 <==> (source matches Some(s) && utf8(s@)) && (target matches Some(t) && utf8(t@)) && (fstype matches Some(
            f,
        ) && utf8(f@) && (f@ == mfs_ram_bytes() || f@ == mfs_disk_bytes())),
{
    let s = match source {
        Some(s) => s,
        None => {
            return -1;
        },
    };
    if !is_utf8(s) {
        return -1;
    }
    let t = match target {
        Some(t) => t,
        None => {
            return -1;
        },
    };
    if !is_utf8(t) {
        return -1;
    }
    let f = match fstype {
        Some(f) => f,
        None => {
            return -1;
        },
    };
    if !is_utf8(f) {
        return -1;
    }
    if !is_supported_fstype(f) {
        return -1;
    }
    0
}

/// The checks of `umount` on the target path, as read from the caller
/// (None: no terminating zero within 4096 bytes): 0 when it is UTF-8, -1
/// otherwise. The unmount flags are only reported.
pub fn umount_check(target: Option<&[u8]>) -> (r: isize)
    ensures
        r == 0 || r == -1,
        r == 0 <==> (target matches Some(t) && utf8(t@)),
{
    match target {
        Some(t) => if is_utf8(t) {
            0
        } else {
            -1
        },
        None => -1,
    }
}

/// `fsync`: 0 when `fd` is an open descriptor (nothing is written back
/// yet), -1 otherwise.
pub fn sys_fsync(fds: &FdTable, fd: usize) -> (r: isize)
    requires
        fds.wf(),
    ensures
        r == (if fd < MAX_FDS && fds@[fd as int] is Some { 0isize } else { -1isize }),
{
    match fds.get(fd) {
        Some(_) => 0,
        None => -1,
    }
}

/// `fdatasync`: as `fsync`.
pub fn sys_fdatasync(fds: &FdTable, fd: usize) -> (r: isize)
    requires
        fds.wf(),
    ensures
        r == (if fd < MAX_FDS && fds@[fd as int] is Some { 0isize } else { -1isize }),
{
    sys_fsync(fds, fd)
}

} // verus!
