//! The Linux error numbers the ACL logic tells apart. Errors travel through
//! the library as these raw numbers; `rustix::io::Errno::from_raw_os_error`
//! turns one back into the error type of the system-call layer.
use vstd::prelude::*;

verus! {

pub const EPERM: i32 = 1;
pub const ENOENT: i32 = 2;
pub const EIO: i32 = 5;
pub const EACCES: i32 = 13;
pub const ENOTDIR: i32 = 20;
pub const EINVAL: i32 = 22;
pub const ERANGE: i32 = 34;
pub const ENODATA: i32 = 61;
pub const EOPNOTSUPP: i32 = 95;

} // verus!
