//! Mapping permissions and the syscall-level `port` encoding.
//!
//! A `port` value, as a task hands it to `sys_mmap`, uses bit 0 for read,
//! bit 1 for write and bit 2 for execute; all higher bits must be zero and at
//! least one of the three must be set.

use vstd::prelude::*;

verus! {

/// Permission of one mapped page: read, write, execute, and whether the page
/// is accessible from user mode. Pages created through `sys_mmap` are always
/// user-accessible.
#[derive(Clone, Copy, Debug, PartialEq, Eq, Structural)]
pub struct MapPermission {
    pub r: bool,
    pub w: bool,
    pub x: bool,
    pub u: bool,
}

/// Whether `port` only uses bits 0 to 2 and sets at least one of them.
pub open spec fn port_valid(port: usize) -> bool {
    port & !0x7usize == 0 && port & 0x7usize != 0
}

/// The permission that a valid `port` encodes, with the user bit forced on.
pub open spec fn spec_perm_of_port(port: usize) -> MapPermission {
    MapPermission {
        r: port & 0x1usize != 0,
        w: port & 0x2usize != 0,
        x: port & 0x4usize != 0,
        u: true,
    }
}

/// Reports whether `port` is a well-formed permission request.
pub fn check_port(port: usize) -> (b: bool)
    ensures
        b == port_valid(port),
{
    port & !0x7usize == 0 && port & 0x7usize != 0
}

/// Decodes a `port` value into a [`MapPermission`] with the user bit forced on.
pub fn perm_of_port(port: usize) -> (p: MapPermission)
    ensures
        p == spec_perm_of_port(port),
{
    MapPermission {
        r: port & 0x1usize != 0,
        w: port & 0x2usize != 0,
        x: port & 0x4usize != 0,
        u: true,
    }
}

} // verus!
