//! Access permissions of a mapped region.
use vstd::prelude::*;

verus! {

/// Access rights of one region: read, write, execute, user-accessible.
#[derive(Clone, Copy, Debug, PartialEq, Eq, Structural)]
pub struct MapPermission {
    pub r: bool,
    pub w: bool,
    pub x: bool,
    pub u: bool,
}

/// Whether `port` is a valid user permission request: only the low three bits
/// (read, write, execute) may be set, and at least one of them is.
pub open spec fn valid_port(port: int) -> bool {
    1 <= port <= 7
}

/// The permission a valid `port` stands for: bit 0 read, bit 1 write, bit 2
/// execute, always user-accessible.
pub open spec fn port_perm(port: int) -> MapPermission {
    MapPermission { r: port % 2 == 1, w: (port / 2) % 2 == 1, x: (port / 4) % 2 == 1, u: true }
}

impl MapPermission {
    /// Readable and writable, kernel only.
    pub fn rw() -> (r: MapPermission)
        ensures
            r == (MapPermission { r: true, w: true, x: false, u: false }),
    {
        MapPermission { r: true, w: true, x: false, u: false }
    }

    /// Readable and writable, user-accessible.
    pub fn rwu() -> (r: MapPermission)
        ensures
            r == (MapPermission { r: true, w: true, x: false, u: true }),
    {
        MapPermission { r: true, w: true, x: false, u: true }
    }

    /// Readable and executable, kernel only.
    pub fn rx() -> (r: MapPermission)
        ensures
            r == (MapPermission { r: true, w: false, x: true, u: false }),
    {
        MapPermission { r: true, w: false, x: true, u: false }
    }

    /// Turns a user request's permission bits into a permission; `None` when
    /// bits other than read, write and execute are set, or none of them is.
    pub fn convert_for_user(port: usize) -> (r: Option<MapPermission>)
        ensures
            r is Some <==> valid_port(port as int),
            r is Some ==> r->Some_0 == port_perm(port as int),
    {
        let (r, w, x) = match port {
            1 => (true, false, false),
            2 => (false, true, false),
            3 => (true, true, false),
            4 => (false, false, true),
            5 => (true, false, true),
            6 => (false, true, true),
            7 => (true, true, true),
            _ => {
                return None;
            },
        };
        Some(MapPermission { r, w, x, u: true })
    }
}

} // verus!
