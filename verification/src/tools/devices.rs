//! Input devices: how their files are opened, and which one is set to a flat
//! acceleration.
use crate::text::strings;
use crate::text::strings::chars_of;
use vstd::prelude::*;

verus! {

/// The values that the system gives to the ways of opening a file.
#[derive(Clone, Copy, Debug)]
pub struct AccessFlags {
    pub mask: i32,
    pub read_only: i32,
    pub write_only: i32,
    pub read_write: i32,
}

/// Whether a file is opened for reading, and whether for writing.
pub fn access_of(flags: i32, f: &AccessFlags) -> (r: (bool, bool))
    ensures
        r.0 == ((flags & f.mask) == f.read_only || (flags & f.mask) == f.read_write),
        r.1 == ((flags & f.mask) == f.write_only || (flags & f.mask) == f.read_write),
{
    let way: i32 = flags & f.mask;
    (way == f.read_only || way == f.read_write, way == f.write_only || way == f.read_write)
}

/// Whether a device is the virtual one of the input tool.
pub fn is_virtual_device(name: &str) -> (r: bool)
    ensures
        r == strings::contains(name@, "ydotoold"@),
{
    let s = chars_of(name);
    let part = chars_of("ydotoold");
    strings::contains_chars(s.as_slice(), part.as_slice())
}

/// Whether a device is to be set to a flat acceleration: the virtual one, if it
/// can be.
pub fn wants_flat(name: &str, can_be_flat: bool) -> (r: bool)
    ensures
        r == (strings::contains(name@, "ydotoold"@) && can_be_flat),
{
    is_virtual_device(name) && can_be_flat
}

} // verus!
