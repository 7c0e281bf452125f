//! Windows device I/O control codes, as the TAP driver back end builds them.
use vstd::prelude::*;

verus! {

/// The I/O control code of a device type, a function number, a buffer
/// transfer method and the required access: the device type in the high 16
/// bits, then the access (2 bits), the function (12 bits) and the method
/// (2 bits), as the `CTL_CODE` macro of the Windows headers lays them out.
pub fn CTL_CODE(DeviceType: u32, Function: u32, Method: u32, Access: u32) -> (r: u32)
    ensures
        r == (DeviceType << 16u32) | (Access << 14u32) | (Function << 2u32) | Method,
{
    (DeviceType << 16u32) | (Access << 14u32) | (Function << 2u32) | Method
}

} // verus!
