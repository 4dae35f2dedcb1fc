//! Passive user payloads. Decoding them from JSON and validating them is the
//! surrounding process's affair; the library only states their shape.

use vstd::prelude::*;

verus! {

/// A user payload as carried in a request body.
pub struct UserDto {
    pub id: String,
    pub username: String,
    pub password: String,
}

/// A password-change payload.
pub struct UpdateUserDto {
    pub password: String,
}

} // verus!
