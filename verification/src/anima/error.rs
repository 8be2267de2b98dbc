//! What can go wrong for a controller.

use vstd::prelude::*;

use super::traits::AccessLevel;
use crate::text::{decimal, hex_digits, push_decimal, push_hex8};

verus! {

/// Why an action of a controller failed.
#[derive(Debug)]
pub enum ControllerError {
    /// There is no such entity in the zone.
    EntityNotFound(u32),
    /// The way is barred.
    MovementBlocked { serial: u32, x: u16, y: u16 },
    /// The controller's access does not reach that far.
    AccessDenied { action: &'static str, level: AccessLevel },
    /// Anything else, in words.
    Custom(String),
}

impl ControllerError {
    /// What is said of the error.
    pub open spec fn wording(&self) -> Seq<char> {
        match self {
            ControllerError::EntityNotFound(serial) => "entity 0x"@ + hex_digits(*serial as int, 8)
                + " not found"@,
            ControllerError::MovementBlocked { serial, x, y } => "movement blocked for 0x"@
                + hex_digits(*serial as int, 8) + " at ("@ + decimal(*x as nat) + ", "@ + decimal(
                *y as nat,
            ) + ")"@,
            ControllerError::AccessDenied { action, level } => "access denied: '"@ + action@
                + "' requires higher than "@ + level.wording(),
            ControllerError::Custom(text) => text@,
        }
    }

    /// What is said of the error.
    pub fn message(&self) -> (s: String)
        ensures
            s@ == self.wording(),
    {
        match self {
            ControllerError::EntityNotFound(serial) => {
                let s = push_hex8("entity 0x".to_owned(), *serial).concat(" not found");
                assert(s@ =~= self.wording());
                s
            },
            ControllerError::MovementBlocked { serial, x, y } => {
                let s = push_hex8("movement blocked for 0x".to_owned(), *serial).concat(" at (");
                let s = push_decimal(s, *x as u32).concat(", ");
                let s = push_decimal(s, *y as u32).concat(")");
                assert(s@ =~= self.wording());
                s
            },
            ControllerError::AccessDenied { action, level } => {
                let s = "access denied: '".to_owned().concat(action).concat(
                    "' requires higher than ",
                ).concat(level.name());
                assert(s@ =~= self.wording());
                s
            },
            ControllerError::Custom(text) => text.clone(),
        }
    }
}

/// What is said of an entity that was taken for a mobile.
pub open spec fn no_mobile_wording(serial: u32) -> Seq<char> {
    "0x"@ + hex_digits(serial as int, 8) + " is not a mobile"@
}

/// The error for an entity that was taken for a mobile.
pub fn no_mobile(serial: u32) -> (e: ControllerError)
    ensures
        e matches ControllerError::Custom(text) && text@ == no_mobile_wording(serial),
{
    ControllerError::Custom(push_hex8("0x".to_owned(), serial).concat(" is not a mobile"))
}

} // verus!
