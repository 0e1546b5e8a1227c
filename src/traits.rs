//! Wrapping a raw value together with the content type it belongs to.
use vstd::prelude::*;

use crate::telegram::TelegramContentType;

verus! {

/// A type that holds a raw value of type `U` for a field of a given type.
pub trait Wrapper<U>: Sized {
    fn wrap(value: U, telegram_content_type: TelegramContentType) -> Self;
}

} // verus!
