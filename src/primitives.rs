//! Raw field values tagged with their content type.
use vstd::prelude::*;

use crate::telegram::TelegramContentType;
use crate::traits::Wrapper;

verus! {

/// A text value of a field.
pub struct TString {
    pub telegram_content_type: TelegramContentType,
    pub value: String,
}

impl Wrapper<String> for TString {
    fn wrap(value: String, telegram_content_type: TelegramContentType) -> Self {
        TString { telegram_content_type, value }
    }
}

/// The calendar fields of a date, before its absolute time is derived.
#[derive(Clone, Copy, Debug, PartialEq, Eq, Structural)]
pub struct TDate {
    pub year: u16,
    pub month: u8,
    pub day: u8,
    pub hour: u8,
    pub minute: u8,
    pub seconds: u8,
    pub dst: bool,
}

impl Wrapper<TDate> for TDate {
    fn wrap(value: TDate, _telegram_content_type: TelegramContentType) -> Self {
        value
    }
}

impl TDate {
    pub fn new(year: u16, month: u8, day: u8, hour: u8, minute: u8, seconds: u8, dst: bool) -> (r:
        Self)
        ensures
            r == (TDate { year, month, day, hour, minute, seconds, dst }),
    {
        TDate { year, month, day, hour, minute, seconds, dst }
    }
}

} // verus!
