//! The typed model of a telegram: fields, their values and units, and the
//! consistency rules that a valid field obeys.
use vstd::prelude::*;

use crate::error::{parse_error, DsmrError};

verus! {

/// The semantic role of one field, fixed by its identifier.
#[derive(Clone, Copy, Debug, PartialEq, Eq, Structural)]
pub enum TelegramContentType {
    Start,
    Date,
    EventlogSeverity,
    EventlogMessage,
    EventlogDate,
    InformationType,
    Voltage,
    Current,
    Power,
    TotalConsumed,
    TotalProduced,
    GasTotalDelivered,
    End,
}

/// The unit that a numeric field carries.
#[derive(Clone, Copy, Debug, PartialEq, Eq, Structural)]
pub enum TelegramContentUnit {
    V,
    A,
    KW,
    KWH,
    M3,
}

/// A calendar date and time of day, with the absolute time derived from it.
#[derive(Clone, Copy, Debug, PartialEq, Eq, Structural)]
pub struct Date {
    pub timestamp: i64,
    pub year: u16,
    pub month: u8,
    pub day: u8,
    pub hour: u8,
    pub minute: u8,
    pub seconds: u8,
    pub dst: bool,
}

/// Whether `y` is a leap year of the Gregorian calendar.
pub open spec fn is_leap_year(y: int) -> bool {
    (y % 4 == 0 && y % 100 != 0) || y % 400 == 0
}

/// The number of days of month `m` of year `y`.
pub open spec fn days_in_month(y: int, m: int) -> int {
    if m == 2 {
        if is_leap_year(y) {
            29
        } else {
            28
        }
    } else if m == 4 || m == 6 || m == 9 || m == 11 {
        30
    } else {
        31
    }
}

/// Whether the fields name a day of the Gregorian calendar and a time of day.
pub open spec fn is_calendar_date(
    year: u16,
    month: u8,
    day: u8,
    hour: u8,
    minute: u8,
    seconds: u8,
) -> bool {
    &&& 1 <= month <= 12
    &&& 1 <= day <= days_in_month(year as int, month as int)
    &&& hour < 24
    &&& minute < 60
    &&& seconds < 60
}

/// The absolute time of a Dutch local date and time, in seconds since the
/// Unix epoch; `dst` selects summer time (UTC+2) over winter time (UTC+1).
pub uninterp spec fn dutch_timestamp(
    year: u16,
    month: u8,
    day: u8,
    hour: u8,
    minute: u8,
    seconds: u8,
    dst: bool,
) -> i64;

/// Relies on `tudelft_dsmr_output_generator::date_to_timestamp`: it gives a
/// time exactly when chrono accepts the date (`NaiveDate::from_ymd_opt`) and
/// the time of day (`NaiveTime::from_hms_opt`), and that time depends on the
/// fields alone.
#[verifier::external_body]
fn date_to_timestamp(
    year: u16,
    month: u8,
    day: u8,
    hour: u8,
    minute: u8,
    seconds: u8,
    dst: bool,
) -> (r: Option<i64>)
    ensures
        r is Some <==> is_calendar_date(year, month, day, hour, minute, seconds),
        r matches Some(t) ==> t == dutch_timestamp(year, month, day, hour, minute, seconds, dst),
{
    tudelft_dsmr_output_generator::date_to_timestamp(year, month, day, hour, minute, seconds, dst)
}

/// The ranges that the calendar fields of a date keep.
pub open spec fn date_in_range(d: Date) -> bool {
    &&& 1 <= d.month <= 12
    &&& 1 <= d.day <= 31
    &&& d.hour < 24
    &&& d.minute < 60
    &&& d.seconds < 60
}

impl Date {
    /// The date with the given fields; fails when they name no calendar
    /// date and time of day.
    pub fn new(
        year: u16,
        month: u8,
        day: u8,
        hour: u8,
        minute: u8,
        seconds: u8,
        dst: bool,
    ) -> (r: Result<Date, DsmrError>)
        ensures
            r is Ok <==> is_calendar_date(year, month, day, hour, minute, seconds),
            r matches Ok(d) ==> d == (Date {
                timestamp: dutch_timestamp(year, month, day, hour, minute, seconds, dst),
                year,
                month,
                day,
                hour,
                minute,
                seconds,
                dst,
            }),
            r matches Err(e) ==> e is FormatError,
    {
        match date_to_timestamp(year, month, day, hour, minute, seconds, dst) {
            Some(timestamp) => Ok(Date { timestamp, year, month, day, hour, minute, seconds, dst }),
            None => Err(parse_error("Invalid date field")),
        }
    }

    /// Whether the calendar fields keep their ranges.
    pub fn validate(&self) -> (r: bool)
        ensures
            r == date_in_range(*self),
    {
        1 <= self.month && self.month <= 12 && 1 <= self.day && self.day <= 31 && self.hour < 24
            && self.minute < 60 && self.seconds < 60
    }
}

/// The value of a field.
#[derive(Debug, PartialEq)]
pub enum Value {
    String(String),
    Date(Date),
    /// A reading in units of `1 / SCALE` (see `text::SCALE`).
    Number(i128),
}

/// What a value holds.
pub enum ValueView {
    Text(Seq<char>),
    Date(Date),
    Number(int),
}

impl View for Value {
    type V = ValueView;

    open spec fn view(&self) -> ValueView {
        match self {
            Value::String(s) => ValueView::Text(s@),
            Value::Date(d) => ValueView::Date(*d),
            Value::Number(n) => ValueView::Number(*n as int),
        }
    }
}

/// The identifier of a field: major, minor and an optional index.
pub type FieldId = (u32, u32, Option<u32>);

/// One field of a telegram.
#[derive(Debug, PartialEq)]
pub struct TelegramContent {
    pub telegram_content_type: TelegramContentType,
    pub id: FieldId,
    pub value: Option<Value>,
    pub unit: Option<TelegramContentUnit>,
}

/// What a field holds.
pub struct FieldView {
    pub content_type: TelegramContentType,
    pub id: FieldId,
    pub value: Option<ValueView>,
    pub unit: Option<TelegramContentUnit>,
}

impl View for TelegramContent {
    type V = FieldView;

    open spec fn view(&self) -> FieldView {
        FieldView {
            content_type: self.telegram_content_type,
            id: self.id,
            value: match self.value {
                Some(v) => Some(v@),
                None => None,
            },
            unit: self.unit,
        }
    }
}

/// Whether `id` is an identifier that a field of type `t` may carry.
pub open spec fn id_fits(t: TelegramContentType, id: FieldId) -> bool {
    match t {
        TelegramContentType::Start => id.0 == 1 && id.1 == 1,
        TelegramContentType::Date => id.0 == 2 && id.1 == 1 && id.2 is None,
        TelegramContentType::EventlogSeverity => id.0 == 3 && id.1 == 1 && id.2 is Some,
        TelegramContentType::EventlogMessage => id.0 == 3 && id.1 == 2 && id.2 is Some,
        TelegramContentType::EventlogDate => id.0 == 3 && id.1 == 3 && id.2 is Some,
        TelegramContentType::InformationType => id.0 == 4 && id.1 == 1 && id.2 is None,
        TelegramContentType::Voltage => id.0 == 7 && id.1 == 1 && id.2 is Some,
        TelegramContentType::Current => id.0 == 7 && id.1 == 2 && id.2 is Some,
        TelegramContentType::Power => id.0 == 7 && id.1 == 3 && id.2 is Some,
        TelegramContentType::TotalConsumed => id.0 == 7 && id.1 == 4 && id.2 == Some(1u32),
        TelegramContentType::TotalProduced => id.0 == 7 && id.1 == 4 && id.2 == Some(2u32),
        TelegramContentType::GasTotalDelivered => id.0 == 5 && id.1 == 2 && id.2 is None,
        TelegramContentType::End => id.0 == 1 && id.1 == 2,
    }
}

/// The one unit that a field of type `t` carries, or `None` for a field that
/// carries none.
pub open spec fn unit_of_type(t: TelegramContentType) -> Option<TelegramContentUnit> {
    match t {
        TelegramContentType::Voltage => Some(TelegramContentUnit::V),
        TelegramContentType::Current => Some(TelegramContentUnit::A),
        TelegramContentType::Power => Some(TelegramContentUnit::KW),
        TelegramContentType::TotalConsumed => Some(TelegramContentUnit::KWH),
        TelegramContentType::TotalProduced => Some(TelegramContentUnit::KWH),
        TelegramContentType::GasTotalDelivered => Some(TelegramContentUnit::M3),
        _ => None,
    }
}

/// Whether a field of type `t` holds text.
pub open spec fn is_text_type(t: TelegramContentType) -> bool {
    t is Start || t is EventlogSeverity || t is EventlogMessage || t is InformationType || t is End
}

/// Whether a field of type `t` holds a date.
pub open spec fn is_date_type(t: TelegramContentType) -> bool {
    t is Date || t is EventlogDate
}

/// Whether a field of type `t` holds a number.
pub open spec fn is_number_type(t: TelegramContentType) -> bool {
    !is_text_type(t) && !is_date_type(t)
}

/// Whether `v` is the kind of value that a field of type `t` holds.
pub open spec fn value_fits(t: TelegramContentType, v: Option<ValueView>) -> bool {
    match v {
        Some(ValueView::Text(_)) => is_text_type(t),
        Some(ValueView::Date(_)) => is_date_type(t),
        Some(ValueView::Number(_)) => is_number_type(t),
        None => false,
    }
}

/// The consistency rules of a valid field: its identifier, unit and kind of
/// value agree with its type, and a date keeps its calendar ranges.
pub open spec fn field_valid(f: FieldView) -> bool {
    &&& id_fits(f.content_type, f.id)
    &&& f.unit == unit_of_type(f.content_type)
    &&& value_fits(f.content_type, f.value)
    &&& (f.value matches Some(ValueView::Date(d)) ==> date_in_range(d))
}

impl TelegramContent {
    /// A field holding `value`.
    pub fn new_value(
        telegram_content_type: TelegramContentType,
        id: FieldId,
        value: Value,
        unit: Option<TelegramContentUnit>,
    ) -> (r: Self)
        ensures
            r.telegram_content_type == telegram_content_type,
            r.id == id,
            r.value == Some(value),
            r.unit == unit,
    {
        Self { telegram_content_type, id, value: Some(value), unit }
    }

    fn is_id_correct(&self) -> (r: bool)
        ensures
            r == id_fits(self.telegram_content_type, self.id),
    {
        let (major, minor, index) = self.id;
        match self.telegram_content_type {
            TelegramContentType::Start => major == 1 && minor == 1,
            TelegramContentType::Date => major == 2 && minor == 1 && index.is_none(),
            TelegramContentType::EventlogSeverity => major == 3 && minor == 1 && index.is_some(),
            TelegramContentType::EventlogMessage => major == 3 && minor == 2 && index.is_some(),
            TelegramContentType::EventlogDate => major == 3 && minor == 3 && index.is_some(),
            TelegramContentType::InformationType => major == 4 && minor == 1 && index.is_none(),
            TelegramContentType::Voltage => major == 7 && minor == 1 && index.is_some(),
            TelegramContentType::Current => major == 7 && minor == 2 && index.is_some(),
            TelegramContentType::Power => major == 7 && minor == 3 && index.is_some(),
            TelegramContentType::TotalConsumed => major == 7 && minor == 4 && index == Some(1u32),
            TelegramContentType::TotalProduced => major == 7 && minor == 4 && index == Some(2u32),
            TelegramContentType::GasTotalDelivered => major == 5 && minor == 2 && index.is_none(),
            TelegramContentType::End => major == 1 && minor == 2,
        }
    }

    fn is_unit_correct(&self) -> (r: bool)
        ensures
            r == (self.unit == unit_of_type(self.telegram_content_type)),
    {
        let expected = match self.telegram_content_type {
            TelegramContentType::Voltage => Some(TelegramContentUnit::V),
            TelegramContentType::Current => Some(TelegramContentUnit::A),
            TelegramContentType::Power => Some(TelegramContentUnit::KW),
            TelegramContentType::TotalConsumed => Some(TelegramContentUnit::KWH),
            TelegramContentType::TotalProduced => Some(TelegramContentUnit::KWH),
            TelegramContentType::GasTotalDelivered => Some(TelegramContentUnit::M3),
            _ => None,
        };
        match (self.unit, expected) {
            (Some(u), Some(e)) => u == e,
            (None, None) => true,
            _ => false,
        }
    }

    fn is_value_correct(&self) -> (r: bool)
        ensures
            r == value_fits(self.telegram_content_type, self@.value),
    {
        let t = self.telegram_content_type;
        let text = match t {
            TelegramContentType::Start
            | TelegramContentType::EventlogSeverity
            | TelegramContentType::EventlogMessage
            | TelegramContentType::InformationType
            | TelegramContentType::End => true,
            _ => false,
        };
        let date = match t {
            TelegramContentType::Date | TelegramContentType::EventlogDate => true,
            _ => false,
        };
        match &self.value {
            Some(Value::String(_)) => text,
            Some(Value::Date(_)) => date,
            Some(Value::Number(_)) => !text && !date,
            None => false,
        }
    }

    /// Whether the field obeys the consistency rules.
    pub fn validate(&self) -> (r: bool)
        ensures
            r == field_valid(self@),
    {
        let id_check = self.is_id_correct();
        let unit_check = self.is_unit_correct();
        let value_check = self.is_value_correct();
        let date_check = match &self.value {
            Some(Value::Date(d)) => d.validate(),
            _ => true,
        };
        id_check && unit_check && value_check && date_check
    }
}

/// The fields that every telegram carries, with its event-log entries keyed
/// by event id.
pub struct TelegramBase {
    pub start: TelegramContent,
    pub date: TelegramContent,
    pub eventlog_severities: Vec<(u32, TelegramContent)>,
    pub eventlog_messages: Vec<(u32, TelegramContent)>,
    pub eventlog_dates: Vec<(u32, TelegramContent)>,
    pub information_type: TelegramContent,
    pub end: TelegramContent,
}

impl TelegramBase {
    /// The fixed fields and event-log entries of a telegram.
    pub fn new(
        start: TelegramContent,
        date: TelegramContent,
        eventlog_severities: Vec<(u32, TelegramContent)>,
        eventlog_messages: Vec<(u32, TelegramContent)>,
        eventlog_dates: Vec<(u32, TelegramContent)>,
        information_type: TelegramContent,
        end: TelegramContent,
    ) -> (r: Self)
        ensures
            r == (TelegramBase {
                start,
                date,
                eventlog_severities,
                eventlog_messages,
                eventlog_dates,
                information_type,
                end,
            }),
    {
        Self {
            start,
            date,
            eventlog_severities,
            eventlog_messages,
            eventlog_dates,
            information_type,
            end,
        }
    }
}

/// The readings of a telegram: a full electricity set or a gas total.
pub enum TelegramData {
    Electricity {
        voltages: [TelegramContent; 3],
        currents: [TelegramContent; 3],
        powers: [TelegramContent; 3],
        total_consumed: TelegramContent,
        total_produced: TelegramContent,
    },
    Gas { total_gas_delivered: TelegramContent },
}

/// One complete telegram.
pub struct Telegram {
    pub base: TelegramBase,
    pub data: TelegramData,
}

impl Telegram {
    /// A telegram of the given fields and readings.
    pub fn new(base: TelegramBase, data: TelegramData) -> (r: Self)
        ensures
            r == (Telegram { base, data }),
    {
        Self { base, data }
    }
}

/// The views of a sequence of fields.
pub open spec fn field_views(s: Seq<TelegramContent>) -> Seq<FieldView> {
    s.map_values(|c: TelegramContent| c@)
}

/// The views of a sequence of keyed fields.
pub open spec fn keyed_views(s: Seq<(u32, TelegramContent)>) -> Seq<(u32, FieldView)> {
    s.map_values(|e: (u32, TelegramContent)| (e.0, e.1@))
}

/// What the fixed fields and event-log entries of a telegram hold.
pub struct BaseView {
    pub start: FieldView,
    pub date: FieldView,
    pub eventlog_severities: Seq<(u32, FieldView)>,
    pub eventlog_messages: Seq<(u32, FieldView)>,
    pub eventlog_dates: Seq<(u32, FieldView)>,
    pub information_type: FieldView,
    pub end: FieldView,
}

impl View for TelegramBase {
    type V = BaseView;

    open spec fn view(&self) -> BaseView {
        BaseView {
            start: self.start@,
            date: self.date@,
            eventlog_severities: keyed_views(self.eventlog_severities@),
            eventlog_messages: keyed_views(self.eventlog_messages@),
            eventlog_dates: keyed_views(self.eventlog_dates@),
            information_type: self.information_type@,
            end: self.end@,
        }
    }
}

/// What the readings of a telegram hold.
pub enum DataView {
    Electricity {
        voltages: Seq<FieldView>,
        currents: Seq<FieldView>,
        powers: Seq<FieldView>,
        total_consumed: FieldView,
        total_produced: FieldView,
    },
    Gas { total_gas_delivered: FieldView },
}

impl View for TelegramData {
    type V = DataView;

    open spec fn view(&self) -> DataView {
        match self {
            TelegramData::Electricity {
                voltages,
                currents,
                powers,
                total_consumed,
                total_produced,
            } => DataView::Electricity {
                voltages: field_views(voltages@),
                currents: field_views(currents@),
                powers: field_views(powers@),
                total_consumed: total_consumed@,
                total_produced: total_produced@,
            },
            TelegramData::Gas { total_gas_delivered } => DataView::Gas {
                total_gas_delivered: total_gas_delivered@,
            },
        }
    }
}

/// What a telegram holds.
pub struct TelegramView {
    pub base: BaseView,
    pub data: DataView,
}

impl View for Telegram {
    type V = TelegramView;

    open spec fn view(&self) -> TelegramView {
        TelegramView { base: self.base@, data: self.data@ }
    }
}

/// The views of a sequence of telegrams.
pub open spec fn telegram_views(s: Seq<Telegram>) -> Seq<TelegramView> {
    s.map_values(|t: Telegram| t@)
}

} // verus!
