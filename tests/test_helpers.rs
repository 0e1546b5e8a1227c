use dsmr::error::DsmrError;
use dsmr::helpers::{
    decode_message, process_currents, process_energy_data, process_event_logs, process_gas_data,
    process_voltages,
};
use dsmr::telegram::{
    Date, Telegram, TelegramBase, TelegramContent, TelegramContentType, TelegramContentUnit,
    TelegramData, Value,
};
use TelegramContentType as T;
use TelegramContentUnit as U;

fn fixed(x: f64) -> i128 {
    (x * 1e10).round() as i128
}

fn date(day: u8, hour: u8) -> Date {
    Date::new(2023, 7, day, hour, 26, 41, true).unwrap()
}

#[test]
fn test_decode_message_simple() {
    let encoded = "48656c6c6f".to_string();
    let result = decode_message(&encoded).unwrap();
    assert_eq!(result, "Hello");
}

#[test]
fn test_decode_message_power_failure() {
    let encoded = "506f776572204661696c757265".to_string();
    let result = decode_message(&encoded).unwrap();
    assert_eq!(result, "Power Failure");
}

#[test]
fn decode_message_twice_agrees() {
    let encoded = "48656c6c6f".to_string();
    let first = decode_message(&encoded).unwrap();
    let second = decode_message(&encoded).unwrap();
    assert_eq!(first, "Hello");
    assert_eq!(first, second);
}

#[test]
fn decode_message_odd_length_is_encoding_error() {
    let encoded = "48656c6c6".to_string();
    assert_eq!(decode_message(&encoded), Err(DsmrError::EncodingError));
}

#[test]
fn decode_message_invalid_digit_is_encoding_error() {
    let encoded = "48zz".to_string();
    assert_eq!(decode_message(&encoded), Err(DsmrError::EncodingError));
}

#[test]
fn decode_message_upper_case_digits() {
    let encoded = "4F4B".to_string();
    assert_eq!(decode_message(&encoded).unwrap(), "OK");
}

#[test]
fn test_process_voltages_single_telegram() {
    let telegram = create_test_electricity_telegram(
        1234567890,
        [230.1, 231.2, 229.8],
        [5.0, 6.0, 4.5],
        [1.15, 1.38, 1.04],
        12345.67,
        123.45,
    );

    let voltages = process_voltages(&[telegram]);
    assert_eq!(voltages.len(), 1);
    assert_eq!(voltages[0].phase_1, fixed(230.1));
    assert_eq!(voltages[0].phase_2, fixed(231.2));
    assert_eq!(voltages[0].phase_3, fixed(229.8));
}

#[test]
fn test_process_voltages_duplicate_timestamp() {
    let telegram1 = create_test_electricity_telegram(
        1234567890,
        [230.0, 231.0, 229.0],
        [5.0, 6.0, 4.5],
        [1.15, 1.38, 1.04],
        12345.67,
        123.45,
    );
    let telegram2 = create_test_electricity_telegram(
        1234567890,
        [235.0, 236.0, 234.0],
        [5.1, 6.1, 4.6],
        [1.16, 1.39, 1.05],
        12346.67,
        124.45,
    );

    let voltages = process_voltages(&[telegram1, telegram2]);
    assert_eq!(voltages.len(), 2);
    assert_eq!(voltages[1].phase_1, fixed(235.0));
    assert_eq!(voltages[1].phase_2, fixed(236.0));
    assert_eq!(voltages[1].phase_3, fixed(234.0));
    assert_eq!(voltages[0].phase_1, fixed(230.0));
}

#[test]
fn process_voltages_duplicate_keeps_phase_maximum() {
    let telegram1 = create_test_electricity_telegram(
        0,
        [235.0, 229.0, 231.0],
        [5.0, 6.0, 4.5],
        [1.15, 1.38, 1.04],
        12345.67,
        123.45,
    );
    let telegram2 = create_test_electricity_telegram(
        0,
        [230.0, 236.0, 230.0],
        [5.0, 6.0, 4.5],
        [1.15, 1.38, 1.04],
        12345.67,
        123.45,
    );
    let voltages = process_voltages(&[telegram1, telegram2]);
    assert_eq!(voltages.len(), 2);
    assert_eq!(voltages[1].phase_1, fixed(235.0));
    assert_eq!(voltages[1].phase_2, fixed(236.0));
    assert_eq!(voltages[1].phase_3, fixed(231.0));
}

#[test]
fn test_process_voltages_multiple_telegrams() {
    let telegram1 = create_test_electricity_telegram(
        1234567890,
        [230.0, 231.0, 229.0],
        [5.0, 6.0, 4.5],
        [1.15, 1.38, 1.04],
        12345.67,
        123.45,
    );
    let telegram2 = create_test_electricity_telegram(
        1234567900,
        [232.0, 233.0, 231.0],
        [5.2, 6.2, 4.7],
        [1.19, 1.42, 1.08],
        12346.67,
        124.45,
    );

    let voltages = process_voltages(&[telegram1, telegram2]);
    assert_eq!(voltages.len(), 2);
    assert_eq!(voltages[0].phase_1, fixed(230.0));
    assert_eq!(voltages[1].phase_1, fixed(232.0));
}

#[test]
fn process_voltages_distinct_times_are_not_merged() {
    let mut telegram1 = create_test_electricity_telegram(
        0,
        [240.0, 240.0, 240.0],
        [5.0, 6.0, 4.5],
        [1.15, 1.38, 1.04],
        12345.67,
        123.45,
    );
    telegram1.base.date = date_field(date(5, 10));
    let mut telegram2 = create_test_electricity_telegram(
        0,
        [230.0, 231.0, 229.0],
        [5.0, 6.0, 4.5],
        [1.15, 1.38, 1.04],
        12345.67,
        123.45,
    );
    telegram2.base.date = date_field(date(5, 11));
    let voltages = process_voltages(&[telegram1, telegram2]);
    assert_eq!(voltages.len(), 2);
    assert_eq!(voltages[1].phase_1, fixed(230.0));
    assert!(voltages[0].timestamp < voltages[1].timestamp);
}

#[test]
fn test_process_currents_single_telegram() {
    let telegram = create_test_electricity_telegram(
        1234567890,
        [230.1, 231.2, 229.8],
        [5.0, 6.0, 4.5],
        [1.15, 1.38, 1.04],
        12345.67,
        123.45,
    );

    let currents = process_currents(&[telegram]);
    assert_eq!(currents.len(), 1);
    assert_eq!(currents[0].phase_1, fixed(5.0));
    assert_eq!(currents[0].phase_3, fixed(4.5));
}

#[test]
fn test_process_currents_multiple_telegrams() {
    let telegram1 = create_test_electricity_telegram(
        1234567890,
        [230.1, 231.2, 229.8],
        [5.0, 6.0, 4.5],
        [1.15, 1.38, 1.04],
        12345.67,
        123.45,
    );
    let telegram2 = create_test_electricity_telegram(
        1234567900,
        [230.5, 231.6, 230.2],
        [5.2, 6.2, 4.7],
        [1.19, 1.42, 1.08],
        12346.67,
        124.45,
    );

    let currents = process_currents(&[telegram1, telegram2]);
    assert_eq!(currents.len(), 2);
    assert_eq!(currents[1].phase_1, fixed(5.2));
}

#[test]
fn test_process_gas_data_single_telegram() {
    let telegram = create_test_gas_telegram(1234567890, 12345.123);

    let gas = process_gas_data(&[telegram]);
    assert!(gas.is_empty());
}

#[test]
fn test_process_gas_data_multiple_telegrams() {
    let telegram1 = create_test_gas_telegram(1234567890, 12345.123);
    let telegram2 = create_test_gas_telegram(2234567900, 22345.456);

    let gas = process_gas_data(&[telegram1, telegram2]);
    assert_eq!(gas.len(), 1);
    assert_eq!(gas[0].gas_delta, fixed(10000.333));
}

#[test]
fn process_gas_data_delta_between_two_times() {
    let mut telegram1 = create_test_gas_telegram(0, 12345.123);
    telegram1.base.date = date_field(date(5, 10));
    let mut telegram2 = create_test_gas_telegram(0, 12346.456);
    telegram2.base.date = date_field(date(5, 11));
    let gas = process_gas_data(&[telegram1, telegram2]);
    assert_eq!(gas.len(), 1);
    assert_eq!(gas[0].gas_delta, 13_330_000_000);
    assert_eq!(gas[0].timestamp, date(5, 11).timestamp);
}

#[test]
fn test_process_energy_data_single_telegram() {
    let telegram = create_test_electricity_telegram(
        1234567890,
        [230.1, 231.2, 229.8],
        [5.0, 6.0, 4.5],
        [1.15, 1.38, 1.04],
        12345.67,
        123.45,
    );

    let energy = process_energy_data(&[telegram]);
    assert!(energy.is_empty());
}

#[test]
fn test_process_energy_data_multiple_telegrams() {
    let telegram1 = create_test_electricity_telegram(
        1234567890,
        [230.1, 231.2, 229.8],
        [5.0, 6.0, 4.5],
        [1.15, 1.38, 1.04],
        12345.67,
        123.45,
    );
    let telegram2 = create_test_electricity_telegram(
        1234567900,
        [230.5, 231.6, 230.2],
        [5.2, 6.2, 4.7],
        [1.19, 1.42, 1.08],
        12346.67,
        124.45,
    );

    // Both telegrams share one time, so their totals are summed into one
    // point and no change can be formed.
    let energy = process_energy_data(&[telegram1, telegram2]);
    assert!(energy.is_empty());
}

fn energy_at(hour: u8, consumed: f64, produced: f64) -> Telegram {
    let mut t = create_test_electricity_telegram(
        0,
        [230.1, 231.2, 229.8],
        [5.0, 6.0, 4.5],
        [1.15, 1.38, 1.04],
        consumed,
        produced,
    );
    t.base.date = date_field(date(5, hour));
    t
}

#[test]
fn process_energy_data_sums_per_time_and_sorts() {
    let telegrams = [
        energy_at(12, 20.0, 2.0),
        energy_at(10, 10.0, 1.0),
        energy_at(12, 5.0, 0.5),
        energy_at(11, 13.0, 1.5),
    ];
    let energy = process_energy_data(&telegrams);
    assert_eq!(energy.len(), 2);
    assert_eq!(energy[0].timestamp, date(5, 11).timestamp);
    assert_eq!(energy[0].consumed, fixed(3.0));
    assert_eq!(energy[0].produced, fixed(0.5));
    assert_eq!(energy[1].timestamp, date(5, 12).timestamp);
    assert_eq!(energy[1].consumed, fixed(12.0));
    assert_eq!(energy[1].produced, fixed(1.0));
}

#[test]
fn process_energy_data_keeps_last_twelve() {
    let telegrams: Vec<Telegram> =
        (0..14u8).map(|h| energy_at(h, 100.0 + (h as f64) * (h as f64), h as f64)).collect();
    let energy = process_energy_data(&telegrams);
    assert_eq!(energy.len(), 12);
    for (k, point) in energy.iter().enumerate() {
        let h = (k + 2) as u8;
        assert_eq!(point.timestamp, date(5, h).timestamp);
        assert_eq!(point.consumed, fixed((2 * h as i64 - 1) as f64));
        assert_eq!(point.produced, fixed(1.0));
    }
}

#[test]
fn test_process_voltages_with_none_values() {
    let mut telegram = create_test_electricity_telegram(
        1234567890,
        [230.1, 231.2, 229.8],
        [5.0, 6.0, 4.5],
        [1.15, 1.38, 1.04],
        12345.67,
        123.45,
    );

    if let TelegramData::Electricity { ref mut voltages, .. } = telegram.data {
        voltages[0].value = None;
        voltages[1].value = None;
        voltages[2].value = None;
    }

    let result = process_voltages(&[telegram]);
    assert_eq!(result.len(), 0);
}

#[test]
fn test_process_currents_with_none_values() {
    let mut telegram = create_test_electricity_telegram(
        1234567890,
        [230.1, 231.2, 229.8],
        [5.0, 6.0, 4.5],
        [1.15, 1.38, 1.04],
        12345.67,
        123.45,
    );

    if let TelegramData::Electricity { ref mut currents, .. } = telegram.data {
        currents[0].value = None;
        currents[1].value = None;
        currents[2].value = None;
    }

    let result = process_currents(&[telegram]);
    assert_eq!(result.len(), 0);
}

#[test]
fn test_process_gas_data_with_none_value() {
    let mut telegram = create_test_gas_telegram(1234567890, 12345.123);

    if let TelegramData::Gas { ref mut total_gas_delivered } = telegram.data {
        total_gas_delivered.value = None;
    }

    let result = process_gas_data(&[telegram]);
    assert!(result.is_empty());
}

#[test]
fn test_process_energy_data_with_none_values() {
    let mut telegram = create_test_electricity_telegram(
        1234567890,
        [230.1, 231.2, 229.8],
        [5.0, 6.0, 4.5],
        [1.15, 1.38, 1.04],
        12345.67,
        123.45,
    );

    if let TelegramData::Electricity { ref mut total_consumed, ref mut total_produced, .. } =
        telegram.data
    {
        total_consumed.value = None;
        total_produced.value = None;
    }

    let result = process_energy_data(&[telegram]);
    assert!(result.is_empty());
}

fn content(
    t: TelegramContentType,
    id: (u32, u32, Option<u32>),
    value: Value,
    unit: Option<TelegramContentUnit>,
) -> TelegramContent {
    TelegramContent::new_value(t, id, value, unit)
}

fn date_field(d: Date) -> TelegramContent {
    content(TelegramContentType::Date, (2, 1, None), Value::Date(d), None)
}

fn text(s: &str) -> Value {
    Value::String(s.to_string())
}

fn create_test_electricity_telegram(
    _timestamp: u64,
    voltages: [f64; 3],
    currents: [f64; 3],
    powers: [f64; 3],
    total_consumed: f64,
    total_produced: f64,
) -> Telegram {
    Telegram::new(
        TelegramBase::new(
            content(T::Start, (1, 1, Some(0)), text("START"), None),
            date_field(Date::new(2023, 7, 5, 15, 26, 41, true).unwrap()),
            vec![],
            vec![],
            vec![],
            content(T::InformationType, (4, 1, None), text("E"), None),
            content(T::End, (1, 2, Some(0)), text("END"), None),
        ),
        TelegramData::Electricity {
            voltages: [
                content(T::Voltage, (7, 1, Some(1)), Value::Number(fixed(voltages[0])), Some(U::V)),
                content(T::Voltage, (7, 1, Some(2)), Value::Number(fixed(voltages[1])), Some(U::V)),
                content(T::Voltage, (7, 1, Some(3)), Value::Number(fixed(voltages[2])), Some(U::V)),
            ],
            currents: [
                content(T::Current, (7, 2, Some(1)), Value::Number(fixed(currents[0])), Some(U::A)),
                content(T::Current, (7, 2, Some(2)), Value::Number(fixed(currents[1])), Some(U::A)),
                content(T::Current, (7, 2, Some(3)), Value::Number(fixed(currents[2])), Some(U::A)),
            ],
            powers: [
                content(T::Power, (7, 3, Some(1)), Value::Number(fixed(powers[0])), Some(U::KW)),
                content(T::Power, (7, 3, Some(2)), Value::Number(fixed(powers[1])), Some(U::KW)),
                content(T::Power, (7, 3, Some(3)), Value::Number(fixed(powers[2])), Some(U::KW)),
            ],
            total_consumed: content(
                T::TotalConsumed,
                (7, 4, Some(1)),
                Value::Number(fixed(total_consumed)),
                Some(U::KWH),
            ),
            total_produced: content(
                T::TotalProduced,
                (7, 4, Some(2)),
                Value::Number(fixed(total_produced)),
                Some(U::KWH),
            ),
        },
    )
}

fn create_test_gas_telegram(_timestamp: u64, gas_total: f64) -> Telegram {
    Telegram::new(
        TelegramBase::new(
            content(T::Start, (1, 1, Some(1)), text("START"), None),
            date_field(Date::new(2023, 7, 5, 15, 26, 41, true).unwrap()),
            vec![],
            vec![],
            vec![],
            content(T::InformationType, (4, 1, None), text("G"), None),
            content(T::End, (1, 2, Some(1)), text("END"), None),
        ),
        TelegramData::Gas {
            total_gas_delivered: content(
                T::GasTotalDelivered,
                (5, 2, None),
                Value::Number(fixed(gas_total)),
                Some(TelegramContentUnit::M3),
            ),
        },
    )
}

fn create_test_telegram_with_eventlog(event_id: u32, severity: String, message: String) -> Telegram {
    let mut t = create_test_electricity_telegram(
        0,
        [230.1, 231.2, 229.8],
        [5.0, 6.0, 4.5],
        [1.15, 1.38, 1.04],
        12345.67,
        123.45,
    );
    t.base.eventlog_severities =
        vec![(event_id, content(T::EventlogSeverity, (3, 1, Some(event_id)), Value::String(severity), None))];
    t.base.eventlog_messages =
        vec![(event_id, content(T::EventlogMessage, (3, 2, Some(event_id)), Value::String(message), None))];
    t.base.eventlog_dates = vec![(
        event_id,
        content(
            T::EventlogDate,
            (3, 3, Some(event_id)),
            Value::Date(Date::new(2023, 7, 2, 13, 12, 0, true).unwrap()),
            None,
        ),
    )];
    t
}

#[test]
fn test_process_event_logs_high_severity() {
    let telegram = create_test_telegram_with_eventlog(1, "H".to_string(), "48656c6c6f".to_string());
    let log = process_event_logs(&[telegram]).unwrap();
    assert_eq!(log.high, vec!["Hello".to_string()]);
    assert!(log.low.is_empty());
}

#[test]
fn test_process_event_logs_low_severity() {
    let telegram = create_test_telegram_with_eventlog(1, "L".to_string(), "576f726c64".to_string());
    let log = process_event_logs(&[telegram]).unwrap();
    assert!(log.high.is_empty());
    assert_eq!(log.low, vec!["World".to_string()]);
}

#[test]
fn process_event_logs_missing_message_is_missing_correlation() {
    let mut telegram =
        create_test_telegram_with_eventlog(1, "H".to_string(), "48656c6c6f".to_string());
    telegram.base.eventlog_messages.clear();
    assert!(matches!(process_event_logs(&[telegram]), Err(DsmrError::MissingCorrelation)));
}

#[test]
fn process_event_logs_severity_without_date_is_missing_correlation() {
    let mut telegram =
        create_test_telegram_with_eventlog(1, "H".to_string(), "48656c6c6f".to_string());
    telegram.base.eventlog_dates.clear();
    assert!(matches!(process_event_logs(&[telegram]), Err(DsmrError::MissingCorrelation)));
}

#[test]
fn process_event_logs_odd_message_is_encoding_error() {
    let telegram = create_test_telegram_with_eventlog(1, "H".to_string(), "48656".to_string());
    assert!(matches!(process_event_logs(&[telegram]), Err(DsmrError::EncodingError)));
}

#[test]
fn process_event_logs_unknown_severity_is_format_error() {
    let telegram = create_test_telegram_with_eventlog(1, "X".to_string(), "4142".to_string());
    assert!(matches!(process_event_logs(&[telegram]), Err(DsmrError::FormatError(_))));
}

#[test]
fn test_process_voltages_with_gas_telegrams() {
    let gas_telegram = create_test_gas_telegram(1234567890, 12345.123);
    let voltages = process_voltages(&[gas_telegram]);
    assert_eq!(voltages.len(), 0);
}

#[test]
fn test_process_currents_with_gas_telegrams() {
    let gas_telegram = create_test_gas_telegram(1234567890, 12345.123);
    let currents = process_currents(&[gas_telegram]);
    assert!(currents.is_empty());
}

#[test]
fn test_process_gas_data_with_electricity_telegrams() {
    let electricity_telegram = create_test_electricity_telegram(
        1234567890,
        [230.1, 231.2, 229.8],
        [5.0, 6.0, 4.5],
        [1.15, 1.38, 1.04],
        12345.67,
        123.45,
    );
    let gas = process_gas_data(&[electricity_telegram]);
    assert!(gas.is_empty());
}

#[test]
fn test_process_energy_data_with_gas_telegrams() {
    let gas_telegram = create_test_gas_telegram(1234567890, 12345.123);
    let energy = process_energy_data(&[gas_telegram]);
    assert!(energy.is_empty());
}
