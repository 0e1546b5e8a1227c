use dsmr::error::DsmrError;
use dsmr::parser::{
    build_telegram, determine_content_type, parse, parse_date, parse_header, parse_id,
    parse_line, parse_unit, ParserConfig,
};
use dsmr::primitives::{TDate, TString};
use dsmr::telegram::{
    Date, Telegram, TelegramBase, TelegramContent, TelegramContentType, TelegramContentUnit,
    TelegramData, Value,
};
use dsmr::traits::Wrapper;
use TelegramContentType as T;

fn fixed(x: f64) -> i128 {
    (x * 1e10).round() as i128
}

#[test]
fn test_telegram_content_string() {
    let t = TelegramContent::new_value(
        TelegramContentType::Start,
        (1, 1, Some(0)),
        Value::String(String::from("START")),
        Option::None,
    );
    assert_eq!(true, t.validate());
}

#[test]
fn test_telegram_content_tdate() {
    let t = TelegramContent::new_value(
        TelegramContentType::EventlogDate,
        (3, 3, Some(1)),
        Value::Date(Date::new(1, 1, 1, 1, 1, 1, false).unwrap()),
        None,
    );
    assert_eq!(true, t.validate());
}

#[test]
fn test_telegram_content_f32() {
    let t = TelegramContent::new_value(
        TelegramContentType::Power,
        (7, 3, Some(1)),
        Value::Number(fixed(1.0)),
        Some(TelegramContentUnit::KW),
    );
    assert_eq!(true, t.validate());
}

#[test]
fn telegram_content_wrong_unit_is_invalid() {
    let t = TelegramContent::new_value(
        TelegramContentType::Power,
        (7, 3, Some(1)),
        Value::Number(fixed(1.0)),
        Some(TelegramContentUnit::V),
    );
    assert!(!t.validate());
    let missing = TelegramContent::new_value(
        TelegramContentType::Voltage,
        (7, 1, Some(1)),
        Value::Number(fixed(230.0)),
        None,
    );
    assert!(!missing.validate());
}

#[test]
fn test_telegram_constructor() {
    let f = |t, id, v| TelegramContent::new_value(t, id, v, None);
    let _t = Telegram::new(
        TelegramBase::new(
            f(T::Start, (1, 1, Some(0)), Value::String("START".to_string())),
            f(T::Date, (2, 1, None), Value::Date(Date::new(2002, 2, 14, 0, 0, 0, true).unwrap())),
            vec![(1, f(T::EventlogSeverity, (3, 1, Some(1)), Value::String("H".to_string())))],
            vec![(
                1,
                f(
                    T::EventlogMessage,
                    (3, 2, Some(1)),
                    Value::String("Power outage detected".to_string()),
                ),
            )],
            vec![(
                1,
                f(
                    T::EventlogDate,
                    (3, 3, Some(1)),
                    Value::Date(Date::new(2002, 2, 14, 14, 30, 0, true).unwrap()),
                ),
            )],
            f(T::InformationType, (4, 1, None), Value::String("E".to_string())),
            f(T::End, (1, 2, Some(0)), Value::String("END".to_string())),
        ),
        TelegramData::Electricity {
            voltages: [
                f(T::Voltage, (7, 1, Some(1)), Value::Number(fixed(230.5))),
                f(T::Voltage, (7, 1, Some(2)), Value::Number(fixed(231.2))),
                f(T::Voltage, (7, 1, Some(3)), Value::Number(fixed(229.8))),
            ],
            currents: [
                f(T::Current, (7, 2, Some(1)), Value::Number(fixed(15.3))),
                f(T::Current, (7, 2, Some(2)), Value::Number(fixed(12.7))),
                f(T::Current, (7, 2, Some(3)), Value::Number(fixed(14.1))),
            ],
            powers: [
                f(T::Power, (7, 3, Some(1)), Value::Number(fixed(3.524))),
                f(T::Power, (7, 3, Some(2)), Value::Number(fixed(2.937))),
                f(T::Power, (7, 3, Some(3)), Value::Number(fixed(3.240))),
            ],
            total_consumed: f(T::TotalConsumed, (7, 4, Some(1)), Value::Number(fixed(12345.67))),
            total_produced: f(T::TotalProduced, (7, 4, Some(2)), Value::Number(fixed(0.0))),
        },
    );
}

#[test]
fn test_parse_header_v10() {
    let result = parse_header("/v10\\").unwrap();
    assert_eq!(result.version, (1, 0));
    assert_eq!(result.is_gas, false);
    assert_eq!(result.is_recursive, false);
}

#[test]
fn test_parse_header_v12_with_gas() {
    let result = parse_header("/v12\\+g").unwrap();
    assert_eq!(result.version, (1, 2));
    assert_eq!(result.is_gas, true);
    assert_eq!(result.is_recursive, false);
}

#[test]
fn test_parse_header_v12_with_recursive() {
    let result = parse_header("/v12\\+r").unwrap();
    assert_eq!(result.version, (1, 2));
    assert_eq!(result.is_gas, false);
    assert_eq!(result.is_recursive, true);
}

#[test]
fn test_parse_header_v12_with_gas_and_recursive() {
    let result = parse_header("/v12\\+gr").unwrap();
    assert_eq!(result.version, (1, 2));
    assert_eq!(result.is_gas, true);
    assert_eq!(result.is_recursive, true);
}

#[test]
fn parse_header_round_trips_every_form() {
    let cases = [
        ("/v10\\", (1, 0), false, false),
        ("/v12\\", (1, 2), false, false),
        ("/v12\\+g", (1, 2), true, false),
        ("/v12\\+r", (1, 2), false, true),
        ("/v12\\+gr", (1, 2), true, true),
        ("/v12\\+rg", (1, 2), true, true),
    ];
    for (text, version, gas, recursive) in cases {
        let c = parse_header(text).unwrap();
        assert_eq!((c.version, c.is_gas, c.is_recursive), (version, gas, recursive));
    }
}

#[test]
fn parse_header_refuses_bad_forms() {
    for text in ["v12\\", "/v12 \\", "/v12\\+x", "/v12\\+g+r", "/v12", "/v12\\+", "/v10\\+r"] {
        assert!(matches!(parse_header(text), Err(DsmrError::FormatError(_))), "{}", text);
    }
}

#[test]
fn test_parse_header_invalid_version() {
    let result = parse_header("/v11\\");
    assert!(result.is_err());
}

#[test]
fn test_parse_header_invalid_extension_for_v10() {
    let result = parse_header("/v10\\+g");
    assert!(result.is_err());
}

#[test]
fn test_parse_id_two_parts() {
    let result = parse_id("2.1").unwrap();
    assert_eq!(result, (2, 1, None));
}

#[test]
fn test_parse_id_three_parts() {
    let result = parse_id("7.1.3").unwrap();
    assert_eq!(result, (7, 1, Some(3)));
}

#[test]
fn test_parse_id_invalid_format() {
    let result = parse_id("invalid");
    assert!(result.is_err());
}

#[test]
fn parse_id_refuses_wrong_part_counts_and_overflow() {
    assert!(parse_id("7").is_err());
    assert!(parse_id("7.1.2.3").is_err());
    assert!(parse_id("4294967296.1").is_err());
    assert_eq!(parse_id("4294967295.1").unwrap(), (4294967295, 1, None));
    assert_eq!(parse_id("+7.01").unwrap(), (7, 1, None));
}

#[test]
fn test_parse_unit_voltage() {
    let result = parse_unit("V").unwrap();
    assert_eq!(result, TelegramContentUnit::V);
}

#[test]
fn test_parse_unit_case_insensitive() {
    let result = parse_unit("kwh").unwrap();
    assert_eq!(result, TelegramContentUnit::KWH);
}

#[test]
fn test_parse_unit_invalid() {
    let result = parse_unit("INVALID");
    assert!(result.is_err());
}

#[test]
fn test_determine_content_type_voltage() {
    let result = determine_content_type(&(7, 1, Some(1))).unwrap();
    assert_eq!(result, TelegramContentType::Voltage);
}

#[test]
fn test_determine_content_type_gas() {
    let result = determine_content_type(&(5, 2, None)).unwrap();
    assert_eq!(result, TelegramContentType::GasTotalDelivered);
}

#[test]
fn test_determine_content_type_unknown() {
    let result = determine_content_type(&(99, 99, None));
    assert!(result.is_err());
}

#[test]
fn test_parse_date_summer_time() {
    let result = parse_date("23-Jul-05 15:26:41 (S)").unwrap();
    assert_eq!(result.year, 2023);
    assert_eq!(result.month, 7);
    assert_eq!(result.day, 5);
    assert_eq!(result.hour, 15);
    assert_eq!(result.minute, 26);
    assert_eq!(result.seconds, 41);
    assert_eq!(result.dst, true);
}

#[test]
fn test_parse_date_winter_time() {
    let result = parse_date("23-Dec-15 08:30:00 (W)").unwrap();
    assert_eq!(result.year, 2023);
    assert_eq!(result.month, 12);
    assert_eq!(result.day, 15);
    assert_eq!(result.hour, 8);
    assert_eq!(result.minute, 30);
    assert_eq!(result.seconds, 0);
    assert_eq!(result.dst, false);
}

#[test]
fn test_parse_date_invalid_format() {
    let result = parse_date("invalid-date");
    assert!(result.is_err());
}

#[test]
fn parse_date_refuses_impossible_dates() {
    assert!(parse_date("23-Feb-30 10:00:00 (W)").is_err());
    assert!(parse_date("23-Jul-05 24:00:00 (S)").is_err());
    assert!(parse_date("23-Jly-05 10:00:00 (S)").is_err());
    assert!(parse_date("23-Jul-05 10:00:00 (X)").is_err());
    assert!(parse_date("24-Feb-29 10:00:00 (W)").is_ok());
}

#[test]
fn date_timestamp_is_the_absolute_time() {
    let d = Date::new(2023, 7, 5, 15, 26, 41, true).unwrap();
    assert_eq!(d.timestamp, 1688563601);
    let w = Date::new(2023, 7, 5, 15, 26, 41, false).unwrap();
    assert_eq!(w.timestamp, 1688563601 + 3600);
    assert!(Date::new(2023, 2, 29, 0, 0, 0, false).is_err());
}

#[test]
fn test_parse_line_start() {
    let result = parse_line("1.1.0#(START)").unwrap();
    assert_eq!(result.telegram_content_type, TelegramContentType::Start);
    if let Some(Value::String(s)) = result.value {
        assert_eq!(s, "START");
    } else {
        panic!("Expected string value");
    }
}

#[test]
fn test_parse_line_invalid_format() {
    let result = parse_line("invalid_line");
    assert!(result.is_err());
}

#[test]
fn parse_line_reads_each_numeric_grammar() {
    let cases = [
        ("7.1.1#(0230.1*V)", TelegramContentType::Voltage, 230.1),
        ("7.1.2#(242.70*V)", TelegramContentType::Voltage, 242.7),
        ("7.2.1#(15*A)", TelegramContentType::Current, 15.0),
        ("7.2.1#(1.5*A)", TelegramContentType::Current, 1.5),
        ("7.3.1#(03.524*kW)", TelegramContentType::Power, 3.524),
        ("7.3.1#(-03.524*kW)", TelegramContentType::Power, -3.524),
        ("7.4.1#(00012345.67*kWh)", TelegramContentType::TotalConsumed, 12345.67),
        ("7.4.2#(0000000012*kWh)", TelegramContentType::TotalProduced, 12.0),
        ("5.2#(12345.123*m3)", TelegramContentType::GasTotalDelivered, 12345.123),
    ];
    for (line, t, v) in cases {
        let c = parse_line(line).unwrap();
        assert_eq!(c.telegram_content_type, t, "{}", line);
        assert_eq!(c.value, Some(Value::Number(fixed(v))), "{}", line);
        assert!(c.validate());
    }
}

#[test]
fn parse_line_refuses_grammar_violations() {
    for line in [
        "7.1.1#(12.345*V)",
        "7.1.1#(230.10)",
        "7.1.1#(230.1*V)",
        "7.1.1#(230.10*A)",
        "7.1#(230.10*V)",
        "7.2.1#(1.55*A)",
        "5.2#(12345.12*m3)",
        "1.1.0#(BEGIN)",
        "3.1.1#(X)",
        "4.1#(W)",
        "9.9#(1)",
        "7.1.1#230.1*V",
        "7.1.1#(2a0.10*V)",
        "2.1#(23-Jul-05 15:26:41 (Q))",
    ] {
        assert!(matches!(parse_line(line), Err(DsmrError::FormatError(_))), "{}", line);
    }
}

#[test]
fn parse_line_reads_a_date() {
    let c = parse_line("2.1#(23-Jul-05 15:26:41 (S))").unwrap();
    assert_eq!(c.telegram_content_type, TelegramContentType::Date);
    match c.value {
        Some(Value::Date(d)) => {
            assert_eq!((d.year, d.month, d.day, d.hour, d.minute, d.seconds, d.dst), (2023, 7, 5, 15, 26, 41, true));
        }
        _ => panic!("expected a date"),
    }
}

#[test]
fn test_parse_empty_input() {
    let result = parse("");
    assert!(result.is_err());
}

#[test]
fn parse_refuses_empty_input_and_bad_header() {
    assert!(matches!(parse(""), Err(DsmrError::FormatError(_))));
    assert!(matches!(parse("/v13\\\n1.1.0#(START)\n"), Err(DsmrError::FormatError(_))));
}

const ELECTRICITY: &str = "1.1.0#(START)
2.1#(23-Jul-05 15:26:41 (S))
3.1.1#(H)
3.2.1#(506f776572204661696c757265)
3.3.1#(23-Jul-02 13:12:00 (S))
4.1#(E)
7.1.1#(242.70*V)
7.1.2#(241.70*V)
7.1.3#(240.00*V)
7.2.1#(1.5*A)
7.2.2#(2.0*A)
7.2.3#(0.5*A)
7.3.1#(01.000*kW)
7.3.2#(02.000*kW)
7.3.3#(03.000*kW)
7.4.1#(0011454.892*kWh)
7.4.2#(0000001.245*kWh)
1.2.0#(END)
";

#[test]
fn parse_reads_an_electricity_telegram() {
    let input = format!("/v12\\\n{}\n{}", ELECTRICITY, ELECTRICITY);
    let telegrams = parse(&input).unwrap();
    assert_eq!(telegrams.len(), 2);
    match &telegrams[0].data {
        TelegramData::Electricity { voltages, total_consumed, .. } => {
            assert_eq!(voltages[0].value, Some(Value::Number(fixed(242.7))));
            assert_eq!(total_consumed.value, Some(Value::Number(fixed(11454.892))));
        }
        _ => panic!("expected an electricity telegram"),
    }
    assert_eq!(telegrams[0].base.eventlog_messages.len(), 1);
    assert_eq!(telegrams[0].base.eventlog_messages[0].0, 1);
}

#[test]
fn parse_refuses_two_voltages_as_incomplete() {
    let short = ELECTRICITY.replace("7.1.3#(240.00*V)\n", "");
    let input = format!("/v12\\\n{}", short);
    assert!(matches!(parse(&input), Err(DsmrError::IncompleteTelegram)));
}

#[test]
fn parse_refuses_gas_without_extension() {
    let gas = "1.1.1#(START)\n2.1#(23-Jul-05 15:26:41 (S))\n4.1#(G)\n5.2#(12345.123*m3)\n1.2.1#(END)\n";
    assert!(matches!(parse(&format!("/v12\\\n{}", gas)), Err(DsmrError::UnsupportedExtension)));
    let telegrams = parse(&format!("/v12\\+g\n{}", gas)).unwrap();
    assert_eq!(telegrams.len(), 1);
    assert!(matches!(telegrams[0].data, TelegramData::Gas { .. }));
}

#[test]
fn parse_nesting_needs_recursive_extension() {
    let gas = "1.1.1#(START)\n2.1#(23-Jul-05 15:26:41 (S))\n4.1#(G)\n5.2#(12345.123*m3)\n1.2.1#(END)\n";
    let nested = ELECTRICITY.replace("1.2.0#(END)\n", &format!("{}1.2.0#(END)\n", gas));
    assert!(matches!(
        parse(&format!("/v12\\+g\n{}", nested)),
        Err(DsmrError::UnsupportedExtension)
    ));
    let telegrams = parse(&format!("/v12\\+gr\n{}", nested)).unwrap();
    assert_eq!(telegrams.len(), 2);
    assert!(matches!(telegrams[0].data, TelegramData::Electricity { .. }));
    assert!(matches!(telegrams[1].data, TelegramData::Gas { .. }));
}

#[test]
fn parse_skips_blank_lines_and_refuses_stray_fields() {
    let input = format!("/v12\\\r\n\n   \n{}", ELECTRICITY.replace('\n', "\r\n"));
    assert_eq!(parse(&input).unwrap().len(), 1);
    assert!(matches!(parse("/v12\\\n4.1#(E)\n"), Err(DsmrError::FormatError(_))));
    assert!(matches!(parse("/v12\\\n7.1.1#(12.345*V)\n"), Err(DsmrError::FormatError(_))));
}

#[test]
fn build_telegram_refuses_both_gas_and_electricity() {
    let mut fields: Vec<TelegramContent> =
        ELECTRICITY.lines().map(|l| parse_line(l).unwrap()).collect();
    fields.push(parse_line("5.2#(12345.123*m3)").unwrap());
    assert!(matches!(build_telegram(fields), Err(DsmrError::IncompleteTelegram)));
}

#[test]
fn test_parser_config_v10_with_extensions_error() {
    let result = ParserConfig::new((1, 0), true, false);
    assert!(result.is_err());
}

#[test]
fn test_parser_config_v12_valid() {
    let result = ParserConfig::new((1, 2), true, true).unwrap();
    assert_eq!(result.version, (1, 2));
    assert_eq!(result.is_gas, true);
    assert_eq!(result.is_recursive, true);
}

#[test]
fn primitives_wrap_their_values() {
    let d = TDate::new(2023, 7, 5, 15, 26, 41, true);
    assert_eq!(TDate::wrap(d, TelegramContentType::Date), d);
    let s = TString::wrap("START".to_string(), TelegramContentType::Start);
    assert_eq!(s.value, "START");
    assert_eq!(s.telegram_content_type, TelegramContentType::Start);
}
