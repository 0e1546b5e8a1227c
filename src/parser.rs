//! The header, line and date grammars, the assembly of telegrams from their
//! fields, and the document parser that drives them.
use vstd::prelude::*;

use crate::error::{parse_error, DsmrError};
use crate::telegram::{
    field_valid, field_views, is_calendar_date, is_date_type, is_text_type, keyed_views,
    telegram_views, BaseView, DataView, Date, FieldId, FieldView, Telegram, TelegramBase,
    TelegramContent, TelegramContentType, TelegramContentUnit, TelegramData, TelegramView, Value,
    ValueView,
};
use crate::text::{
    all_digits, chars_of, decimal_value, digits_value, has_char, is_digit, lemma_split_nonempty,
    parse_decimal, parse_unsigned, same_chars, split, split_on, strip_parens, strip_parens_of,
    unsigned_upto, views,
};

verus! {

/// The protocol version and the extensions that a document enables.
#[derive(Clone, Copy, Debug, PartialEq, Eq)]
pub struct ParserConfig {
    pub version: (u32, u32),
    pub is_gas: bool,
    pub is_recursive: bool,
}

/// Whether a configuration is allowed: version 1.0 enables no extension.
pub open spec fn config_allowed(version: (u32, u32), is_gas: bool, is_recursive: bool) -> bool {
    !(version == (1u32, 0u32) && (is_gas || is_recursive))
}

impl ParserConfig {
    /// The configuration with the given version and extensions; fails when
    /// version 1.0 would enable an extension.
    pub fn new(version: (u32, u32), is_gas: bool, is_recursive: bool) -> (r: Result<
        ParserConfig,
        DsmrError,
    >)
        ensures
            r is Ok <==> config_allowed(version, is_gas, is_recursive),
            r matches Ok(c) ==> c == (ParserConfig { version, is_gas, is_recursive }),
            r matches Err(e) ==> e is FormatError,
    {
        if version.0 == 1 && version.1 == 0 && (is_gas || is_recursive) {
            return Err(parse_error("Protocol version 1.0 does not support extensions"));
        }
        Ok(ParserConfig { version, is_gas, is_recursive })
    }
}

/// The extensions that a header suffix names: `g`, `r`, `gr` or `rg`.
pub open spec fn extensions_of(s: Seq<char>) -> Option<(bool, bool)> {
    if s == seq!['g'] {
        Some((true, false))
    } else if s == seq!['r'] {
        Some((false, true))
    } else if s == seq!['g', 'r'] || s == seq!['r', 'g'] {
        Some((true, true))
    } else {
        None
    }
}

/// The configuration that a header line selects: `/`, no space, three
/// segments between `/` and `\`, the second `v10` (without `+`) or `v12`,
/// and at most one `+` followed by a known suffix.
pub open spec fn header_of(s: Seq<char>) -> Option<ParserConfig> {
    let parts = split(s, '/', '\\');
    let plus = split(s, '+', '+');
    let version: Option<(u32, u32)> = if parts.len() == 3 && parts[1] == seq!['v', '1', '0']
        && !s.contains('+') {
        Some((1u32, 0u32))
    } else if parts.len() == 3 && parts[1] == seq!['v', '1', '2'] {
        Some((1u32, 2u32))
    } else {
        None
    };
    let ext: Option<(bool, bool)> = if plus.len() == 1 {
        Some((false, false))
    } else if plus.len() == 2 {
        extensions_of(plus[1])
    } else {
        None
    };
    if !s.contains(' ') && s.len() > 0 && s[0] == '/' && version is Some && ext is Some {
        let flags = ext->0;
        Some(ParserConfig { version: version->0, is_gas: flags.0, is_recursive: flags.1 })
    } else {
        None
    }
}

/// Reads the header line of a document.
pub fn parse_header(line: &str) -> (r: Result<ParserConfig, DsmrError>)
    ensures
        r is Ok <==> header_of(line@) is Some,
        r matches Ok(c) ==> header_of(line@) == Some(c),
        r matches Err(e) ==> e is FormatError,
{
    let s = chars_of(line);
    header_from(s.as_slice())
}

fn header_from(s: &[char]) -> (r: Result<ParserConfig, DsmrError>)
    ensures
        r is Ok <==> header_of(s@) is Some,
        r matches Ok(c) ==> header_of(s@) == Some(c),
        r matches Err(e) ==> e is FormatError,
{
    if has_char(s, ' ') {
        return Err(parse_error("Invalid header format"));
    }
    if s.len() == 0 || s[0] != '/' {
        return Err(parse_error("Invalid header format"));
    }
    let parts = split_on(s, '/', '\\');
    proof {
        lemma_split_nonempty(s@, '/', '\\');
        assert(parts@.len() == views(parts@).len());
    }
    if parts.len() != 3 {
        return Err(parse_error("Invalid header format"));
    }
    proof {
        assert(views(parts@)[1] == parts@[1]@);
    }
    let v10 = vec!['v', '1', '0'];
    let v12 = vec!['v', '1', '2'];
    proof {
        assert(v10@ =~= seq!['v', '1', '0']);
        assert(v12@ =~= seq!['v', '1', '2']);
    }
    let version: (u32, u32) = if same_chars(parts[1].as_slice(), v10.as_slice()) {
        if has_char(s, '+') {
            return Err(parse_error("Invalid header format"));
        }
        proof {
            crate::text::lemma_split_none(s@, '+', '+');
        }
        (1, 0)
    } else if same_chars(parts[1].as_slice(), v12.as_slice()) {
        (1, 2)
    } else {
        return Err(parse_error("Invalid header format"));
    };
    let plus = split_on(s, '+', '+');
    proof {
        lemma_split_nonempty(s@, '+', '+');
        assert(plus@.len() == views(plus@).len());
    }
    if plus.len() == 1 {
        return ParserConfig::new(version, false, false);
    }
    if plus.len() != 2 {
        return Err(parse_error("Invalid header format"));
    }
    proof {
        assert(views(plus@)[1] == plus@[1]@);
    }
    let suffix = plus[1].as_slice();
    let g = vec!['g'];
    let rc = vec!['r'];
    let gr = vec!['g', 'r'];
    let rg = vec!['r', 'g'];
    proof {
        assert(g@ =~= seq!['g']);
        assert(rc@ =~= seq!['r']);
        assert(gr@ =~= seq!['g', 'r']);
        assert(rg@ =~= seq!['r', 'g']);
    }
    let (is_gas, is_recursive) = if same_chars(suffix, g.as_slice()) {
        (true, false)
    } else if same_chars(suffix, rc.as_slice()) {
        (false, true)
    } else if same_chars(suffix, gr.as_slice()) || same_chars(suffix, rg.as_slice()) {
        (true, true)
    } else {
        return Err(parse_error("Invalid header format"));
    };
    ParserConfig::new(version, is_gas, is_recursive)
}

/// The identifier that `s` spells: two or three `.`-separated unsigned
/// integers, each within `u32`.
pub open spec fn id_of(s: Seq<char>) -> Option<FieldId> {
    let parts = split(s, '.', '.');
    let major = unsigned_upto(parts[0], u32::MAX as int);
    let minor = unsigned_upto(parts[1], u32::MAX as int);
    let index = unsigned_upto(parts[2], u32::MAX as int);
    if 2 <= parts.len() <= 3 && major is Some && minor is Some && (parts.len() == 3
        ==> index is Some) {
        Some(
            (
                major->0 as u32,
                minor->0 as u32,
                if parts.len() == 3 {
                    Some(index->0 as u32)
                } else {
                    None
                },
            ),
        )
    } else {
        None
    }
}

/// Reads a field identifier such as `7.1.3`.
pub fn parse_id(id_str: &str) -> (r: Result<FieldId, DsmrError>)
    ensures
        r is Ok <==> id_of(id_str@) is Some,
        r matches Ok(id) ==> id_of(id_str@) == Some(id),
        r matches Err(e) ==> e is FormatError,
{
    let s = chars_of(id_str);
    id_from(s.as_slice())
}

fn id_from(s: &[char]) -> (r: Result<FieldId, DsmrError>)
    ensures
        r is Ok <==> id_of(s@) is Some,
        r matches Ok(id) ==> id_of(s@) == Some(id),
        r matches Err(e) ==> e is FormatError,
{
    let digits = split_on(s, '.', '.');
    proof {
        lemma_split_nonempty(s@, '.', '.');
        assert(digits@.len() == views(digits@).len());
    }
    if digits.len() < 2 || digits.len() > 3 {
        return Err(parse_error("Invalid ID format"));
    }
    proof {
        assert(views(digits@)[0] == digits@[0]@);
        assert(views(digits@)[1] == digits@[1]@);
        if digits.len() == 3 {
            assert(views(digits@)[2] == digits@[2]@);
        }
    }
    let major = match parse_unsigned(digits[0].as_slice(), 4294967295) {
        Some(v) => v as u32,
        None => return Err(parse_error("Invalid major ID")),
    };
    let minor = match parse_unsigned(digits[1].as_slice(), 4294967295) {
        Some(v) => v as u32,
        None => return Err(parse_error("Invalid minor ID")),
    };
    let index = if digits.len() == 3 {
        match parse_unsigned(digits[2].as_slice(), 4294967295) {
            Some(v) => Some(v as u32),
            None => return Err(parse_error("Invalid index ID")),
        }
    } else {
        None
    };
    Ok((major, minor, index))
}

/// The content type that an identifier selects, by the fixed table of
/// identifiers.
pub open spec fn content_type_of(id: FieldId) -> Option<TelegramContentType> {
    let (major, minor, index) = id;
    if major == 1 && minor == 1 {
        Some(TelegramContentType::Start)
    } else if major == 1 && minor == 2 {
        Some(TelegramContentType::End)
    } else if major == 2 && minor == 1 && index is None {
        Some(TelegramContentType::Date)
    } else if major == 3 && minor == 1 {
        Some(TelegramContentType::EventlogSeverity)
    } else if major == 3 && minor == 2 {
        Some(TelegramContentType::EventlogMessage)
    } else if major == 3 && minor == 3 {
        Some(TelegramContentType::EventlogDate)
    } else if major == 4 && minor == 1 && index is None {
        Some(TelegramContentType::InformationType)
    } else if major == 5 && minor == 2 && index is None {
        Some(TelegramContentType::GasTotalDelivered)
    } else if major == 7 && minor == 1 {
        Some(TelegramContentType::Voltage)
    } else if major == 7 && minor == 2 {
        Some(TelegramContentType::Current)
    } else if major == 7 && minor == 3 {
        Some(TelegramContentType::Power)
    } else if major == 7 && minor == 4 && index == Some(1u32) {
        Some(TelegramContentType::TotalConsumed)
    } else if major == 7 && minor == 4 && index == Some(2u32) {
        Some(TelegramContentType::TotalProduced)
    } else {
        None
    }
}

/// The content type of a field identifier; unknown identifiers fail.
pub fn determine_content_type(id: &FieldId) -> (r: Result<TelegramContentType, DsmrError>)
    ensures
        r is Ok <==> content_type_of(*id) is Some,
        r matches Ok(t) ==> content_type_of(*id) == Some(t),
        r matches Err(e) ==> e is FormatError,
{
    let (major, minor, index) = *id;
    if major == 1 && minor == 1 {
        Ok(TelegramContentType::Start)
    } else if major == 1 && minor == 2 {
        Ok(TelegramContentType::End)
    } else if major == 2 && minor == 1 && index.is_none() {
        Ok(TelegramContentType::Date)
    } else if major == 3 && minor == 1 {
        Ok(TelegramContentType::EventlogSeverity)
    } else if major == 3 && minor == 2 {
        Ok(TelegramContentType::EventlogMessage)
    } else if major == 3 && minor == 3 {
        Ok(TelegramContentType::EventlogDate)
    } else if major == 4 && minor == 1 && index.is_none() {
        Ok(TelegramContentType::InformationType)
    } else if major == 5 && minor == 2 && index.is_none() {
        Ok(TelegramContentType::GasTotalDelivered)
    } else if major == 7 && minor == 1 {
        Ok(TelegramContentType::Voltage)
    } else if major == 7 && minor == 2 {
        Ok(TelegramContentType::Current)
    } else if major == 7 && minor == 3 {
        Ok(TelegramContentType::Power)
    } else if major == 7 && minor == 4 && index == Some(1u32) {
        Ok(TelegramContentType::TotalConsumed)
    } else if major == 7 && minor == 4 && index == Some(2u32) {
        Ok(TelegramContentType::TotalProduced)
    } else {
        Err(parse_error("Unknown ID"))
    }
}

/// `c` in upper case, for an ASCII letter; any other character as it is.
pub open spec fn ascii_upper(c: char) -> char {
    if 'a' <= c && c <= 'z' {
        ((c as u8) - 32) as char
    } else {
        c
    }
}

/// `s` in upper case, letter by letter.
pub open spec fn upper(s: Seq<char>) -> Seq<char> {
    s.map_values(|c: char| ascii_upper(c))
}

/// The unit that `s` names, in any case: `V`, `A`, `KW`, `KWH` or `M3`.
pub open spec fn unit_of(s: Seq<char>) -> Option<TelegramContentUnit> {
    let u = upper(s);
    if u == seq!['V'] {
        Some(TelegramContentUnit::V)
    } else if u == seq!['A'] {
        Some(TelegramContentUnit::A)
    } else if u == seq!['K', 'W'] {
        Some(TelegramContentUnit::KW)
    } else if u == seq!['K', 'W', 'H'] {
        Some(TelegramContentUnit::KWH)
    } else if u == seq!['M', '3'] {
        Some(TelegramContentUnit::M3)
    } else {
        None
    }
}

/// Reads a unit name, ignoring case.
pub fn parse_unit(unit_str: &str) -> (r: Result<TelegramContentUnit, DsmrError>)
    ensures
        r is Ok <==> unit_of(unit_str@) is Some,
        r matches Ok(u) ==> unit_of(unit_str@) == Some(u),
        r matches Err(e) ==> e is FormatError,
{
    let s = chars_of(unit_str);
    unit_from(s.as_slice())
}

fn unit_from(s: &[char]) -> (r: Result<TelegramContentUnit, DsmrError>)
    ensures
        r is Ok <==> unit_of(s@) is Some,
        r matches Ok(u) ==> unit_of(s@) == Some(u),
        r matches Err(e) ==> e is FormatError,
{
    let mut u: Vec<char> = Vec::new();
    let mut i: usize = 0;
    while i < s.len()
        invariant
            i <= s@.len(),
            u@ == upper(s@.take(i as int)),
        decreases s.len() - i,
    {
        let c = s[i];
        let up = if 'a' <= c && c <= 'z' {
            ((c as u8) - 32) as char
        } else {
            c
        };
        u.push(up);
        proof {
            assert(u@ =~= upper(s@.take(i + 1)));
        }
        i = i + 1;
    }
    proof {
        assert(s@.take(s@.len() as int) =~= s@);
    }
    let v = vec!['V'];
    let a = vec!['A'];
    let kw = vec!['K', 'W'];
    let kwh = vec!['K', 'W', 'H'];
    let m3 = vec!['M', '3'];
    proof {
        assert(v@ =~= seq!['V']);
        assert(a@ =~= seq!['A']);
        assert(kw@ =~= seq!['K', 'W']);
        assert(kwh@ =~= seq!['K', 'W', 'H']);
        assert(m3@ =~= seq!['M', '3']);
    }
    if same_chars(u.as_slice(), v.as_slice()) {
        Ok(TelegramContentUnit::V)
    } else if same_chars(u.as_slice(), a.as_slice()) {
        Ok(TelegramContentUnit::A)
    } else if same_chars(u.as_slice(), kw.as_slice()) {
        Ok(TelegramContentUnit::KW)
    } else if same_chars(u.as_slice(), kwh.as_slice()) {
        Ok(TelegramContentUnit::KWH)
    } else if same_chars(u.as_slice(), m3.as_slice()) {
        Ok(TelegramContentUnit::M3)
    } else {
        Err(parse_error("Unknown unit"))
    }
}

/// The value of exactly two decimal digits.
pub open spec fn two_digits(s: Seq<char>) -> Option<int> {
    if s.len() == 2 && all_digits(s) {
        Some(digits_value(s))
    } else {
        None
    }
}

/// The number of the month that a three-letter English abbreviation names.
pub open spec fn month_of(s: Seq<char>) -> Option<u8> {
    if s == seq!['J', 'a', 'n'] {
        Some(1u8)
    } else if s == seq!['F', 'e', 'b'] {
        Some(2u8)
    } else if s == seq!['M', 'a', 'r'] {
        Some(3u8)
    } else if s == seq!['A', 'p', 'r'] {
        Some(4u8)
    } else if s == seq!['M', 'a', 'y'] {
        Some(5u8)
    } else if s == seq!['J', 'u', 'n'] {
        Some(6u8)
    } else if s == seq!['J', 'u', 'l'] {
        Some(7u8)
    } else if s == seq!['A', 'u', 'g'] {
        Some(8u8)
    } else if s == seq!['S', 'e', 'p'] {
        Some(9u8)
    } else if s == seq!['O', 'c', 't'] {
        Some(10u8)
    } else if s == seq!['N', 'o', 'v'] {
        Some(11u8)
    } else if s == seq!['D', 'e', 'c'] {
        Some(12u8)
    } else {
        None
    }
}

/// The daylight-saving flag: `S` for summer time, `W` for winter time,
/// with or without its parentheses.
pub open spec fn dst_of(s: Seq<char>) -> Option<bool> {
    let t = strip_parens(s);
    if t == seq!['S'] {
        Some(true)
    } else if t == seq!['W'] {
        Some(false)
    } else {
        None
    }
}

/// The calendar fields that `YY-Mon-DD hh:mm:ss (X)` spells, the year
/// counted from 2000.
pub open spec fn date_fields_of(s: Seq<char>) -> Option<(u16, u8, u8, u8, u8, u8, bool)> {
    let parts = split(strip_parens(s), ' ', ' ');
    let d = split(parts[0], '-', '-');
    let t = split(parts[1], ':', ':');
    if parts.len() == 3 && d.len() == 3 && t.len() == 3 && two_digits(d[0]) is Some && month_of(
        d[1],
    ) is Some && two_digits(d[2]) is Some && two_digits(t[0]) is Some && two_digits(t[1]) is Some
        && two_digits(t[2]) is Some && dst_of(parts[2]) is Some {
        Some(
            (
                (2000 + two_digits(d[0])->0) as u16,
                month_of(d[1])->0,
                two_digits(d[2])->0 as u8,
                two_digits(t[0])->0 as u8,
                two_digits(t[1])->0 as u8,
                two_digits(t[2])->0 as u8,
                dst_of(parts[2])->0,
            ),
        )
    } else {
        None
    }
}

/// The date that `s` spells, when it names a real calendar date and time.
pub open spec fn date_of(s: Seq<char>) -> Option<Date> {
    match date_fields_of(s) {
        Some((year, month, day, hour, minute, seconds, dst)) => if is_calendar_date(
            year,
            month,
            day,
            hour,
            minute,
            seconds,
        ) {
            Some(
                Date {
                    timestamp: crate::telegram::dutch_timestamp(
                        year,
                        month,
                        day,
                        hour,
                        minute,
                        seconds,
                        dst,
                    ),
                    year,
                    month,
                    day,
                    hour,
                    minute,
                    seconds,
                    dst,
                },
            )
        } else {
            None
        },
        None => None,
    }
}

fn two_digits_from(s: &[char]) -> (r: Option<u8>)
    ensures
        r matches Some(v) ==> two_digits(s@) == Some(v as int),
        r is None ==> two_digits(s@) is None,
{
    if s.len() != 2 || !crate::text::all_digits_of(s) {
        return None;
    }
    proof {
        assert(s@.drop_last().drop_last() =~= Seq::<char>::empty());
        assert(is_digit(s@[0]) && is_digit(s@[1]));
        assert(s@.drop_last().last() == s@[0]);
        assert(s@.drop_last().len() == 1);
        assert(digits_value(s@.drop_last()) == digits_value(s@.drop_last().drop_last()) * 10
            + crate::text::digit_value(s@[0]));
        assert(digits_value(s@) == digits_value(s@.drop_last()) * 10 + crate::text::digit_value(
            s@[1],
        ));
    }
    let v = (s[0] as u32 - '0' as u32) * 10 + (s[1] as u32 - '0' as u32);
    Some(v as u8)
}

fn month_from(s: &[char]) -> (r: Option<u8>)
    ensures
        r == month_of(s@),
{
    let names = [
        ['J', 'a', 'n'],
        ['F', 'e', 'b'],
        ['M', 'a', 'r'],
        ['A', 'p', 'r'],
        ['M', 'a', 'y'],
        ['J', 'u', 'n'],
        ['J', 'u', 'l'],
        ['A', 'u', 'g'],
        ['S', 'e', 'p'],
        ['O', 'c', 't'],
        ['N', 'o', 'v'],
        ['D', 'e', 'c'],
    ];
    proof {
        assert(names[0]@ =~= seq!['J', 'a', 'n']);
        assert(names[1]@ =~= seq!['F', 'e', 'b']);
        assert(names[2]@ =~= seq!['M', 'a', 'r']);
        assert(names[3]@ =~= seq!['A', 'p', 'r']);
        assert(names[4]@ =~= seq!['M', 'a', 'y']);
        assert(names[5]@ =~= seq!['J', 'u', 'n']);
        assert(names[6]@ =~= seq!['J', 'u', 'l']);
        assert(names[7]@ =~= seq!['A', 'u', 'g']);
        assert(names[8]@ =~= seq!['S', 'e', 'p']);
        assert(names[9]@ =~= seq!['O', 'c', 't']);
        assert(names[10]@ =~= seq!['N', 'o', 'v']);
        assert(names[11]@ =~= seq!['D', 'e', 'c']);
    }
    let mut i: usize = 0;
    while i < 12
        invariant
            i <= 12,
            forall|j: int| 0 <= j < i ==> s@ != names[j]@,
            names[0]@ == seq!['J', 'a', 'n'],
            names[1]@ == seq!['F', 'e', 'b'],
            names[2]@ == seq!['M', 'a', 'r'],
            names[3]@ == seq!['A', 'p', 'r'],
            names[4]@ == seq!['M', 'a', 'y'],
            names[5]@ == seq!['J', 'u', 'n'],
            names[6]@ == seq!['J', 'u', 'l'],
            names[7]@ == seq!['A', 'u', 'g'],
            names[8]@ == seq!['S', 'e', 'p'],
            names[9]@ == seq!['O', 'c', 't'],
            names[10]@ == seq!['N', 'o', 'v'],
            names[11]@ == seq!['D', 'e', 'c'],
        decreases 12 - i,
    {
        if same_chars(s, names[i].as_slice()) {
            return Some((i + 1) as u8);
        }
        i = i + 1;
    }
    None
}

fn dst_from(s: &[char]) -> (r: Option<bool>)
    ensures
        r == dst_of(s@),
{
    let t = strip_parens_of(s);
    let summer = vec!['S'];
    let winter = vec!['W'];
    proof {
        assert(summer@ =~= seq!['S']);
        assert(winter@ =~= seq!['W']);
    }
    if same_chars(t.as_slice(), summer.as_slice()) {
        Some(true)
    } else if same_chars(t.as_slice(), winter.as_slice()) {
        Some(false)
    } else {
        None
    }
}

/// Reads a date such as `23-Jul-05 15:26:41 (S)`.
pub fn parse_date(date_str: &str) -> (r: Result<Date, DsmrError>)
    ensures
        r is Ok <==> date_of(date_str@) is Some,
        r matches Ok(d) ==> date_of(date_str@) == Some(d),
        r matches Err(e) ==> e is FormatError,
{
    let s = chars_of(date_str);
    date_from(s.as_slice())
}

fn date_from(s: &[char]) -> (r: Result<Date, DsmrError>)
    ensures
        r is Ok <==> date_of(s@) is Some,
        r matches Ok(d) ==> date_of(s@) == Some(d),
        r matches Err(e) ==> e is FormatError,
{
    let cleaned = strip_parens_of(s);
    let parts = split_on(cleaned.as_slice(), ' ', ' ');
    proof {
        lemma_split_nonempty(cleaned@, ' ', ' ');
        assert(parts@.len() == views(parts@).len());
    }
    if parts.len() != 3 {
        return Err(parse_error("Invalid date format"));
    }
    proof {
        assert(views(parts@)[0] == parts@[0]@);
        assert(views(parts@)[1] == parts@[1]@);
        assert(views(parts@)[2] == parts@[2]@);
    }
    let d = split_on(parts[0].as_slice(), '-', '-');
    let t = split_on(parts[1].as_slice(), ':', ':');
    proof {
        lemma_split_nonempty(parts@[0]@, '-', '-');
        lemma_split_nonempty(parts@[1]@, ':', ':');
        assert(d@.len() == views(d@).len());
        assert(t@.len() == views(t@).len());
    }
    if d.len() != 3 || t.len() != 3 {
        return Err(parse_error("Invalid date format"));
    }
    proof {
        assert(views(d@)[0] == d@[0]@);
        assert(views(d@)[1] == d@[1]@);
        assert(views(d@)[2] == d@[2]@);
        assert(views(t@)[0] == t@[0]@);
        assert(views(t@)[1] == t@[1]@);
        assert(views(t@)[2] == t@[2]@);
    }
    let yy = match two_digits_from(d[0].as_slice()) {
        Some(v) => v,
        None => return Err(parse_error("Invalid year")),
    };
    let month = match month_from(d[1].as_slice()) {
        Some(v) => v,
        None => return Err(parse_error("Invalid month name")),
    };
    let day = match two_digits_from(d[2].as_slice()) {
        Some(v) => v,
        None => return Err(parse_error("Invalid day")),
    };
    let hour = match two_digits_from(t[0].as_slice()) {
        Some(v) => v,
        None => return Err(parse_error("Invalid hour")),
    };
    let minute = match two_digits_from(t[1].as_slice()) {
        Some(v) => v,
        None => return Err(parse_error("Invalid minute")),
    };
    let seconds = match two_digits_from(t[2].as_slice()) {
        Some(v) => v,
        None => return Err(parse_error("Invalid seconds")),
    };
    let dst = match dst_from(parts[2].as_slice()) {
        Some(v) => v,
        None => return Err(parse_error("Invalid DST flag")),
    };
    proof {
        crate::text::lemma_digits_value_nonneg(d@[0]@);
    }
    let year = 2000 + yy as u16;
    if !(1 <= month && month <= 12 && 1 <= day && day <= 31 && hour < 24 && minute < 60 && seconds
        < 60) {
        return Err(parse_error("Date field out of range"));
    }
    Date::new(year, month, day, hour, minute, seconds, dst)
}

/// The number of digits after the first decimal point of `v`.
pub open spec fn fraction_len(v: Seq<char>) -> int {
    let parts = split(v, '.', '.');
    if parts.len() >= 2 {
        parts[1].len() as int
    } else {
        0
    }
}

/// The length and decimal-point rules of a numeric field's text.
pub open spec fn number_layout(t: TelegramContentType, v: Seq<char>) -> bool {
    let dot = v.contains('.');
    let frac = fraction_len(v);
    let signed = v.len() > 0 && (v[0] == '+' || v[0] == '-');
    match t {
        TelegramContentType::Voltage => dot && (frac == 1 || frac == 2) && v.len() == 6,
        TelegramContentType::Current => if dot {
            frac <= 1 && v.len() == 3
        } else {
            v.len() == 2
        },
        TelegramContentType::Power => frac <= 3 && v.len() == if signed {
            7int
        } else {
            6int
        },
        TelegramContentType::TotalConsumed | TelegramContentType::TotalProduced => if dot {
            frac <= 10 && v.len() == 11
        } else {
            v.len() == 10
        },
        TelegramContentType::GasTotalDelivered => dot && frac == 3 && v.len() == 9,
        _ => false,
    }
}

/// Whether `v` is a value that a field of type `t` may hold.
pub open spec fn value_grammar(t: TelegramContentType, v: Seq<char>) -> bool {
    match t {
        TelegramContentType::Start => v == seq!['S', 'T', 'A', 'R', 'T'],
        TelegramContentType::EventlogSeverity => v == seq!['H'] || v == seq!['L'],
        TelegramContentType::EventlogMessage => v.len() <= 1024,
        TelegramContentType::InformationType => v == seq!['E'] || v == seq!['G'],
        TelegramContentType::End => v == seq!['E', 'N', 'D'],
        TelegramContentType::Date | TelegramContentType::EventlogDate => date_of(v) is Some,
        _ => number_layout(t, v) && decimal_value(v) is Some,
    }
}

/// The value that a field of type `t` takes from the text `v`.
pub open spec fn value_from_text(t: TelegramContentType, v: Seq<char>) -> ValueView {
    if is_text_type(t) {
        ValueView::Text(v)
    } else if is_date_type(t) {
        ValueView::Date(date_of(v)->0)
    } else {
        ValueView::Number(decimal_value(v)->0)
    }
}

/// The field that a line `<id>#(<value>[*<unit>])` spells, when the line
/// obeys the grammar of its content type and the field is valid.
pub open spec fn line_field(s: Seq<char>) -> Option<FieldView> {
    let halves = split(s, '#', '#');
    let id = id_of(halves[0]);
    let body = strip_parens(halves[1]);
    let starred = body.contains('*');
    let pieces = split(body, '*', '*');
    let text = if starred {
        pieces[0]
    } else {
        body
    };
    let unit = if starred {
        unit_of(pieces[1])
    } else {
        None
    };
    if s.contains('(') && s.contains(')') && halves.len() == 2 && id is Some && content_type_of(
        id->0,
    ) is Some && (starred ==> pieces.len() == 2 && unit is Some) && value_grammar(
        content_type_of(id->0)->0,
        text,
    ) {
        let t = content_type_of(id->0)->0;
        let f = FieldView {
            content_type: t,
            id: id->0,
            value: Some(value_from_text(t, text)),
            unit,
        };
        if field_valid(f) {
            Some(f)
        } else {
            None
        }
    } else {
        None
    }
}

fn fraction_len_of(v: &[char]) -> (r: usize)
    ensures
        r == fraction_len(v@),
{
    let parts = split_on(v, '.', '.');
    proof {
        lemma_split_nonempty(v@, '.', '.');
        assert(parts@.len() == views(parts@).len());
    }
    if parts.len() >= 2 {
        proof {
            assert(views(parts@)[1] == parts@[1]@);
        }
        parts[1].len()
    } else {
        0
    }
}

fn number_layout_ok(t: TelegramContentType, v: &[char]) -> (r: bool)
    ensures
        r == number_layout(t, v@),
{
    let dot = has_char(v, '.');
    let frac = fraction_len_of(v);
    let signed = v.len() > 0 && (v[0] == '+' || v[0] == '-');
    let len = v.len();
    match t {
        TelegramContentType::Voltage => dot && (frac == 1 || frac == 2) && len == 6,
        TelegramContentType::Current => if dot {
            frac <= 1 && len == 3
        } else {
            len == 2
        },
        TelegramContentType::Power => frac <= 3 && len == if signed {
            7
        } else {
            6
        },
        TelegramContentType::TotalConsumed | TelegramContentType::TotalProduced => if dot {
            frac <= 10 && len == 11
        } else {
            len == 10
        },
        TelegramContentType::GasTotalDelivered => dot && frac == 3 && len == 9,
        _ => false,
    }
}

/// The value of a field of type `t` read from `v`, when `v` obeys the
/// field's grammar.
fn value_from(t: TelegramContentType, v: &[char]) -> (r: Result<Value, DsmrError>)
    ensures
        r is Ok <==> value_grammar(t, v@),
        r matches Ok(x) ==> x@ == value_from_text(t, v@),
        r matches Err(e) ==> e is FormatError,
{
    let start = vec!['S', 'T', 'A', 'R', 'T'];
    let high = vec!['H'];
    let low = vec!['L'];
    let elec = vec!['E'];
    let gas = vec!['G'];
    let end = vec!['E', 'N', 'D'];
    proof {
        assert(start@ =~= seq!['S', 'T', 'A', 'R', 'T']);
        assert(high@ =~= seq!['H']);
        assert(low@ =~= seq!['L']);
        assert(elec@ =~= seq!['E']);
        assert(gas@ =~= seq!['G']);
        assert(end@ =~= seq!['E', 'N', 'D']);
    }
    let ok = match t {
        TelegramContentType::Start => same_chars(v, start.as_slice()),
        TelegramContentType::EventlogSeverity => same_chars(v, high.as_slice()) || same_chars(
            v,
            low.as_slice(),
        ),
        TelegramContentType::EventlogMessage => v.len() <= 1024,
        TelegramContentType::InformationType => same_chars(v, elec.as_slice()) || same_chars(
            v,
            gas.as_slice(),
        ),
        TelegramContentType::End => same_chars(v, end.as_slice()),
        _ => true,
    };
    if !ok {
        return Err(parse_error("Invalid value"));
    }
    match t {
        TelegramContentType::Start
        | TelegramContentType::EventlogSeverity
        | TelegramContentType::EventlogMessage
        | TelegramContentType::InformationType
        | TelegramContentType::End => {
            let mut text = String::new();
            let mut i: usize = 0;
            while i < v.len()
                invariant
                    i <= v@.len(),
                    text@ == v@.take(i as int),
                decreases v.len() - i,
            {
                text.push(v[i]);
                proof {
                    assert(text@ =~= v@.take(i + 1));
                }
                i = i + 1;
            }
            proof {
                assert(v@.take(v@.len() as int) =~= v@);
            }
            Ok(Value::String(text))
        },
        TelegramContentType::Date | TelegramContentType::EventlogDate => match date_from(v) {
            Ok(d) => Ok(Value::Date(d)),
            Err(e) => Err(e),
        },
        _ => {
            if !number_layout_ok(t, v) {
                return Err(parse_error("Invalid number layout"));
            }
            match parse_decimal(v) {
                Some(n) => Ok(Value::Number(n)),
                None => Err(parse_error("Invalid number")),
            }
        },
    }
}

/// Reads one field line, such as `7.1.1#(230.1*V)`.
pub fn parse_line(line: &str) -> (r: Result<TelegramContent, DsmrError>)
    ensures
        r is Ok <==> line_field(line@) is Some,
        r matches Ok(c) ==> line_field(line@) == Some(c@) && field_valid(c@),
        r matches Err(e) ==> e is FormatError,
{
    let s = chars_of(line);
    line_from(s.as_slice())
}

fn line_from(s: &[char]) -> (r: Result<TelegramContent, DsmrError>)
    ensures
        r is Ok <==> line_field(s@) is Some,
        r matches Ok(c) ==> line_field(s@) == Some(c@) && field_valid(c@),
        r matches Err(e) ==> e is FormatError,
{
    if !has_char(s, '(') || !has_char(s, ')') {
        return Err(parse_error("Invalid line format"));
    }
    let halves = split_on(s, '#', '#');
    proof {
        lemma_split_nonempty(s@, '#', '#');
        assert(halves@.len() == views(halves@).len());
    }
    if halves.len() != 2 {
        return Err(parse_error("Invalid line format"));
    }
    proof {
        assert(views(halves@)[0] == halves@[0]@);
        assert(views(halves@)[1] == halves@[1]@);
    }
    let id = id_from(halves[0].as_slice())?;
    let content_type = determine_content_type(&id)?;
    let body = strip_parens_of(halves[1].as_slice());
    let starred = has_char(body.as_slice(), '*');
    let pieces = split_on(body.as_slice(), '*', '*');
    proof {
        lemma_split_nonempty(body@, '*', '*');
        assert(pieces@.len() == views(pieces@).len());
        assert(views(pieces@)[0] == pieces@[0]@);
    }
    let unit = if starred {
        if pieces.len() != 2 {
            return Err(parse_error("Invalid value*unit format"));
        }
        proof {
            assert(views(pieces@)[1] == pieces@[1]@);
        }
        Some(unit_from(pieces[1].as_slice())?)
    } else {
        None
    };
    let text = if starred {
        pieces[0].as_slice()
    } else {
        body.as_slice()
    };
    let value = value_from(content_type, text)?;
    let content = TelegramContent::new_value(content_type, id, value, unit);
    if content.validate() {
        Ok(content)
    } else {
        Err(parse_error("Invalid final telegram content"))
    }
}

/// The fields of type `t` in `s`, in order.
pub open spec fn of_type(s: Seq<FieldView>, t: TelegramContentType) -> Seq<FieldView>
    decreases s.len(),
{
    if s.len() == 0 {
        Seq::empty()
    } else {
        let init = of_type(s.drop_last(), t);
        if s.last().content_type == t {
            init.push(s.last())
        } else {
            init
        }
    }
}

/// The last field of type `t` in `s`.
pub open spec fn last_of(s: Seq<FieldView>, t: TelegramContentType) -> Option<FieldView> {
    let l = of_type(s, t);
    if l.len() > 0 {
        Some(l.last())
    } else {
        None
    }
}

/// The fields of type `t` in `s`, each keyed by the index of its identifier.
pub open spec fn keyed(s: Seq<FieldView>, t: TelegramContentType) -> Seq<(u32, FieldView)> {
    of_type(s, t).map_values(|f: FieldView| (f.id.2->0, f))
}

/// Whether a field of type `t` belongs to an event-log entry.
pub open spec fn is_event_type(t: TelegramContentType) -> bool {
    t is EventlogSeverity || t is EventlogMessage || t is EventlogDate
}

/// Whether every event-log field carries the event id in its index.
pub open spec fn events_indexed(s: Seq<FieldView>) -> bool {
    forall|i: int| 0 <= i < s.len() && is_event_type(#[trigger] s[i].content_type) ==> s[i].id.2 is Some
}

/// Whether the fields hold a gas total.
pub open spec fn has_gas(s: Seq<FieldView>) -> bool {
    last_of(s, TelegramContentType::GasTotalDelivered) is Some
}

/// Whether the fields hold a full electricity set: three voltages, currents
/// and powers, and both totals.
pub open spec fn has_electricity(s: Seq<FieldView>) -> bool {
    &&& of_type(s, TelegramContentType::Voltage).len() >= 3
    &&& of_type(s, TelegramContentType::Current).len() >= 3
    &&& of_type(s, TelegramContentType::Power).len() >= 3
    &&& last_of(s, TelegramContentType::TotalConsumed) is Some
    &&& last_of(s, TelegramContentType::TotalProduced) is Some
}

/// Whether the fields hold a start, a date, an information type and an end.
pub open spec fn has_base(s: Seq<FieldView>) -> bool {
    &&& last_of(s, TelegramContentType::Start) is Some
    &&& last_of(s, TelegramContentType::Date) is Some
    &&& last_of(s, TelegramContentType::InformationType) is Some
    &&& last_of(s, TelegramContentType::End) is Some
}

/// The telegram that a closed frame's fields make: the last start, date,
/// information type and end; the event-log fields keyed by event id; and
/// exactly one of a gas total or a full electricity set (its first three
/// voltages, currents and powers, and its last totals).
pub open spec fn assembled(s: Seq<FieldView>) -> Option<TelegramView> {
    if events_indexed(s) && has_base(s) && has_gas(s) != has_electricity(s) {
        Some(
            TelegramView {
                base: BaseView {
                    start: last_of(s, TelegramContentType::Start)->0,
                    date: last_of(s, TelegramContentType::Date)->0,
                    eventlog_severities: keyed(s, TelegramContentType::EventlogSeverity),
                    eventlog_messages: keyed(s, TelegramContentType::EventlogMessage),
                    eventlog_dates: keyed(s, TelegramContentType::EventlogDate),
                    information_type: last_of(s, TelegramContentType::InformationType)->0,
                    end: last_of(s, TelegramContentType::End)->0,
                },
                data: if has_gas(s) {
                    DataView::Gas {
                        total_gas_delivered: last_of(s, TelegramContentType::GasTotalDelivered)->0,
                    }
                } else {
                    DataView::Electricity {
                        voltages: of_type(s, TelegramContentType::Voltage).take(3),
                        currents: of_type(s, TelegramContentType::Current).take(3),
                        powers: of_type(s, TelegramContentType::Power).take(3),
                        total_consumed: last_of(s, TelegramContentType::TotalConsumed)->0,
                        total_produced: last_of(s, TelegramContentType::TotalProduced)->0,
                    }
                },
            },
        )
    } else {
        None
    }
}

/// The fields of a frame gathered so far, sorted by content type.
struct Gathered {
    starts: Vec<TelegramContent>,
    dates: Vec<TelegramContent>,
    infos: Vec<TelegramContent>,
    ends: Vec<TelegramContent>,
    consumed: Vec<TelegramContent>,
    produced: Vec<TelegramContent>,
    gas: Vec<TelegramContent>,
    voltages: Vec<TelegramContent>,
    currents: Vec<TelegramContent>,
    powers: Vec<TelegramContent>,
    severities: Vec<(u32, TelegramContent)>,
    messages: Vec<(u32, TelegramContent)>,
    event_dates: Vec<(u32, TelegramContent)>,
}

impl Gathered {
    /// Whether the gathered fields are those of `s`, by type and in order.
    spec fn matches(&self, s: Seq<FieldView>) -> bool {
        &&& field_views(self.starts@) == of_type(s, TelegramContentType::Start)
        &&& field_views(self.dates@) == of_type(s, TelegramContentType::Date)
        &&& field_views(self.infos@) == of_type(s, TelegramContentType::InformationType)
        &&& field_views(self.ends@) == of_type(s, TelegramContentType::End)
        &&& field_views(self.consumed@) == of_type(s, TelegramContentType::TotalConsumed)
        &&& field_views(self.produced@) == of_type(s, TelegramContentType::TotalProduced)
        &&& field_views(self.gas@) == of_type(s, TelegramContentType::GasTotalDelivered)
        &&& field_views(self.voltages@) == of_type(s, TelegramContentType::Voltage)
        &&& field_views(self.currents@) == of_type(s, TelegramContentType::Current)
        &&& field_views(self.powers@) == of_type(s, TelegramContentType::Power)
        &&& keyed_views(self.severities@) == keyed(s, TelegramContentType::EventlogSeverity)
        &&& keyed_views(self.messages@) == keyed(s, TelegramContentType::EventlogMessage)
        &&& keyed_views(self.event_dates@) == keyed(s, TelegramContentType::EventlogDate)
    }
}

proof fn lemma_push_views(v: Seq<TelegramContent>, c: TelegramContent)
    ensures
        field_views(v.push(c)) == field_views(v).push(c@),
{
    assert(field_views(v.push(c)) =~= field_views(v).push(c@));
}

proof fn lemma_push_keyed(v: Seq<(u32, TelegramContent)>, k: u32, c: TelegramContent)
    ensures
        keyed_views(v.push((k, c))) == keyed_views(v).push((k, c@)),
{
    assert(keyed_views(v.push((k, c))) =~= keyed_views(v).push((k, c@)));
}

proof fn lemma_keyed_push(s: Seq<FieldView>, t: TelegramContentType, f: FieldView)
    ensures
        keyed(s.push(f), t) == if f.content_type == t {
            keyed(s, t).push((f.id.2->0, f))
        } else {
            keyed(s, t)
        },
{
    assert(s.push(f).drop_last() =~= s);
    if f.content_type == t {
        assert(keyed(s.push(f), t) =~= keyed(s, t).push((f.id.2->0, f)));
    }
}

/// Takes the first element of a non-empty vector.
fn take_first<T>(v: &mut Vec<T>) -> (r: T)
    requires
        old(v)@.len() > 0,
    ensures
        r == old(v)@[0],
        final(v)@ == old(v)@.drop_first(),
{
    let r = v.remove(0);
    proof {
        assert(final(v)@ =~= old(v)@.drop_first());
    }
    r
}

/// Assembles a telegram from the fields of a closed frame.
pub fn build_telegram(contents: Vec<TelegramContent>) -> (r: Result<Telegram, DsmrError>)
    ensures
        r is Ok <==> assembled(field_views(contents@)) is Some,
        r matches Ok(t) ==> assembled(field_views(contents@)) == Some(t@),
        r matches Err(e) ==> if events_indexed(field_views(contents@)) {
            e is IncompleteTelegram
        } else {
            e is FormatError
        },
{
    let ghost all = field_views(contents@);
    let mut rest = contents;
    let mut g = Gathered {
        starts: Vec::new(),
        dates: Vec::new(),
        infos: Vec::new(),
        ends: Vec::new(),
        consumed: Vec::new(),
        produced: Vec::new(),
        gas: Vec::new(),
        voltages: Vec::new(),
        currents: Vec::new(),
        powers: Vec::new(),
        severities: Vec::new(),
        messages: Vec::new(),
        event_dates: Vec::new(),
    };
    let ghost mut k: int = 0;
    proof {
        assert(all.take(0) =~= Seq::<FieldView>::empty());
        assert(g.matches(all.take(0))) by {
            assert(field_views(g.starts@) =~= Seq::<FieldView>::empty());
            assert(keyed_views(g.severities@) =~= Seq::<(u32, FieldView)>::empty());
            assert(keyed(Seq::<FieldView>::empty(), TelegramContentType::EventlogSeverity)
                =~= Seq::<(u32, FieldView)>::empty());
            assert(keyed(Seq::<FieldView>::empty(), TelegramContentType::EventlogMessage)
                =~= Seq::<(u32, FieldView)>::empty());
            assert(keyed(Seq::<FieldView>::empty(), TelegramContentType::EventlogDate)
                =~= Seq::<(u32, FieldView)>::empty());
        }
    }
    while rest.len() > 0
        invariant
            0 <= k <= all.len(),
            all == field_views(contents@),
            field_views(rest@) == all.subrange(k, all.len() as int),
            g.matches(all.take(k)),
            events_indexed(all.take(k)),
        decreases rest.len(),
    {
        proof {
            assert(field_views(rest@).len() == rest@.len());
            assert(field_views(rest@)[0] == rest@[0]@);
            assert(k < all.len());
        }
        let ghost before = rest@;
        let c = take_first(&mut rest);
        let ghost pre = all.take(k);
        proof {
            assert(all[k] == c@) by {
                assert(all.subrange(k, all.len() as int)[0] == all[k]);
            }
            assert(all.take(k + 1) =~= pre.push(c@));
            assert(pre.push(c@).drop_last() =~= pre);
            assert forall|i: int| 0 <= i < rest@.len() implies #[trigger] field_views(rest@)[i]
                == all.subrange(k + 1, all.len() as int)[i] by {
                assert(rest@[i] == before[i + 1]);
                assert(field_views(before)[i + 1] == before[i + 1]@);
            }
            assert(field_views(rest@) =~= all.subrange(k + 1, all.len() as int));
            lemma_keyed_push(pre, TelegramContentType::EventlogSeverity, c@);
            lemma_keyed_push(pre, TelegramContentType::EventlogMessage, c@);
            lemma_keyed_push(pre, TelegramContentType::EventlogDate, c@);
        }
        match c.telegram_content_type {
            TelegramContentType::Start => {
                proof { lemma_push_views(g.starts@, c); }
                g.starts.push(c);
            },
            TelegramContentType::Date => {
                proof { lemma_push_views(g.dates@, c); }
                g.dates.push(c);
            },
            TelegramContentType::InformationType => {
                proof { lemma_push_views(g.infos@, c); }
                g.infos.push(c);
            },
            TelegramContentType::End => {
                proof { lemma_push_views(g.ends@, c); }
                g.ends.push(c);
            },
            TelegramContentType::TotalConsumed => {
                proof { lemma_push_views(g.consumed@, c); }
                g.consumed.push(c);
            },
            TelegramContentType::TotalProduced => {
                proof { lemma_push_views(g.produced@, c); }
                g.produced.push(c);
            },
            TelegramContentType::GasTotalDelivered => {
                proof { lemma_push_views(g.gas@, c); }
                g.gas.push(c);
            },
            TelegramContentType::Voltage => {
                proof { lemma_push_views(g.voltages@, c); }
                g.voltages.push(c);
            },
            TelegramContentType::Current => {
                proof { lemma_push_views(g.currents@, c); }
                g.currents.push(c);
            },
            TelegramContentType::Power => {
                proof { lemma_push_views(g.powers@, c); }
                g.powers.push(c);
            },
            TelegramContentType::EventlogSeverity
            | TelegramContentType::EventlogMessage
            | TelegramContentType::EventlogDate => {
                let key = match c.id.2 {
                    Some(key) => key,
                    None => {
                        proof {
                            assert(all[k].content_type == c.telegram_content_type);
                        }
                        return Err(parse_error("Event-log field without an event id"));
                    },
                };
                match c.telegram_content_type {
                    TelegramContentType::EventlogSeverity => {
                        proof { lemma_push_keyed(g.severities@, key, c); }
                        g.severities.push((key, c));
                    },
                    TelegramContentType::EventlogMessage => {
                        proof { lemma_push_keyed(g.messages@, key, c); }
                        g.messages.push((key, c));
                    },
                    _ => {
                        proof { lemma_push_keyed(g.event_dates@, key, c); }
                        g.event_dates.push((key, c));
                    },
                }
            },
        }
        proof {
            k = k + 1;
            assert(events_indexed(all.take(k))) by {
                assert forall|i: int|
                    0 <= i < all.take(k).len() && is_event_type(
                        #[trigger] all.take(k)[i].content_type,
                    ) implies all.take(k)[i].id.2 is Some by {
                    if i < k - 1 {
                        assert(all.take(k)[i] == pre[i]);
                    }
                }
            }
        }
    }
    proof {
        assert(all.take(k) =~= all);
    }
    let start = match g.starts.pop() {
        Some(f) => f,
        None => return Err(DsmrError::IncompleteTelegram),
    };
    let date = match g.dates.pop() {
        Some(f) => f,
        None => return Err(DsmrError::IncompleteTelegram),
    };
    let information_type = match g.infos.pop() {
        Some(f) => f,
        None => return Err(DsmrError::IncompleteTelegram),
    };
    let end = match g.ends.pop() {
        Some(f) => f,
        None => return Err(DsmrError::IncompleteTelegram),
    };
    let has_electricity_set = g.voltages.len() >= 3 && g.currents.len() >= 3 && g.powers.len()
        >= 3 && g.consumed.len() > 0 && g.produced.len() > 0;
    let base = TelegramBase::new(
        start,
        date,
        g.severities,
        g.messages,
        g.event_dates,
        information_type,
        end,
    );
    let ghost s = all;
    if g.gas.len() > 0 {
        if has_electricity_set {
            return Err(DsmrError::IncompleteTelegram);
        }
        let total_gas_delivered = g.gas.pop().unwrap();
        let t = Telegram::new(base, TelegramData::Gas { total_gas_delivered });
        proof {
            assert(t@.base == assembled(s)->0.base);
        }
        Ok(t)
    } else if has_electricity_set {
        let total_consumed = g.consumed.pop().unwrap();
        let total_produced = g.produced.pop().unwrap();
        let ghost vs = g.voltages@;
        let ghost cs = g.currents@;
        let ghost ps = g.powers@;
        let v0 = take_first(&mut g.voltages);
        let v1 = take_first(&mut g.voltages);
        let v2 = take_first(&mut g.voltages);
        let c0 = take_first(&mut g.currents);
        let c1 = take_first(&mut g.currents);
        let c2 = take_first(&mut g.currents);
        let p0 = take_first(&mut g.powers);
        let p1 = take_first(&mut g.powers);
        let p2 = take_first(&mut g.powers);
        let voltages = [v0, v1, v2];
        let currents = [c0, c1, c2];
        let powers = [p0, p1, p2];
        proof {
            assert(field_views(voltages@) =~= field_views(vs).take(3));
            assert(field_views(currents@) =~= field_views(cs).take(3));
            assert(field_views(powers@) =~= field_views(ps).take(3));
        }
        let t = Telegram::new(
            base,
            TelegramData::Electricity {
                voltages,
                currents,
                powers,
                total_consumed,
                total_produced,
            },
        );
        proof {
            assert(t@.base == assembled(s)->0.base);
        }
        Ok(t)
    } else {
        Err(DsmrError::IncompleteTelegram)
    }
}

/// Whether two errors are of the same kind; format errors differ only in
/// the cause that they name.
pub open spec fn same_error(a: DsmrError, b: DsmrError) -> bool {
    match (a, b) {
        (DsmrError::FormatError(_), DsmrError::FormatError(_)) => true,
        _ => a == b,
    }
}

/// The state of the document parser: the fields of each open frame,
/// innermost last, and the telegrams completed so far.
pub struct Frames {
    pub stack: Seq<Seq<FieldView>>,
    pub done: Seq<TelegramView>,
}

/// Whether a field needs the gas extension: a gas total, or an information
/// type of `G`.
pub open spec fn needs_gas(f: FieldView) -> bool {
    f.content_type is GasTotalDelivered || (f.content_type is InformationType && f.value == Some(
        ValueView::Text(seq!['G']),
    ))
}

/// The parser's transition on one valid field.
pub open spec fn step(cfg: ParserConfig, st: Frames, f: FieldView) -> Result<Frames, DsmrError> {
    match f.content_type {
        TelegramContentType::Start => if st.stack.len() > 0 && !cfg.is_recursive {
            Err(DsmrError::UnsupportedExtension)
        } else {
            Ok(Frames { stack: st.stack.push(seq![f]), done: st.done })
        },
        TelegramContentType::End => if st.stack.len() == 0 {
            Err(DsmrError::FormatError(""))
        } else {
            let frame = st.stack.last().push(f);
            match assembled(frame) {
                Some(t) => Ok(Frames { stack: st.stack.drop_last(), done: st.done.push(t) }),
                None => Err(
                    if events_indexed(frame) {
                        DsmrError::IncompleteTelegram
                    } else {
                        DsmrError::FormatError("")
                    },
                ),
            }
        },
        _ => if needs_gas(f) && !cfg.is_gas {
            Err(DsmrError::UnsupportedExtension)
        } else if st.stack.len() == 0 {
            Err(DsmrError::FormatError(""))
        } else {
            Ok(
                Frames {
                    stack: st.stack.update(st.stack.len() - 1, st.stack.last().push(f)),
                    done: st.done,
                },
            )
        },
    }
}

/// The parser's transition on one line after the header: blank lines are
/// skipped, and any other line must be a valid field.
pub open spec fn take_line(cfg: ParserConfig, st: Frames, l: Seq<char>) -> Result<
    Frames,
    DsmrError,
> {
    if crate::text::is_blank(l) {
        Ok(st)
    } else {
        match line_field(l) {
            Some(f) => step(cfg, st, f),
            None => Err(DsmrError::FormatError("")),
        }
    }
}

/// The parser's state after the lines `ls`, or the first error.
pub open spec fn run(cfg: ParserConfig, ls: Seq<Seq<char>>) -> Result<Frames, DsmrError>
    decreases ls.len(),
{
    if ls.len() == 0 {
        Ok(Frames { stack: Seq::empty(), done: Seq::empty() })
    } else {
        match run(cfg, ls.drop_last()) {
            Ok(st) => take_line(cfg, st, ls.last()),
            Err(e) => Err(e),
        }
    }
}

/// The telegrams of a document: its first line is the header, and the
/// telegrams come in the reverse of the order in which their frames closed.
pub open spec fn document(s: Seq<char>) -> Result<Seq<TelegramView>, DsmrError> {
    let ls = crate::text::lines_of(s);
    if ls.len() == 0 {
        Err(DsmrError::FormatError(""))
    } else {
        match header_of(ls[0]) {
            None => Err(DsmrError::FormatError("")),
            Some(cfg) => match run(cfg, ls.drop_first()) {
                Ok(st) => Ok(st.done.reverse()),
                Err(e) => Err(e),
            },
        }
    }
}

/// The views of a stack of frames.
pub open spec fn stack_views(s: Seq<Vec<TelegramContent>>) -> Seq<Seq<FieldView>> {
    s.map_values(|v: Vec<TelegramContent>| field_views(v@))
}

proof fn lemma_run_err_stays(cfg: ParserConfig, ls: Seq<Seq<char>>, i: int)
    requires
        0 <= i <= ls.len(),
        run(cfg, ls.take(i)) is Err,
    ensures
        run(cfg, ls) == run(cfg, ls.take(i)),
    decreases ls.len() - i,
{
    if i < ls.len() {
        assert(ls.take(i + 1).drop_last() =~= ls.take(i));
        lemma_run_err_stays(cfg, ls, i + 1);
    } else {
        assert(ls.take(i) =~= ls);
    }
}

/// Parses a whole document into its telegrams.
pub fn parse(input: &str) -> (r: Result<Vec<Telegram>, DsmrError>)
    ensures
        r is Ok <==> document(input@) is Ok,
        r matches Ok(ts) ==> document(input@) == Ok::<Seq<TelegramView>, DsmrError>(
            telegram_views(ts@),
        ),
        r matches Err(e) ==> document(input@) matches Err(d) && same_error(e, d),
        r matches Ok(ts) ==> crate::helpers::all_dated(telegram_views(ts@)),
        r matches Ok(ts) ==> crate::helpers::gas_fits(telegram_views(ts@)),
        r matches Ok(ts) ==> crate::helpers::energy_fits(telegram_views(ts@)),
{
    let s = chars_of(input);
    let lines = crate::text::lines_from(s.as_slice());
    let ghost ls = views(lines@);
    proof {
        assert(lines@.len() == ls.len());
    }
    if lines.len() == 0 {
        return Err(parse_error("Empty input"));
    }
    proof {
        assert(ls[0] == lines@[0]@);
    }
    let config = header_from(lines[0].as_slice())?;
    let ghost rest = ls.drop_first();
    let mut stack: Vec<Vec<TelegramContent>> = Vec::new();
    let mut done: Vec<Telegram> = Vec::new();
    let mut i: usize = 1;
    proof {
        assert(rest.take(0) =~= Seq::<Seq<char>>::empty());
        assert(stack_views(stack@) =~= Seq::<Seq<FieldView>>::empty());
        assert(telegram_views(done@) =~= Seq::<TelegramView>::empty());
    }
    while i < lines.len()
        invariant
            1 <= i <= lines@.len(),
            ls == views(lines@),
            ls == crate::text::lines_of(input@),
            ls.len() == lines@.len(),
            rest == ls.drop_first(),
            header_of(ls[0]) == Some(config),
            run(config, rest.take(i - 1)) == Ok::<Frames, DsmrError>(
                Frames { stack: stack_views(stack@), done: telegram_views(done@) },
            ),
        decreases lines.len() - i,
    {
        let line = lines[i].as_slice();
        let ghost pre = rest.take(i - 1);
        let ghost st = Frames { stack: stack_views(stack@), done: telegram_views(done@) };
        proof {
            assert(ls[i as int] == line@);
            assert(rest.take(i as int).drop_last() =~= pre);
            assert(rest.take(i as int).last() == line@);
            assert(run(config, rest.take(i as int)) == take_line(config, st, line@));
        }
        if crate::text::blank(line) {
            i = i + 1;
            continue;
        }
        let content = match line_from(line) {
            Ok(c) => c,
            Err(e) => {
                proof {
                    lemma_run_err_stays(config, rest, i as int);
                }
                return Err(e);
            },
        };
        let ghost f = content@;
        match content.telegram_content_type {
            TelegramContentType::Start => {
                if stack.len() > 0 && !config.is_recursive {
                    proof {
                        lemma_run_err_stays(config, rest, i as int);
                    }
                    return Err(DsmrError::UnsupportedExtension);
                }
                let mut frame: Vec<TelegramContent> = Vec::new();
                frame.push(content);
                proof {
                    assert(field_views(frame@) =~= seq![f]);
                }
                stack.push(frame);
                proof {
                    assert(stack_views(stack@) =~= st.stack.push(seq![f]));
                }
            },
            TelegramContentType::End => {
                let mut frame = match stack.pop() {
                    Some(frame) => frame,
                    None => {
                        proof {
                            lemma_run_err_stays(config, rest, i as int);
                        }
                        return Err(parse_error("End outside a telegram"));
                    },
                };
                proof {
                    assert(stack_views(stack@) =~= st.stack.drop_last());
                    assert(field_views(frame@) == st.stack.last());
                }
                let ghost old_frame = frame@;
                frame.push(content);
                proof {
                    lemma_push_views(old_frame, content);
                }
                match build_telegram(frame) {
                    Ok(t) => {
                        let ghost old_done = done@;
                        done.push(t);
                        proof {
                            assert(telegram_views(done@) =~= telegram_views(old_done).push(t@));
                        }
                    },
                    Err(e) => {
                        proof {
                            lemma_run_err_stays(config, rest, i as int);
                        }
                        return Err(e);
                    },
                }
            },
            _ => {
                let is_gas_type = match content.telegram_content_type {
                    TelegramContentType::GasTotalDelivered => true,
                    _ => false,
                };
                let mut gas_info = false;
                if let TelegramContentType::InformationType = content.telegram_content_type {
                    if let Some(Value::String(v)) = &content.value {
                        let g = vec!['G'];
                        let vs = chars_of(v.as_str());
                        proof {
                            assert(g@ =~= seq!['G']);
                        }
                        gas_info = same_chars(vs.as_slice(), g.as_slice());
                    }
                }
                proof {
                    assert(needs_gas(f) == (is_gas_type || gas_info));
                }
                if (is_gas_type || gas_info) && !config.is_gas {
                    proof {
                        lemma_run_err_stays(config, rest, i as int);
                    }
                    return Err(DsmrError::UnsupportedExtension);
                }
                let mut frame = match stack.pop() {
                    Some(frame) => frame,
                    None => {
                        proof {
                            lemma_run_err_stays(config, rest, i as int);
                        }
                        return Err(parse_error("Field outside a telegram"));
                    },
                };
                let ghost old_frame = frame@;
                frame.push(content);
                proof {
                    lemma_push_views(old_frame, content);
                }
                stack.push(frame);
                proof {
                    assert(stack_views(stack@) =~= st.stack.update(
                        st.stack.len() - 1,
                        st.stack.last().push(f),
                    ));
                }
            },
        }
        i = i + 1;
    }
    proof {
        assert(rest.take(i - 1) =~= rest);
        lemma_run_frames_ok(config, rest);
    }
    let mut out: Vec<Telegram> = Vec::new();
    let ghost all = telegram_views(done@);
    proof {
        assert(telegram_views(out@) =~= all.reverse().take(0));
    }
    while done.len() > 0
        invariant
            all.len() == done@.len() + out@.len(),
            telegram_views(done@) == all.take(done@.len() as int),
            telegram_views(out@) == all.reverse().take(out@.len() as int),
        decreases done.len(),
    {
        let ghost old_done = done@;
        let ghost old_out = out@;
        let t = done.pop().unwrap();
        proof {
            assert(telegram_views(old_done)[old_done.len() - 1] == t@);
            assert(all.reverse()[old_out.len() as int] == all[all.len() - 1 - old_out.len()]);
        }
        out.push(t);
        proof {
            assert(telegram_views(done@) =~= all.take(done@.len() as int));
            assert(telegram_views(out@) =~= all.reverse().take(out@.len() as int));
        }
    }
    proof {
        assert(all.reverse().take(all.len() as int) =~= all.reverse());
        assert forall|k: int| 0 <= k < all.reverse().len() implies #[trigger] telegram_ok(
            all.reverse()[k],
        ) by {
            assert(all.reverse()[k] == all[all.len() - 1 - k]);
        }
        assert(crate::helpers::gas_fits(all.reverse())) by {
            assert forall|k: int| 0 <= k < all.reverse().len() implies (
            #[trigger] crate::helpers::gas_reading(all.reverse()[k]) matches Some(r)
                ==> crate::helpers::fits(r.1)) by {
                assert(telegram_ok(all.reverse()[k]));
            }
        }
        assert(crate::helpers::energy_fits(all.reverse())) by {
            assert forall|k: int| 0 <= k < all.reverse().len() implies (
            #[trigger] crate::helpers::energy_reading(all.reverse()[k]) matches Some(r)
                ==> crate::helpers::fits(r.1) && crate::helpers::fits(r.2)) by {
                assert(telegram_ok(all.reverse()[k]));
            }
        }
        assert(crate::helpers::all_dated(all.reverse())) by {
            assert forall|k: int| 0 <= k < all.reverse().len() implies #[trigger] crate::helpers::timestamp_of(
                all.reverse()[k],
            ) is Some by {
                assert(telegram_ok(all.reverse()[k]));
            }
        }
    }
    Ok(out)
}

/// The header line `/v10\` or `/v12\`, followed by `+` and the suffix
/// `ext` when that is not empty.
pub open spec fn header_text(v12: bool, ext: Seq<char>) -> Seq<char> {
    let base = if v12 {
        seq!['/', 'v', '1', '2', '\\']
    } else {
        seq!['/', 'v', '1', '0', '\\']
    };
    if ext.len() == 0 {
        base
    } else {
        base + seq!['+'] + ext
    }
}

/// Every valid header reads back as what it spells: version 1.0 or 1.2,
/// with gas enabled exactly when the suffix holds `g` and the recursive
/// extension exactly when it holds `r`.
pub proof fn lemma_header_round_trip(v12: bool, ext: Seq<char>)
    requires
        ext.len() == 0 || (v12 && extensions_of(ext) is Some),
    ensures
        header_of(header_text(v12, ext)) == Some(
            ParserConfig {
                version: if v12 {
                    (1u32, 2u32)
                } else {
                    (1u32, 0u32)
                },
                is_gas: ext.contains('g'),
                is_recursive: ext.contains('r'),
            },
        ),
{
    reveal_with_fuel(split, 9);
    let s = header_text(v12, ext);
    if ext.len() == 0 {
        assert(!s.contains('+')) by {
            if s.contains('+') {
                let i = choose|i: int| 0 <= i < s.len() && s[i] == '+';
            }
        }
        assert(!s.contains(' ')) by {
            if s.contains(' ') {
                let i = choose|i: int| 0 <= i < s.len() && s[i] == ' ';
            }
        }
        assert(split(s, '/', '\\')[1] =~= if v12 { seq!['v', '1', '2'] } else { seq!['v', '1', '0'] });
        assert(split(s, '/', '\\').len() == 3);
        crate::text::lemma_split_none(s, '+', '+');
        assert(!ext.contains('g'));
        assert(!ext.contains('r'));
    } else {
        assert(split(s, '/', '\\').len() == 3);
        assert(split(s, '/', '\\')[1] =~= seq!['v', '1', '2']);
        assert(split(s, '+', '+').len() == 2);
        assert(split(s, '+', '+')[1] =~= ext);
        assert(!s.contains(' ')) by {
            if s.contains(' ') {
                let i = choose|i: int| 0 <= i < s.len() && s[i] == ' ';
            }
        }
        if ext == seq!['g'] {
            assert(ext[0] == 'g');
            assert(!ext.contains('r'));
        } else if ext == seq!['r'] {
            assert(ext[0] == 'r');
            assert(!ext.contains('g'));
        } else if ext == seq!['g', 'r'] {
            assert(ext[0] == 'g' && ext[1] == 'r');
        } else {
            assert(ext[0] == 'r' && ext[1] == 'g');
        }
    }
}

/// A document without lines, or whose first line is no valid header, is
/// refused as a whole with a format error.
pub proof fn lemma_bad_header_refused(s: Seq<char>)
    requires
        crate::text::lines_of(s).len() == 0 || header_of(crate::text::lines_of(s)[0]) is None,
    ensures
        document(s) matches Err(e) && e is FormatError,
{
}

/// Whether a number that a field holds keeps within `MAX_READING`.
pub open spec fn number_fits(f: FieldView) -> bool {
    f.value matches Some(ValueView::Number(n)) ==> crate::helpers::fits(n)
}

/// Whether a telegram carries a date, and its totals keep within
/// `MAX_READING`.
pub open spec fn telegram_ok(t: TelegramView) -> bool {
    &&& crate::helpers::timestamp_of(t) is Some
    &&& crate::helpers::energy_reading(t) matches Some(r) ==> crate::helpers::fits(r.1)
        && crate::helpers::fits(r.2)
    &&& crate::helpers::gas_reading(t) matches Some(r) ==> crate::helpers::fits(r.1)
}

/// Whether every open frame holds only valid fields whose numbers keep
/// within `MAX_READING`, and every completed telegram is as `telegram_ok`
/// says.
pub open spec fn frames_ok(st: Frames) -> bool {
    &&& forall|i: int, j: int|
        0 <= i < st.stack.len() && 0 <= j < st.stack[i].len() ==> field_valid(
            #[trigger] st.stack[i][j],
        ) && number_fits(st.stack[i][j])
    &&& forall|k: int| 0 <= k < st.done.len() ==> #[trigger] telegram_ok(st.done[k])
}

/// The number that a numeric field's text gives keeps within `MAX_READING`.
proof fn lemma_number_fits(t: TelegramContentType, v: Seq<char>)
    requires
        crate::telegram::is_number_type(t),
        value_grammar(t, v),
    ensures
        crate::helpers::fits(decimal_value(v)->0),
{
    let signed = v.len() > 0 && (v[0] == '+' || v[0] == '-');
    let body = if signed {
        v.drop_first()
    } else {
        v
    };
    crate::text::lemma_split_piece_len(body, '.', '.');
    crate::text::lemma_split_nonempty(body, '.', '.');
    if v.len() > 10 {
        assert(v.contains('.'));
        let i = choose|i: int| 0 <= i < v.len() && v[i] == '.';
        if signed {
            assert(body[i - 1] == '.');
        } else {
            assert(body[i] == '.');
        }
        crate::text::lemma_split_some(body, '.', '.');
    }
    crate::text::lemma_decimal_bound(v);
}

proof fn lemma_of_type_members(s: Seq<FieldView>, t: TelegramContentType)
    ensures
        forall|i: int|
            0 <= i < of_type(s, t).len() ==> s.contains(#[trigger] of_type(s, t)[i]) && of_type(
                s,
                t,
            )[i].content_type == t,
    decreases s.len(),
{
    if s.len() > 0 {
        lemma_of_type_members(s.drop_last(), t);
        let init = of_type(s.drop_last(), t);
        assert forall|i: int| 0 <= i < of_type(s, t).len() implies s.contains(
            #[trigger] of_type(s, t)[i],
        ) && of_type(s, t)[i].content_type == t by {
            if i < init.len() {
                assert(of_type(s, t)[i] == init[i]);
                let j = choose|j: int| 0 <= j < s.drop_last().len() && s.drop_last()[j] == init[i];
                assert(s[j] == init[i]);
            } else {
                assert(of_type(s, t)[i] == s.last());
                assert(s[s.len() - 1] == s.last());
            }
        }
    }
}

proof fn lemma_step_frames_ok(cfg: ParserConfig, st: Frames, f: FieldView)
    requires
        frames_ok(st),
        field_valid(f),
        number_fits(f),
    ensures
        step(cfg, st, f) matches Ok(next) ==> frames_ok(next),
{
    match step(cfg, st, f) {
        Ok(next) => {
            match f.content_type {
                TelegramContentType::Start => {
                    assert forall|i: int, j: int|
                        0 <= i < next.stack.len() && 0 <= j < next.stack[i].len() implies field_valid(
                            #[trigger] next.stack[i][j],
                        ) && number_fits(next.stack[i][j]) by {
                        if i < st.stack.len() {
                            assert(next.stack[i] == st.stack[i]);
                        }
                    }
                },
                TelegramContentType::End => {
                    let frame = st.stack.last().push(f);
                    assert forall|j: int| 0 <= j < frame.len() implies field_valid(#[trigger] frame[j])
                        && number_fits(frame[j]) by {
                        if j < frame.len() - 1 {
                            assert(frame[j] == st.stack[st.stack.len() - 1][j]);
                        }
                    }
                    lemma_of_type_members(frame, TelegramContentType::Date);
                    lemma_of_type_members(frame, TelegramContentType::GasTotalDelivered);
                    lemma_of_type_members(frame, TelegramContentType::TotalConsumed);
                    lemma_of_type_members(frame, TelegramContentType::TotalProduced);
                    let dates = of_type(frame, TelegramContentType::Date);
                    let d = dates[dates.len() - 1];
                    assert(frame.contains(d));
                    let t = assembled(frame)->0;
                    assert(t.base.date == d);
                    assert(crate::helpers::timestamp_of(t) is Some);
                    if has_gas(frame) {
                        let g = of_type(frame, TelegramContentType::GasTotalDelivered);
                        assert(frame.contains(g[g.len() - 1]));
                    } else {
                        let c = of_type(frame, TelegramContentType::TotalConsumed);
                        let p = of_type(frame, TelegramContentType::TotalProduced);
                        assert(frame.contains(c[c.len() - 1]));
                        assert(frame.contains(p[p.len() - 1]));
                    }
                    assert(telegram_ok(t));
                    assert forall|k: int| 0 <= k < next.done.len() implies #[trigger] telegram_ok(
                        next.done[k],
                    ) by {
                        if k < st.done.len() {
                            assert(next.done[k] == st.done[k]);
                        }
                    }
                    assert forall|i: int, j: int|
                        0 <= i < next.stack.len() && 0 <= j < next.stack[i].len() implies field_valid(
                            #[trigger] next.stack[i][j],
                        ) && number_fits(next.stack[i][j]) by {
                        assert(next.stack[i] == st.stack[i]);
                    }
                },
                _ => {
                    assert forall|i: int, j: int|
                        0 <= i < next.stack.len() && 0 <= j < next.stack[i].len() implies field_valid(
                            #[trigger] next.stack[i][j],
                        ) && number_fits(next.stack[i][j]) by {
                        if i < st.stack.len() - 1 {
                            assert(next.stack[i] == st.stack[i]);
                        } else if j < st.stack[i].len() {
                            assert(next.stack[i][j] == st.stack[i][j]);
                        }
                    }
                },
            }
        },
        Err(_) => {},
    }
}

proof fn lemma_run_frames_ok(cfg: ParserConfig, ls: Seq<Seq<char>>)
    ensures
        run(cfg, ls) matches Ok(st) ==> frames_ok(st),
    decreases ls.len(),
{
    if ls.len() > 0 {
        lemma_run_frames_ok(cfg, ls.drop_last());
        match run(cfg, ls.drop_last()) {
            Ok(st) => {
                if !crate::text::is_blank(ls.last()) {
                    match line_field(ls.last()) {
                        Some(f) => {
                            let halves = split(ls.last(), '#', '#');
                            let body = strip_parens(halves[1]);
                            let text = if body.contains('*') {
                                split(body, '*', '*')[0]
                            } else {
                                body
                            };
                            if crate::telegram::is_number_type(f.content_type) {
                                lemma_number_fits(f.content_type, text);
                            }
                            lemma_step_frames_ok(cfg, st, f);
                        },
                        None => {},
                    }
                }
            },
            Err(_) => {},
        }
    }
}

} // verus!
