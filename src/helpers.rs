//! The time series and event-log messages derived from a sequence of
//! telegrams.
use itertools::Itertools;
use vstd::prelude::*;

use crate::error::DsmrError;
use crate::telegram::{
    keyed_views, telegram_views, BaseView, DataView, FieldView, Telegram, TelegramBase,
    TelegramContent, TelegramData, TelegramView, Value, ValueView,
};

verus! {

/// The value of the hex digit `c`, in either case.
pub open spec fn hex_value(c: char) -> Option<int> {
    if '0' <= c && c <= '9' {
        Some(c as int - '0' as int)
    } else if 'a' <= c && c <= 'f' {
        Some(c as int - 'a' as int + 10)
    } else if 'A' <= c && c <= 'F' {
        Some(c as int - 'A' as int + 10)
    } else {
        None
    }
}

/// The character whose code is `16 * hi + lo`.
pub open spec fn pair_char(hi: int, lo: int) -> char {
    ((16 * hi + lo) as u8) as char
}

/// The text that a message of hex-digit pairs encodes, one character per
/// pair; `None` for an odd length or a character that is no hex digit.
pub open spec fn decoded(m: Seq<char>) -> Option<Seq<char>> {
    if m.len() % 2 == 0 && forall|i: int| 0 <= i < m.len() ==> #[trigger] hex_value(m[i]) is Some {
        Some(
            Seq::new(
                (m.len() / 2) as nat,
                |i: int| pair_char(hex_value(m[2 * i])->0, hex_value(m[2 * i + 1])->0),
            ),
        )
    } else {
        None
    }
}

fn hex_digit(c: char) -> (r: Option<u8>)
    ensures
        r matches Some(v) ==> hex_value(c) == Some(v as int),
        r is None ==> hex_value(c) is None,
{
    if '0' <= c && c <= '9' {
        Some((c as u32 - '0' as u32) as u8)
    } else if 'a' <= c && c <= 'f' {
        Some((c as u32 - 'a' as u32 + 10) as u8)
    } else if 'A' <= c && c <= 'F' {
        Some((c as u32 - 'A' as u32 + 10) as u8)
    } else {
        None
    }
}

/// Decodes an event-log message written as hex-digit pairs.
pub fn decode_message(message: &String) -> (r: Result<String, DsmrError>)
    ensures
        r is Ok <==> decoded(message@) is Some,
        r matches Ok(s) ==> decoded(message@) == Some(s@),
        r matches Err(e) ==> e is EncodingError,
{
    let m = crate::text::chars_of(message.as_str());
    if m.len() % 2 != 0 {
        return Err(DsmrError::EncodingError);
    }
    let mut result = String::new();
    let mut i: usize = 0;
    while i < m.len()
        invariant
            m@ == message@,
            m@.len() % 2 == 0,
            i <= m@.len(),
            i % 2 == 0,
            forall|j: int| 0 <= j < i ==> #[trigger] hex_value(m@[j]) is Some,
            result@ == Seq::new(
                (i / 2) as nat,
                |k: int| pair_char(hex_value(m@[2 * k])->0, hex_value(m@[2 * k + 1])->0),
            ),
        decreases m.len() - i,
    {
        let x = match hex_digit(m[i]) {
            Some(x) => x,
            None => return Err(DsmrError::EncodingError),
        };
        let y = match hex_digit(m[i + 1]) {
            Some(y) => y,
            None => return Err(DsmrError::EncodingError),
        };
        let code = (16 * (x as u32) + (y as u32)) as u8;
        result.push(code as char);
        proof {
            assert(result@ =~= Seq::new(
                ((i + 2) / 2) as nat,
                |k: int| pair_char(hex_value(m@[2 * k])->0, hex_value(m@[2 * k + 1])->0),
            ));
        }
        i = i + 2;
    }
    Ok(result)
}

/// Two outcomes that both meet the contract of `decode_message` for the same
/// message agree: decoding is repeatable.
pub proof fn lemma_decode_repeatable(m: Seq<char>, first: Option<Seq<char>>, second: Option<Seq<char>>)
    requires
        first is Some <==> decoded(m) is Some,
        first matches Some(s) ==> decoded(m) == Some(s),
        second is Some <==> decoded(m) is Some,
        second matches Some(s) ==> decoded(m) == Some(s),
    ensures
        first == second,
{
}

/// One point of a three-phase series (voltage or current).
#[derive(Clone, Copy, Debug, PartialEq, Eq, Structural)]
pub struct PhasePoint {
    pub timestamp: i64,
    pub phase_1: i128,
    pub phase_2: i128,
    pub phase_3: i128,
}

/// The absolute time of a telegram's date field.
pub open spec fn timestamp_of(t: TelegramView) -> Option<i64> {
    match t.base.date.value {
        Some(ValueView::Date(d)) => Some(d.timestamp),
        _ => None,
    }
}

/// Whether every telegram carries a date value.
pub open spec fn all_dated(ts: Seq<TelegramView>) -> bool {
    forall|i: int| 0 <= i < ts.len() ==> #[trigger] timestamp_of(ts[i]) is Some
}

/// The number that a field holds.
pub open spec fn number_of(f: FieldView) -> Option<int> {
    match f.value {
        Some(ValueView::Number(n)) => Some(n),
        _ => None,
    }
}

/// The time and the three phase readings of an electricity telegram whose
/// three voltages (or, with `current`, currents) all hold numbers.
pub open spec fn phase_reading(t: TelegramView, current: bool) -> Option<(i64, int, int, int)> {
    match t.data {
        DataView::Electricity { voltages, currents, .. } => {
            let p = if current {
                currents
            } else {
                voltages
            };
            if number_of(p[0]) is Some && number_of(p[1]) is Some && number_of(p[2]) is Some {
                Some(
                    (
                        timestamp_of(t)->0,
                        number_of(p[0])->0,
                        number_of(p[1])->0,
                        number_of(p[2])->0,
                    ),
                )
            } else {
                None
            }
        },
        DataView::Gas { .. } => None,
    }
}

/// The phase readings of the telegrams, in order.
pub open spec fn phase_readings(ts: Seq<TelegramView>, current: bool) -> Seq<(i64, int, int, int)>
    decreases ts.len(),
{
    if ts.len() == 0 {
        Seq::empty()
    } else {
        let init = phase_readings(ts.drop_last(), current);
        match phase_reading(ts.last(), current) {
            Some(r) => init.push(r),
            None => init,
        }
    }
}

/// The larger of `a` and `b`.
pub open spec fn max(a: int, b: int) -> int {
    if a >= b {
        a
    } else {
        b
    }
}

/// The phase-wise maximum of the readings at time `at`, if there is any.
pub open spec fn merged(rs: Seq<(i64, int, int, int)>, at: i64) -> Option<(int, int, int)>
    decreases rs.len(),
{
    if rs.len() == 0 {
        None
    } else {
        let prev = merged(rs.drop_last(), at);
        let r = rs.last();
        if r.0 == at {
            match prev {
                Some(p) => Some((max(p.0, r.1), max(p.1, r.2), max(p.2, r.3))),
                None => Some((r.1, r.2, r.3)),
            }
        } else {
            prev
        }
    }
}

/// One point per reading: its time, and for each phase the maximum over it
/// and every earlier reading at the same time.
pub open spec fn phase_series(rs: Seq<(i64, int, int, int)>) -> Seq<(i64, int, int, int)> {
    Seq::new(
        rs.len(),
        |i: int|
            {
                let m = merged(rs.take(i + 1), rs[i].0)->0;
                (rs[i].0, m.0, m.1, m.2)
            },
    )
}

/// What the points of a three-phase series hold.
pub open spec fn phase_points(ps: Seq<PhasePoint>) -> Seq<(i64, int, int, int)> {
    ps.map_values(
        |p: PhasePoint| (p.timestamp, p.phase_1 as int, p.phase_2 as int, p.phase_3 as int),
    )
}

fn timestamp_from(t: &Telegram) -> (r: i64)
    requires
        timestamp_of(t@) is Some,
    ensures
        timestamp_of(t@) == Some(r),
{
    match &t.base.date.value {
        Some(Value::Date(d)) => d.timestamp,
        _ => 0,
    }
}

fn number_from(f: &TelegramContent) -> (r: Option<i128>)
    ensures
        r matches Some(n) ==> number_of(f@) == Some(n as int),
        r is None ==> number_of(f@) is None,
{
    match &f.value {
        Some(Value::Number(n)) => Some(*n),
        _ => None,
    }
}

fn phase_reading_from(t: &Telegram, current: bool) -> (r: Option<(i64, i128, i128, i128)>)
    requires
        timestamp_of(t@) is Some,
    ensures
        r matches Some(x) ==> phase_reading(t@, current) == Some(
            (x.0, x.1 as int, x.2 as int, x.3 as int),
        ),
        r is None ==> phase_reading(t@, current) is None,
{
    match &t.data {
        TelegramData::Electricity { voltages, currents, .. } => {
            let p = if current {
                currents
            } else {
                voltages
            };
            proof {
                assert(crate::telegram::field_views(p@)[0] == p@[0]@);
                assert(crate::telegram::field_views(p@)[1] == p@[1]@);
                assert(crate::telegram::field_views(p@)[2] == p@[2]@);
            }
            let a = number_from(&p[0]);
            let b = number_from(&p[1]);
            let c = number_from(&p[2]);
            match (a, b, c) {
                (Some(a), Some(b), Some(c)) => Some((timestamp_from(t), a, b, c)),
                _ => None,
            }
        },
        TelegramData::Gas { .. } => None,
    }
}

fn process_phases(telegrams: &[Telegram], current: bool) -> (r: Vec<PhasePoint>)
    requires
        all_dated(telegram_views(telegrams@)),
    ensures
        phase_points(r@) == phase_series(phase_readings(telegram_views(telegrams@), current)),
{
    broadcast use vstd::std_specs::hash::group_hash_axioms;

    let ghost all = telegram_views(telegrams@);
    let mut seen: std::collections::HashMap<i64, (i128, i128, i128)> =
        std::collections::HashMap::new();
    let mut out: Vec<PhasePoint> = Vec::new();
    let mut i: usize = 0;
    proof {
        assert(all.take(0) =~= Seq::<TelegramView>::empty());
        assert(phase_points(out@) =~= phase_series(phase_readings(all.take(0), current)));
    }
    while i < telegrams.len()
        invariant
            i <= telegrams@.len(),
            all == telegram_views(telegrams@),
            all_dated(all),
            phase_points(out@) == phase_series(phase_readings(all.take(i as int), current)),
            forall|at: i64|
                #![trigger seen@.contains_key(at)]
                seen@.contains_key(at) == merged(phase_readings(all.take(i as int), current), at) is Some,
            forall|at: i64|
                #![trigger seen@[at]]
                seen@.contains_key(at) ==> merged(phase_readings(all.take(i as int), current), at)
                    == Some((seen@[at].0 as int, seen@[at].1 as int, seen@[at].2 as int)),
        decreases telegrams.len() - i,
    {
        let t = &telegrams[i];
        let ghost rs = phase_readings(all.take(i as int), current);
        proof {
            assert(all[i as int] == t@);
            assert(timestamp_of(all[i as int]) is Some);
            assert(all.take(i + 1).drop_last() =~= all.take(i as int));
            assert(all.take(i + 1).last() == t@);
        }
        match phase_reading_from(t, current) {
            Some((at, a, b, c)) => {
                let ghost r = (at, a as int, b as int, c as int);
                let ghost rs2 = rs.push(r);
                proof {
                    assert(rs2.drop_last() =~= rs);
                    assert(phase_readings(all.take(i + 1), current) == rs2);
                }
                let merged_now: (i128, i128, i128) = match seen.get(&at) {
                    Some(prev) => {
                        let p = *prev;
                        (
                            if a > p.0 { a } else { p.0 },
                            if b > p.1 { b } else { p.1 },
                            if c > p.2 { c } else { p.2 },
                        )
                    },
                    None => (a, b, c),
                };
                proof {
                    assert(merged(rs2, at) == Some(
                        (merged_now.0 as int, merged_now.1 as int, merged_now.2 as int),
                    ));
                }
                seen.insert(at, merged_now);
                let ghost old_out = out@;
                out.push(PhasePoint {
                    timestamp: at,
                    phase_1: merged_now.0,
                    phase_2: merged_now.1,
                    phase_3: merged_now.2,
                });
                proof {
                    assert forall|k: int| 0 <= k < rs.len() implies #[trigger] rs2.take(k + 1) == rs.take(
                        k + 1,
                    ) by {
                        assert(rs2.take(k + 1) =~= rs.take(k + 1));
                    }
                    assert(rs2.take(rs.len() as int + 1) =~= rs2);
                    assert(phase_points(out@) =~= phase_points(old_out).push(
                        (at, merged_now.0 as int, merged_now.1 as int, merged_now.2 as int),
                    ));
                    assert forall|k: int| 0 <= k < rs2.len() implies #[trigger] phase_series(rs2)[k]
                        == phase_points(out@)[k] by {
                        if k < rs.len() {
                            assert(rs2[k] == rs[k]);
                            assert(rs2.take(k + 1) == rs.take(k + 1));
                            assert(phase_series(rs)[k] == phase_points(old_out)[k]);
                        }
                    }
                    assert(phase_points(out@) =~= phase_series(rs2));
                    assert forall|x: i64| #![trigger seen@.contains_key(x)] seen@.contains_key(x) == merged(rs2, x) is Some by {
                        if x != at {
                            assert(merged(rs2, x) == merged(rs, x));
                        }
                    }
                    assert forall|x: i64|
                        #![trigger seen@[x]]
                        seen@.contains_key(x) implies merged(rs2, x) == Some(
                            (seen@[x].0 as int, seen@[x].1 as int, seen@[x].2 as int),
                        ) by {
                        if x != at {
                            assert(merged(rs2, x) == merged(rs, x));
                        }
                    }
                }
            },
            None => {
                proof {
                    assert(phase_readings(all.take(i + 1), current) == rs);
                }
            },
        }
        i = i + 1;
    }
    proof {
        assert(all.take(telegrams@.len() as int) =~= all);
    }
    out
}

/// The voltage series: one point per electricity telegram whose three
/// voltages hold numbers, each phase the maximum so far at its time.
pub fn process_voltages(telegrams: &[Telegram]) -> (r: Vec<PhasePoint>)
    requires
        all_dated(telegram_views(telegrams@)),
    ensures
        phase_points(r@) == phase_series(phase_readings(telegram_views(telegrams@), false)),
{
    process_phases(telegrams, false)
}

/// The current series: one point per electricity telegram whose three
/// currents hold numbers, each phase the maximum so far at its time.
pub fn process_currents(telegrams: &[Telegram]) -> (r: Vec<PhasePoint>)
    requires
        all_dated(telegram_views(telegrams@)),
    ensures
        phase_points(r@) == phase_series(phase_readings(telegram_views(telegrams@), true)),
{
    process_phases(telegrams, true)
}

/// A bound on the size of a reading: every reading that the line grammar
/// admits has at most ten digits before the point, so stays below it.
pub const MAX_READING: i128 = 100_000_000_000_000_000_000;

/// Whether a reading keeps within `MAX_READING`.
pub open spec fn fits(v: int) -> bool {
    -MAX_READING <= v <= MAX_READING
}

/// One point of the gas series: the change since the previous reading.
#[derive(Clone, Copy, Debug, PartialEq, Eq, Structural)]
pub struct GasPoint {
    pub timestamp: i64,
    pub gas_delta: i128,
}

/// The time and total of a gas telegram whose total holds a number.
pub open spec fn gas_reading(t: TelegramView) -> Option<(i64, int)> {
    match t.data {
        DataView::Gas { total_gas_delivered } => match number_of(total_gas_delivered) {
            Some(n) => Some((timestamp_of(t)->0, n)),
            None => None,
        },
        DataView::Electricity { .. } => None,
    }
}

/// The gas readings of the telegrams, in order. A repeated time keeps its
/// later reading, whether smaller or larger, so each reading stands as it is.
pub open spec fn gas_readings(ts: Seq<TelegramView>) -> Seq<(i64, int)>
    decreases ts.len(),
{
    if ts.len() == 0 {
        Seq::empty()
    } else {
        let init = gas_readings(ts.drop_last());
        match gas_reading(ts.last()) {
            Some(r) => init.push(r),
            None => init,
        }
    }
}

/// Whether every gas reading keeps within `MAX_READING`.
pub open spec fn gas_fits(ts: Seq<TelegramView>) -> bool {
    forall|i: int| 0 <= i < ts.len() ==> (#[trigger] gas_reading(ts[i]) matches Some(r) ==> fits(r.1))
}

/// The change between each reading and the one before it, at the later
/// reading's time; the first reading gives no point.
pub open spec fn gas_deltas(rs: Seq<(i64, int)>) -> Seq<(i64, int)> {
    Seq::new(
        if rs.len() > 0 {
            (rs.len() - 1) as nat
        } else {
            0
        },
        |i: int| (rs[i + 1].0, rs[i + 1].1 - rs[i].1),
    )
}

/// What the points of the gas series hold.
pub open spec fn gas_points(ps: Seq<GasPoint>) -> Seq<(i64, int)> {
    ps.map_values(|p: GasPoint| (p.timestamp, p.gas_delta as int))
}

proof fn lemma_gas_readings_fit(ts: Seq<TelegramView>)
    requires
        gas_fits(ts),
    ensures
        forall|i: int| 0 <= i < gas_readings(ts).len() ==> fits(#[trigger] gas_readings(ts)[i].1),
    decreases ts.len(),
{
    if ts.len() > 0 {
        assert(gas_fits(ts.drop_last())) by {
            assert forall|i: int| 0 <= i < ts.drop_last().len() implies (#[trigger] gas_reading(
                ts.drop_last()[i],
            ) matches Some(r) ==> fits(r.1)) by {
                assert(ts.drop_last()[i] == ts[i]);
            }
        }
        lemma_gas_readings_fit(ts.drop_last());
        assert(ts.last() == ts[ts.len() - 1]);
        assert(gas_reading(ts[ts.len() - 1]) matches Some(r) ==> fits(r.1));
        let init = gas_readings(ts.drop_last());
        match gas_reading(ts.last()) {
            Some(r) => {
                assert forall|i: int| 0 <= i < gas_readings(ts).len() implies fits(
                    #[trigger] gas_readings(ts)[i].1,
                ) by {
                    if i < init.len() {
                        assert(gas_readings(ts)[i] == init[i]);
                    }
                }
            },
            None => {},
        }
    }
}

/// The gas series: the change between consecutive gas readings.
pub fn process_gas_data(telegrams: &[Telegram]) -> (r: Vec<GasPoint>)
    requires
        all_dated(telegram_views(telegrams@)),
        gas_fits(telegram_views(telegrams@)),
    ensures
        gas_points(r@) == gas_deltas(gas_readings(telegram_views(telegrams@))),
{
    let ghost all = telegram_views(telegrams@);
    let mut readings: Vec<(i64, i128)> = Vec::new();
    let mut i: usize = 0;
    proof {
        assert(all.take(0) =~= Seq::<TelegramView>::empty());
        assert(readings@.map_values(|r: (i64, i128)| (r.0, r.1 as int)) =~= gas_readings(
            all.take(0),
        ));
    }
    while i < telegrams.len()
        invariant
            i <= telegrams@.len(),
            all == telegram_views(telegrams@),
            all_dated(all),
            readings@.map_values(|r: (i64, i128)| (r.0, r.1 as int)) == gas_readings(
                all.take(i as int),
            ),
        decreases telegrams.len() - i,
    {
        let t = &telegrams[i];
        proof {
            assert(all[i as int] == t@);
            assert(timestamp_of(all[i as int]) is Some);
            assert(all.take(i + 1).drop_last() =~= all.take(i as int));
            assert(all.take(i + 1).last() == t@);
        }
        if let TelegramData::Gas { total_gas_delivered } = &t.data {
            if let Some(n) = number_from(total_gas_delivered) {
                let ghost old = readings@;
                readings.push((timestamp_from(t), n));
                proof {
                    assert(readings@.map_values(|r: (i64, i128)| (r.0, r.1 as int)) =~= old.map_values(
                        |r: (i64, i128)| (r.0, r.1 as int),
                    ).push((t@.base.date.value->0->Date_0.timestamp, n as int)));
                }
            }
        }
        i = i + 1;
    }
    proof {
        assert(all.take(telegrams@.len() as int) =~= all);
        lemma_gas_readings_fit(all);
    }
    let ghost rs = gas_readings(all);
    let mut out: Vec<GasPoint> = Vec::new();
    let mut k: usize = 1;
    proof {
        assert(gas_points(out@) =~= gas_deltas(rs).take(0));
    }
    while k < readings.len()
        invariant
            1 <= k,
            readings@.map_values(|r: (i64, i128)| (r.0, r.1 as int)) == rs,
            readings@.len() == rs.len(),
            k <= readings@.len() || readings@.len() == 0,
            readings@.len() == 0 ==> k == 1,
            forall|j: int| 0 <= j < rs.len() ==> fits(#[trigger] rs[j].1),
            gas_points(out@) == gas_deltas(rs).take(k - 1),
        decreases readings.len() - k,
    {
        let (at, now) = readings[k];
        let (_, before) = readings[k - 1];
        proof {
            assert(rs[k as int].1 == now as int);
            assert(rs[k - 1].1 == before as int);
            assert(fits(rs[k as int].1) && fits(rs[k - 1].1));
        }
        let ghost old = out@;
        out.push(GasPoint { timestamp: at, gas_delta: now - before });
        proof {
            assert(rs[k as int].0 == at);
            assert(gas_points(out@) =~= gas_points(old).push((at, now - before)));
            assert(gas_deltas(rs)[k - 1] == (rs[k as int].0, rs[k as int].1 - rs[k - 1].1));
            assert(gas_points(out@) =~= gas_deltas(rs).take(k as int));
        }
        k = k + 1;
    }
    proof {
        if rs.len() == 0 {
            assert(gas_deltas(rs).len() == 0);
            assert(k - 1 == 0);
            assert(gas_deltas(rs).take(0) =~= gas_deltas(rs));
        } else {
            assert(k == rs.len());
            assert(gas_deltas(rs).len() == k - 1);
            assert(gas_deltas(rs).take(k - 1) =~= gas_deltas(rs));
        }
    }
    out
}

/// One point of the energy series: the change in the consumed and produced
/// totals since the previous time.
#[derive(Clone, Copy, Debug, PartialEq, Eq, Structural)]
pub struct EnergyPoint {
    pub timestamp: i64,
    pub consumed: i128,
    pub produced: i128,
}

/// The time and the two totals of an electricity telegram whose totals hold
/// numbers.
pub open spec fn energy_reading(t: TelegramView) -> Option<(i64, int, int)> {
    match t.data {
        DataView::Electricity { total_consumed, total_produced, .. } => if number_of(
            total_consumed,
        ) is Some && number_of(total_produced) is Some {
            Some((timestamp_of(t)->0, number_of(total_consumed)->0, number_of(total_produced)->0))
        } else {
            None
        },
        DataView::Gas { .. } => None,
    }
}

/// The energy readings of the telegrams, in order.
pub open spec fn energy_readings(ts: Seq<TelegramView>) -> Seq<(i64, int, int)>
    decreases ts.len(),
{
    if ts.len() == 0 {
        Seq::empty()
    } else {
        let init = energy_readings(ts.drop_last());
        match energy_reading(ts.last()) {
            Some(r) => init.push(r),
            None => init,
        }
    }
}

/// Whether every energy reading keeps within `MAX_READING`.
pub open spec fn energy_fits(ts: Seq<TelegramView>) -> bool {
    forall|i: int|
        0 <= i < ts.len() ==> (#[trigger] energy_reading(ts[i]) matches Some(r) ==> fits(r.1) && fits(
            r.2,
        ))
}

/// The sums of the consumed and of the produced totals read at time `at`,
/// if any reading is at that time.
pub open spec fn energy_total(rs: Seq<(i64, int, int)>, at: i64) -> Option<(int, int)>
    decreases rs.len(),
{
    if rs.len() == 0 {
        None
    } else {
        let prev = energy_total(rs.drop_last(), at);
        let r = rs.last();
        if r.0 == at {
            match prev {
                Some(p) => Some((p.0 + r.1, p.1 + r.2)),
                None => Some((r.1, r.2)),
            }
        } else {
            prev
        }
    }
}

/// Whether `p` lists each time that has readings once, in ascending order,
/// with the sums of its readings.
pub open spec fn is_sorted_totals(rs: Seq<(i64, int, int)>, p: Seq<(i64, int, int)>) -> bool {
    &&& forall|i: int, j: int| 0 <= i < j < p.len() ==> #[trigger] p[i].0 < #[trigger] p[j].0
    &&& forall|i: int| 0 <= i < p.len() ==> energy_total(rs, #[trigger] p[i].0) == Some((p[i].1, p[i].2))
    &&& forall|at: i64| #[trigger] energy_total(rs, at) is Some ==> exists|i: int| 0 <= i < p.len() && p[i].0 == at
}

/// The change between each listed time and the one before it.
pub open spec fn energy_deltas(p: Seq<(i64, int, int)>) -> Seq<(i64, int, int)> {
    Seq::new(
        if p.len() > 0 {
            (p.len() - 1) as nat
        } else {
            0
        },
        |i: int| (p[i + 1].0, p[i + 1].1 - p[i].1, p[i + 1].2 - p[i].2),
    )
}

/// The last twelve elements of `s`, in order; all of them when there are
/// fewer.
pub open spec fn last_twelve<A>(s: Seq<A>) -> Seq<A> {
    if s.len() > 12 {
        s.subrange(s.len() - 12, s.len() as int)
    } else {
        s
    }
}

/// What the points of the energy series hold.
pub open spec fn energy_points(ps: Seq<EnergyPoint>) -> Seq<(i64, int, int)> {
    ps.map_values(|p: EnergyPoint| (p.timestamp, p.consumed as int, p.produced as int))
}

/// Relies on `itertools::Itertools::sorted_by_key`: the same elements,
/// ordered by their first component, ascending.
#[verifier::external_body]
fn sort_by_time(v: Vec<(i64, i128, i128)>) -> (r: Vec<(i64, i128, i128)>)
    ensures
        r@.to_multiset() == v@.to_multiset(),
        forall|i: int, j: int| 0 <= i < j < r@.len() ==> r@[i].0 <= r@[j].0,
{
    v.into_iter().sorted_by_key(|e| e.0).collect()
}

/// The largest number of telegrams for which the sums are kept exact.
pub const MAX_TELEGRAMS: usize = 4_294_967_295;

proof fn lemma_energy_total_push(rs: Seq<(i64, int, int)>, r: (i64, int, int), at: i64)
    ensures
        energy_total(rs.push(r), at) == if r.0 == at {
            match energy_total(rs, at) {
                Some(p) => Some((p.0 + r.1, p.1 + r.2)),
                None => Some((r.1, r.2)),
            }
        } else {
            energy_total(rs, at)
        },
{
    assert(rs.push(r).drop_last() =~= rs);
}

/// The energy series: the sums of the totals per time, in ascending order
/// of time, the change between consecutive times, and of those changes the
/// last twelve.
pub fn process_energy_data(telegrams: &[Telegram]) -> (r: Vec<EnergyPoint>)
    requires
        all_dated(telegram_views(telegrams@)),
        energy_fits(telegram_views(telegrams@)),
        telegrams@.len() <= MAX_TELEGRAMS,
    ensures
        exists|p: Seq<(i64, int, int)>|
            is_sorted_totals(energy_readings(telegram_views(telegrams@)), p) && energy_points(r@)
                == last_twelve(energy_deltas(p)),
{
    broadcast use vstd::std_specs::hash::group_hash_axioms;
    broadcast use vstd::seq_lib::group_to_multiset_ensures;

    let ghost all = telegram_views(telegrams@);
    let mut sums: std::collections::HashMap<i64, (i128, i128)> = std::collections::HashMap::new();
    let mut times: Vec<i64> = Vec::new();
    let mut i: usize = 0;
    proof {
        assert(all.take(0) =~= Seq::<TelegramView>::empty());
    }
    while i < telegrams.len()
        invariant
            i <= telegrams@.len(),
            telegrams@.len() <= MAX_TELEGRAMS,
            all == telegram_views(telegrams@),
            all_dated(all),
            energy_fits(all),
            times@.no_duplicates(),
            forall|at: i64|
                #![trigger sums@.contains_key(at)]
                sums@.contains_key(at) == (energy_total(energy_readings(all.take(i as int)), at) is Some),
            forall|at: i64| #![trigger times@.contains(at)] times@.contains(at) == sums@.contains_key(at),
            forall|at: i64|
                #![trigger sums@[at]]
                sums@.contains_key(at) ==> energy_total(energy_readings(all.take(i as int)), at)
                    == Some((sums@[at].0 as int, sums@[at].1 as int)) && -i * MAX_READING
                    <= sums@[at].0 <= i * MAX_READING && -i * MAX_READING <= sums@[at].1 <= i
                    * MAX_READING,
        decreases telegrams.len() - i,
    {
        let t = &telegrams[i];
        let ghost rs = energy_readings(all.take(i as int));
        proof {
            assert(all[i as int] == t@);
            assert(timestamp_of(all[i as int]) is Some);
            assert(all.take(i + 1).drop_last() =~= all.take(i as int));
            assert(all.take(i + 1).last() == t@);
        }
        let reading: Option<(i64, i128, i128)> = match &t.data {
            TelegramData::Electricity { total_consumed, total_produced, .. } => {
                match (number_from(total_consumed), number_from(total_produced)) {
                    (Some(c), Some(p)) => Some((timestamp_from(t), c, p)),
                    _ => None,
                }
            },
            TelegramData::Gas { .. } => None,
        };
        match reading {
            Some((at, c, p)) => {
                let ghost r = (at, c as int, p as int);
                proof {
                    assert(energy_reading(t@) == Some(r));
                    assert(energy_readings(all.take(i + 1)) == rs.push(r));
                    assert(fits(c as int) && fits(p as int));
                }
                let ghost times_before = times@;
                let ghost sums_before = sums@;
                let next = match sums.get(&at) {
                    Some(prev) => {
                        let q = *prev;
                        proof {
                            assert(sums_before.contains_key(at));
                            assert(times_before.contains(at));
                            assert(q == sums_before[at]);
                        }
                        (q.0 + c, q.1 + p)
                    },
                    None => {
                        let ghost old_times = times@;
                        times.push(at);
                        proof {
                            assert(times@.no_duplicates()) by {
                                assert forall|x: int, y: int|
                                    0 <= x < times@.len() && 0 <= y < times@.len() && x != y
                                    implies times@[x] != times@[y] by {
                                    if y == old_times.len() as int {
                                        assert(old_times.contains(old_times[x]));
                                    }
                                    if x == old_times.len() as int {
                                        assert(old_times.contains(old_times[y]));
                                    }
                                }
                            }
                        }
                        proof {
                            assert(!sums_before.contains_key(at));
                            assert(times@ == times_before.push(at));
                        }
                        (c, p)
                    },
                };
                sums.insert(at, next);
                proof {
                    assert(sums@ == sums_before.insert(at, next));
                    assert(times@ == times_before || times@ == times_before.push(at));
                    assert(times@ == times_before ==> times_before.contains(at));
                    assert forall|x: i64| #![trigger times@.contains(x)] times@.contains(x) == sums@.contains_key(x) by {
                        if times@ == times_before.push(at) {
                            if x == at {
                                assert(times@[times@.len() - 1] == at);
                            } else if times@.contains(x) {
                                let y = choose|y: int| 0 <= y < times@.len() && times@[y] == x;
                                assert(times_before[y] == x);
                            } else if times_before.contains(x) {
                                let y = choose|y: int| 0 <= y < times_before.len() && times_before[y] == x;
                                assert(times@[y] == x);
                            }
                        }
                        assert(times_before.contains(x) == sums_before.contains_key(x));
                    }
                    assert forall|x: i64| #![trigger sums@.contains_key(x)] sums@.contains_key(x) == (energy_total(rs.push(r), x) is Some) by {
                        lemma_energy_total_push(rs, r, x);
                    }
                    assert forall|x: i64|
                        #![trigger sums@[x]]
                        sums@.contains_key(x) implies energy_total(rs.push(r), x) == Some(
                            (sums@[x].0 as int, sums@[x].1 as int),
                        ) && -(i + 1) * MAX_READING <= sums@[x].0 <= (i + 1) * MAX_READING && -(i
                            + 1) * MAX_READING <= sums@[x].1 <= (i + 1) * MAX_READING by {
                        lemma_energy_total_push(rs, r, x);
                    }
                }
            },
            None => {
                proof {
                    assert(energy_readings(all.take(i + 1)) == rs);
                }
            },
        }
        i = i + 1;
    }
    proof {
        assert(all.take(telegrams@.len() as int) =~= all);
    }
    let ghost rs = energy_readings(all);
    proof {
        assert forall|k: int| 0 <= k < times@.len() implies sums@.contains_key(#[trigger] times@[k]) by {
            assert(times@.contains(times@[k]));
        }
    }
    let mut entries: Vec<(i64, i128, i128)> = Vec::new();
    let mut j: usize = 0;
    while j < times.len()
        invariant
            j <= times@.len(),
            times@.no_duplicates(),
            forall|at: i64| #![trigger times@.contains(at)] times@.contains(at) == sums@.contains_key(at),
            forall|at: i64| #![trigger sums@.contains_key(at)] sums@.contains_key(at) == (energy_total(rs, at) is Some),
            forall|at: i64|
                #![trigger sums@[at]]
                sums@.contains_key(at) ==> energy_total(rs, at) == Some(
                    (sums@[at].0 as int, sums@[at].1 as int),
                ) && -MAX_TELEGRAMS * MAX_READING <= sums@[at].0 <= MAX_TELEGRAMS * MAX_READING
                    && -MAX_TELEGRAMS * MAX_READING <= sums@[at].1 <= MAX_TELEGRAMS * MAX_READING,
            entries@.len() == j,
            forall|k: int| 0 <= k < times@.len() ==> sums@.contains_key(#[trigger] times@[k]),
            forall|k: int|
                0 <= k < j ==> #[trigger] entries@[k] == (
                    times@[k],
                    sums@[times@[k]].0,
                    sums@[times@[k]].1,
                ),
        decreases times.len() - j,
    {
        let at = times[j];
        proof {
            assert(times@.contains(at));
            assert(sums@.contains_key(at));
        }
        let v = *sums.get(&at).unwrap();
        proof {
            assert(v == sums@[at]);
        }
        let ghost old_entries = entries@;
        entries.push((at, v.0, v.1));
        proof {
            assert forall|k: int| 0 <= k < j + 1 implies #[trigger] entries@[k] == (
                times@[k],
                sums@[times@[k]].0,
                sums@[times@[k]].1,
            ) by {
                if k < j {
                    assert(entries@[k] == old_entries[k]);
                }
            }
        }
        j = j + 1;
    }
    proof {
        assert(entries@.no_duplicates()) by {
            assert forall|x: int, y: int|
                0 <= x < entries@.len() && 0 <= y < entries@.len() && x != y
                implies entries@[x] != entries@[y] by {
                assert(times@[x] != times@[y]);
            }
        }
        entries@.lemma_multiset_has_no_duplicates();
    }
    let ghost ev = entries@;
    let sorted = sort_by_time(entries);
    proof {
        assert forall|x: (i64, i128, i128)| sorted@.to_multiset().contains(x) implies sorted@.to_multiset().count(x) == 1 by {
        }
        sorted@.lemma_multiset_has_no_duplicates_conv();
    }
    let ghost p = sorted@.map_values(|e: (i64, i128, i128)| (e.0, e.1 as int, e.2 as int));
    proof {
        assert forall|k: int| 0 <= k < sorted@.len() implies #[trigger] ev.contains(sorted@[k]) by {
            assert(sorted@.contains(sorted@[k]));
            assert(sorted@.to_multiset().count(sorted@[k]) > 0);
            assert(ev.to_multiset().count(sorted@[k]) > 0);
        }
        assert forall|a: int, b: int| 0 <= a < b < p.len() implies #[trigger] p[a].0 < #[trigger] p[b].0 by {
            assert(ev.contains(sorted@[a]));
            assert(ev.contains(sorted@[b]));
            let x = choose|x: int| 0 <= x < ev.len() && ev[x] == sorted@[a];
            let y = choose|y: int| 0 <= y < ev.len() && ev[y] == sorted@[b];
            if p[a].0 == p[b].0 {
                assert(times@[x] == times@[y]);
                assert(x == y);
                assert(sorted@[a] == sorted@[b]);
            }
        }
        assert forall|k: int| 0 <= k < p.len() implies energy_total(rs, #[trigger] p[k].0) == Some(
            (p[k].1, p[k].2),
        ) by {
            assert(ev.contains(sorted@[k]));
            let x = choose|x: int| 0 <= x < ev.len() && ev[x] == sorted@[k];
            assert(times@.contains(times@[x]));
        }
        assert forall|at: i64| #[trigger] energy_total(rs, at) is Some implies exists|k: int|
            0 <= k < p.len() && p[k].0 == at by {
            assert(times@.contains(at));
            let x = choose|x: int| 0 <= x < times@.len() && times@[x] == at;
            assert(ev.contains(ev[x]));
            assert(ev.to_multiset().count(ev[x]) > 0);
            assert(sorted@.to_multiset().count(ev[x]) > 0);
            assert(sorted@.contains(ev[x]));
            let k = choose|k: int| 0 <= k < sorted@.len() && sorted@[k] == ev[x];
            assert(p[k].0 == at);
        }
        assert(is_sorted_totals(rs, p));
    }
    let mut deltas: Vec<EnergyPoint> = Vec::new();
    let mut k: usize = 1;
    while k < sorted.len()
        invariant
            1 <= k,
            sorted@.len() == p.len(),
            p == sorted@.map_values(|e: (i64, i128, i128)| (e.0, e.1 as int, e.2 as int)),
            forall|a: int| 0 <= a < p.len() ==> energy_total(rs, #[trigger] p[a].0) == Some((p[a].1, p[a].2)),
            forall|at: i64|
                #![trigger sums@[at]]
                sums@.contains_key(at) ==> energy_total(rs, at) == Some(
                    (sums@[at].0 as int, sums@[at].1 as int),
                ) && -MAX_TELEGRAMS * MAX_READING <= sums@[at].0 <= MAX_TELEGRAMS * MAX_READING
                    && -MAX_TELEGRAMS * MAX_READING <= sums@[at].1 <= MAX_TELEGRAMS * MAX_READING,
            forall|at: i64| #![trigger sums@.contains_key(at)] sums@.contains_key(at) == (energy_total(rs, at) is Some),
            k <= sorted@.len() || sorted@.len() == 0,
            sorted@.len() == 0 ==> k == 1,
            energy_points(deltas@) == energy_deltas(p).take(k - 1),
        decreases sorted.len() - k,
    {
        let (at, c, q) = sorted[k];
        let (_, c0, q0) = sorted[k - 1];
        proof {
            assert(p[k as int] == (at, c as int, q as int));
            assert(p[k - 1] == (sorted@[k - 1].0, c0 as int, q0 as int));
            assert(energy_total(rs, p[k as int].0) == Some((p[k as int].1, p[k as int].2)));
            assert(sums@.contains_key(at));
            assert(sums@.contains_key(sorted@[k - 1].0));
            assert(sums@[at].0 == c as int && sums@[at].1 == q as int);
            assert(sums@[sorted@[k - 1].0].0 == c0 as int && sums@[sorted@[k - 1].0].1 == q0 as int);
        }
        let ghost old = deltas@;
        deltas.push(EnergyPoint { timestamp: at, consumed: c - c0, produced: q - q0 });
        proof {
            assert(energy_points(deltas@) =~= energy_points(old).push(
                (at, c - c0, q - q0),
            ));
            assert(energy_points(deltas@) =~= energy_deltas(p).take(k as int));
        }
        k = k + 1;
    }
    let ghost d = energy_deltas(p);
    proof {
        if p.len() == 0 {
            assert(d.take(0) =~= d);
        } else {
            assert(d.take(k - 1) =~= d);
        }
    }
    let first: usize = if deltas.len() > 12 {
        deltas.len() - 12
    } else {
        0
    };
    let mut out: Vec<EnergyPoint> = Vec::new();
    let mut m: usize = first;
    while m < deltas.len()
        invariant
            first <= m <= deltas@.len(),
            energy_points(deltas@) == d,
            first == (if deltas@.len() > 12 { deltas@.len() - 12 } else { 0 }),
            energy_points(out@) == d.subrange(first as int, m as int),
        decreases deltas.len() - m,
    {
        let ghost old = out@;
        out.push(deltas[m]);
        proof {
            assert(energy_points(deltas@)[m as int] == d[m as int]);
            assert(energy_points(out@) =~= energy_points(old).push(energy_points(deltas@)[m as int]));
            assert(energy_points(out@) =~= d.subrange(first as int, m + 1));
        }
        m = m + 1;
    }
    proof {
        assert(energy_points(out@) =~= last_twelve(d));
    }
    out
}

/// The first field in `s` keyed by `k`.
pub open spec fn find_key(s: Seq<(u32, FieldView)>, k: u32) -> Option<FieldView>
    decreases s.len(),
{
    if s.len() == 0 {
        None
    } else if s[0].0 == k {
        Some(s[0].1)
    } else {
        find_key(s.drop_first(), k)
    }
}

/// Whether some field in `s` is keyed by `k`.
pub open spec fn has_key(s: Seq<(u32, FieldView)>, k: u32) -> bool {
    exists|i: int| 0 <= i < s.len() && #[trigger] s[i].0 == k
}

/// The text that a field holds.
pub open spec fn text_of(f: FieldView) -> Option<Seq<char>> {
    match f.value {
        Some(ValueView::Text(t)) => Some(t),
        _ => None,
    }
}

/// The event with id `k`: whether it is of high severity, and its decoded
/// message.
pub open spec fn event_entry(b: BaseView, k: u32) -> Result<(bool, Seq<char>), DsmrError> {
    match (find_key(b.eventlog_severities, k), find_key(b.eventlog_messages, k)) {
        (Some(sev), Some(msg)) => match (text_of(sev), text_of(msg)) {
            (Some(sv), Some(m)) => if sv == seq!['H'] || sv == seq!['L'] {
                match decoded(m) {
                    Some(d) => Ok((sv == seq!['H'], d)),
                    None => Err(DsmrError::EncodingError),
                }
            } else {
                Err(DsmrError::FormatError(""))
            },
            _ => Err(DsmrError::FormatError("")),
        },
        _ => Err(DsmrError::MissingCorrelation),
    }
}

/// Whether every severity of a telegram has a date with its id.
pub open spec fn dates_cover_severities(b: BaseView) -> bool {
    forall|i: int|
        0 <= i < b.eventlog_severities.len() ==> has_key(
            b.eventlog_dates,
            #[trigger] b.eventlog_severities[i].0,
        )
}

/// Whether every severity and message of a telegram has a date with its id.
pub open spec fn dates_cover(b: BaseView) -> bool {
    &&& dates_cover_severities(b)
    &&& forall|i: int|
        0 <= i < b.eventlog_messages.len() ==> has_key(
            b.eventlog_dates,
            #[trigger] b.eventlog_messages[i].0,
        )
}

/// The events of the first `n` dates of a telegram, in order.
pub open spec fn events_upto(b: BaseView, n: int) -> Result<Seq<(bool, Seq<char>)>, DsmrError>
    decreases n,
{
    if n <= 0 {
        Ok(Seq::empty())
    } else {
        match events_upto(b, n - 1) {
            Ok(es) => match event_entry(b, b.eventlog_dates[n - 1].0) {
                Ok(e) => Ok(es.push(e)),
                Err(e) => Err(e),
            },
            Err(e) => Err(e),
        }
    }
}

/// The events of a telegram, one per event-log date, in order.
pub open spec fn telegram_events(b: BaseView) -> Result<Seq<(bool, Seq<char>)>, DsmrError> {
    if dates_cover(b) {
        events_upto(b, b.eventlog_dates.len() as int)
    } else {
        Err(DsmrError::MissingCorrelation)
    }
}

/// The events of all telegrams, in order.
pub open spec fn all_events(ts: Seq<TelegramView>) -> Result<Seq<(bool, Seq<char>)>, DsmrError>
    decreases ts.len(),
{
    if ts.len() == 0 {
        Ok(Seq::empty())
    } else {
        match all_events(ts.drop_last()) {
            Ok(es) => match telegram_events(ts.last().base) {
                Ok(more) => Ok(es + more),
                Err(e) => Err(e),
            },
            Err(e) => Err(e),
        }
    }
}

/// The messages of the events of high severity (or, with `high` false, of
/// low severity), in order.
pub open spec fn messages_of(es: Seq<(bool, Seq<char>)>, high: bool) -> Seq<Seq<char>>
    decreases es.len(),
{
    if es.len() == 0 {
        Seq::empty()
    } else {
        let init = messages_of(es.drop_last(), high);
        if es.last().0 == high {
            init.push(es.last().1)
        } else {
            init
        }
    }
}

/// The decoded event-log messages, by severity.
pub struct EventLog {
    pub high: Vec<String>,
    pub low: Vec<String>,
}

/// The views of a vector of strings.
pub open spec fn string_views(v: Seq<String>) -> Seq<Seq<char>> {
    v.map_values(|s: String| s@)
}

fn find_entry<'a>(s: &'a Vec<(u32, TelegramContent)>, k: u32) -> (r: Option<
    &'a TelegramContent,
>)
    ensures
        r matches Some(f) ==> find_key(keyed_views(s@), k) == Some(f@),
        r is None ==> find_key(keyed_views(s@), k) is None,
{
    let ghost v = keyed_views(s@);
    let mut i: usize = 0;
    proof {
        assert(v.subrange(0, v.len() as int) =~= v);
    }
    while i < s.len()
        invariant
            i <= s@.len(),
            v == keyed_views(s@),
            v.len() == s@.len(),
            find_key(v, k) == find_key(v.subrange(i as int, v.len() as int), k),
        decreases s.len() - i,
    {
        let ghost rest = v.subrange(i as int, v.len() as int);
        proof {
            assert(rest[0] == v[i as int]);
            assert(v[i as int] == (s@[i as int].0, s@[i as int].1@));
            assert(rest.drop_first() =~= v.subrange(i + 1, v.len() as int));
        }
        if s[i].0 == k {
            return Some(&s[i].1);
        }
        i = i + 1;
    }
    None
}

fn has_entry(s: &Vec<(u32, TelegramContent)>, k: u32) -> (r: bool)
    ensures
        r == has_key(keyed_views(s@), k),
{
    let ghost v = keyed_views(s@);
    let mut i: usize = 0;
    while i < s.len()
        invariant
            i <= s@.len(),
            v == keyed_views(s@),
            v.len() == s@.len(),
            forall|j: int| 0 <= j < i ==> v[j].0 != k,
        decreases s.len() - i,
    {
        proof {
            assert(v[i as int].0 == s@[i as int].0);
        }
        if s[i].0 == k {
            return true;
        }
        i = i + 1;
    }
    false
}

fn text_from(f: &TelegramContent) -> (r: Option<&String>)
    ensures
        r matches Some(t) ==> text_of(f@) == Some(t@),
        r is None ==> text_of(f@) is None,
{
    match &f.value {
        Some(Value::String(t)) => Some(t),
        _ => None,
    }
}

fn event_from(b: &TelegramBase, k: u32) -> (r: Result<(bool, String), DsmrError>)
    ensures
        r is Ok <==> event_entry(b@, k) is Ok,
        r matches Ok(e) ==> event_entry(b@, k) == Ok::<(bool, Seq<char>), DsmrError>((e.0, e.1@)),
        r matches Err(e) ==> event_entry(b@, k) matches Err(d) && crate::parser::same_error(e, d),
{
    let sev = match find_entry(&b.eventlog_severities, k) {
        Some(f) => f,
        None => return Err(DsmrError::MissingCorrelation),
    };
    let msg = match find_entry(&b.eventlog_messages, k) {
        Some(f) => f,
        None => return Err(DsmrError::MissingCorrelation),
    };
    let sv = match text_from(sev) {
        Some(t) => t,
        None => return Err(crate::error::parse_error("Invalid severity found")),
    };
    let m = match text_from(msg) {
        Some(t) => t,
        None => return Err(crate::error::parse_error("Invalid message found")),
    };
    let svc = crate::text::chars_of(sv.as_str());
    let h = vec!['H'];
    let l = vec!['L'];
    proof {
        assert(h@ =~= seq!['H']);
        assert(l@ =~= seq!['L']);
    }
    let high = crate::text::same_chars(svc.as_slice(), h.as_slice());
    if !high && !crate::text::same_chars(svc.as_slice(), l.as_slice()) {
        return Err(crate::error::parse_error("Unknown severity value"));
    }
    let d = decode_message(m)?;
    Ok((high, d))
}

/// Decodes the event-log messages of the telegrams and sorts them by
/// severity.
pub fn process_event_logs(telegrams: &[Telegram]) -> (r: Result<EventLog, DsmrError>)
    ensures
        r is Ok <==> all_events(telegram_views(telegrams@)) is Ok,
        r matches Ok(log) ==> {
            let es = all_events(telegram_views(telegrams@))->Ok_0;
            &&& string_views(log.high@) == messages_of(es, true)
            &&& string_views(log.low@) == messages_of(es, false)
        },
        r matches Err(e) ==> all_events(telegram_views(telegrams@)) matches Err(d)
            && crate::parser::same_error(e, d),
{
    let ghost all = telegram_views(telegrams@);
    let mut high: Vec<String> = Vec::new();
    let mut low: Vec<String> = Vec::new();
    let mut i: usize = 0;
    proof {
        assert(all.take(0) =~= Seq::<TelegramView>::empty());
        assert(string_views(high@) =~= Seq::<Seq<char>>::empty());
        assert(string_views(low@) =~= Seq::<Seq<char>>::empty());
    }
    while i < telegrams.len()
        invariant
            i <= telegrams@.len(),
            all == telegram_views(telegrams@),
            all.len() == telegrams@.len(),
            all_events(all.take(i as int)) is Ok,
            string_views(high@) == messages_of(all_events(all.take(i as int))->Ok_0, true),
            string_views(low@) == messages_of(all_events(all.take(i as int))->Ok_0, false),
        decreases telegrams.len() - i,
    {
        let b = &telegrams[i].base;
        let ghost before = all_events(all.take(i as int))->Ok_0;
        proof {
            assert(all[i as int] == telegrams@[i as int]@);
            assert(all.take(i + 1).drop_last() =~= all.take(i as int));
            assert(all.take(i + 1).last().base == b@);
        }
        let mut s: usize = 0;
        while s < b.eventlog_severities.len()
            invariant
                i < telegrams@.len(),
                all == telegram_views(telegrams@),
                all.len() == telegrams@.len(),
                all_events(all.take(i as int)) is Ok,
                before == all_events(all.take(i as int))->Ok_0,
                all[i as int].base == b@,
                s <= b.eventlog_severities@.len(),
                forall|x: int| 0 <= x < s ==> has_key(b@.eventlog_dates, #[trigger] b@.eventlog_severities[x].0),
            decreases b.eventlog_severities.len() - s,
        {
            proof {
                assert(b@.eventlog_severities[s as int].0 == b.eventlog_severities@[s as int].0);
            }
            if !has_entry(&b.eventlog_dates, b.eventlog_severities[s].0) {
                proof {
                    assert(!dates_cover(b@));
                    lemma_events_err_stays(all, i as int + 1);
                }
                return Err(DsmrError::MissingCorrelation);
            }
            s = s + 1;
        }
        let mut s: usize = 0;
        while s < b.eventlog_messages.len()
            invariant
                i < telegrams@.len(),
                all == telegram_views(telegrams@),
                all.len() == telegrams@.len(),
                all_events(all.take(i as int)) is Ok,
                before == all_events(all.take(i as int))->Ok_0,
                all[i as int].base == b@,
                dates_cover_severities(b@),
                s <= b.eventlog_messages@.len(),
                forall|x: int| 0 <= x < s ==> has_key(b@.eventlog_dates, #[trigger] b@.eventlog_messages[x].0),
            decreases b.eventlog_messages.len() - s,
        {
            proof {
                assert(b@.eventlog_messages[s as int].0 == b.eventlog_messages@[s as int].0);
            }
            if !has_entry(&b.eventlog_dates, b.eventlog_messages[s].0) {
                proof {
                    assert(!dates_cover(b@));
                    lemma_events_err_stays(all, i as int + 1);
                }
                return Err(DsmrError::MissingCorrelation);
            }
            s = s + 1;
        }
        let mut j: usize = 0;
        while j < b.eventlog_dates.len()
            invariant
                i < telegrams@.len(),
                all == telegram_views(telegrams@),
                all.len() == telegrams@.len(),
                all_events(all.take(i as int)) is Ok,
                before == all_events(all.take(i as int))->Ok_0,
                all[i as int].base == b@,
                dates_cover(b@),
                j <= b.eventlog_dates@.len(),
                b@.eventlog_dates.len() == b.eventlog_dates@.len(),
                events_upto(b@, j as int) is Ok,
                string_views(high@) == messages_of(before + events_upto(b@, j as int)->Ok_0, true),
                string_views(low@) == messages_of(before + events_upto(b@, j as int)->Ok_0, false),
            decreases b.eventlog_dates.len() - j,
        {
            let k = b.eventlog_dates[j].0;
            proof {
                assert(b@.eventlog_dates[j as int].0 == k);
            }
            let ghost es = events_upto(b@, j as int)->Ok_0;
            match event_from(b, k) {
                Ok((is_high, text)) => {
                    let ghost e = (is_high, text@);
                    proof {
                        assert(events_upto(b@, j + 1) == Ok::<Seq<(bool, Seq<char>)>, DsmrError>(es.push(e)));
                        assert((before + es).push(e) =~= before + es.push(e));
                    }
                    if is_high {
                        let ghost old = high@;
                        high.push(text);
                        proof {
                            assert(string_views(high@) =~= string_views(old).push(e.1));
                            assert((before + es.push(e)).drop_last() =~= before + es);
                        }
                    } else {
                        let ghost old = low@;
                        low.push(text);
                        proof {
                            assert(string_views(low@) =~= string_views(old).push(e.1));
                            assert((before + es.push(e)).drop_last() =~= before + es);
                        }
                    }
                },
                Err(e) => {
                    proof {
                        assert(events_upto(b@, j + 1) is Err);
                        lemma_events_upto_err_stays(b@, j as int + 1, b@.eventlog_dates.len() as int);
                        lemma_events_err_stays(all, i as int + 1);
                    }
                    return Err(e);
                },
            }
            j = j + 1;
        }
        proof {
            assert(before + Seq::<(bool, Seq<char>)>::empty() =~= before);
        }
        i = i + 1;
    }
    proof {
        assert(all.take(telegrams@.len() as int) =~= all);
    }
    Ok(EventLog { high, low })
}

proof fn lemma_events_upto_err_stays(b: BaseView, n: int, m: int)
    requires
        0 <= n <= m,
        events_upto(b, n) is Err,
    ensures
        events_upto(b, m) == events_upto(b, n),
    decreases m - n,
{
    if n < m {
        lemma_events_upto_err_stays(b, n, m - 1);
    }
}

proof fn lemma_events_err_stays(ts: Seq<TelegramView>, n: int)
    requires
        0 < n <= ts.len(),
        all_events(ts.take(n - 1)) is Ok,
        telegram_events(ts[n - 1].base) is Err,
    ensures
        all_events(ts) is Err && all_events(ts)->Err_0 == telegram_events(ts[n - 1].base)->Err_0,
    decreases ts.len() - n,
{
    assert(ts.take(n).drop_last() =~= ts.take(n - 1));
    lemma_events_err_prefix(ts, n);
}

proof fn lemma_events_err_prefix(ts: Seq<TelegramView>, n: int)
    requires
        0 <= n <= ts.len(),
        all_events(ts.take(n)) is Err,
    ensures
        all_events(ts) == all_events(ts.take(n)),
    decreases ts.len() - n,
{
    if n < ts.len() {
        assert(ts.take(n + 1).drop_last() =~= ts.take(n));
        lemma_events_err_prefix(ts, n + 1);
    } else {
        assert(ts.take(n) =~= ts);
    }
}

} // verus!
