//! The durable per-day record of completed phases: one reserved ASCII byte
//! per phase, concatenated in chronological order, in a file named after the
//! UTC calendar date. This module holds the encoding, the decoding with its
//! corruption check, and the record-name formatting; reading and writing the
//! bytes themselves is the caller's work.
use vstd::prelude::*;
use crate::phase::Phase;

verus! {

/// Errors of the durable record.
#[derive(Clone, Copy, Debug, PartialEq, Eq, Structural)]
pub enum StoreError {
    /// The stored bytes hold a byte outside the three reserved phase codes.
    CorruptRecord,
    /// The record could not be written, or its directory could not be made.
    PersistenceFailure,
}

/// The reserved byte for a phase: ASCII '0' for work, '1' for a short
/// break, '2' for a long break.
pub open spec fn phase_code(p: Phase) -> u8 {
    match p {
        Phase::Work => 48,
        Phase::Break => 49,
        Phase::LongBreak => 50,
    }
}

/// The phase a stored byte stands for, if it is one of the reserved codes.
pub open spec fn spec_decode_byte(b: u8) -> Option<Phase> {
    if b == 48 {
        Some(Phase::Work)
    } else if b == 49 {
        Some(Phase::Break)
    } else if b == 50 {
        Some(Phase::LongBreak)
    } else {
        None
    }
}

/// The encoded form of a history: its phases' codes in order.
pub open spec fn spec_encode(h: Seq<Phase>) -> Seq<u8> {
    h.map_values(|p: Phase| phase_code(p))
}

/// Whether every stored byte is one of the three reserved codes.
pub open spec fn record_valid(s: Seq<u8>) -> bool {
    forall|i: int| 0 <= i < s.len() ==> (#[trigger] spec_decode_byte(s[i])) is Some
}

/// The history a record holds, or nothing when any byte is corrupt.
pub open spec fn spec_decode(s: Seq<u8>) -> Option<Seq<Phase>> {
    if record_valid(s) {
        Some(s.map_values(|b: u8| spec_decode_byte(b).unwrap()))
    } else {
        None
    }
}

/// Encodes a history of completed phases as the record's bytes.
pub fn encode_progress(phases: &Vec<Phase>) -> (r: Vec<u8>)
    ensures
        r@ == spec_encode(phases@),
{
    let mut out: Vec<u8> = Vec::new();
    let mut idx: usize = 0;
    while idx < phases.len()
        invariant
            idx <= phases@.len(),
            out@.len() == idx,
            forall|j: int| 0 <= j < idx ==> out@[j] == phase_code(#[trigger] phases@[j]),
        decreases phases@.len() - idx,
    {
        let b: u8 = match phases[idx] {
            Phase::Work => 48,
            Phase::Break => 49,
            Phase::LongBreak => 50,
        };
        out.push(b);
        idx = idx + 1;
    }
    proof {
        assert(out@ =~= spec_encode(phases@));
    }
    out
}

/// Decodes a record's bytes back into the history they hold. Succeeds if
/// and only if every byte is one of the three reserved codes; any other
/// byte is a corrupt record, never skipped.
pub fn decode_progress(bytes: &Vec<u8>) -> (r: Result<Vec<Phase>, StoreError>)
    ensures
        r is Ok <==> record_valid(bytes@),
        r matches Ok(v) ==> Some(v@) == spec_decode(bytes@),
        r matches Err(e) ==> e == StoreError::CorruptRecord,
{
    let mut out: Vec<Phase> = Vec::new();
    let mut idx: usize = 0;
    while idx < bytes.len()
        invariant
            idx <= bytes@.len(),
            out@.len() == idx,
            forall|j: int| 0 <= j < idx ==> (#[trigger] spec_decode_byte(bytes@[j])) is Some
                && out@[j] == spec_decode_byte(bytes@[j]).unwrap(),
        decreases bytes@.len() - idx,
    {
        let b = bytes[idx];
        let p = if b == 48 {
            Phase::Work
        } else if b == 49 {
            Phase::Break
        } else if b == 50 {
            Phase::LongBreak
        } else {
            proof {
                assert(spec_decode_byte(bytes@[idx as int]) is None);
            }
            return Err(StoreError::CorruptRecord);
        };
        out.push(p);
        idx = idx + 1;
    }
    proof {
        assert(out@ =~= spec_decode(bytes@).unwrap());
    }
    Ok(out)
}

/// The history an optional record holds: an absent record is an empty
/// history; a present one decodes as its bytes say.
pub open spec fn spec_load(record: Option<Seq<u8>>) -> Option<Seq<Phase>> {
    match record {
        Option::None => Some(Seq::<Phase>::empty()),
        Option::Some(s) => spec_decode(s),
    }
}

/// Loads the day's history from the record's bytes as read from storage:
/// an absent record yields the empty history, a present one is decoded,
/// and a corrupt byte fails the load rather than being skipped.
pub fn load_progress(record: Option<Vec<u8>>) -> (r: Result<Vec<Phase>, StoreError>)
    ensures
        match record {
            Option::Some(bytes) => r is Ok <==> record_valid(bytes@),
            Option::None => r is Ok,
        },
        r matches Ok(v) ==> Some(v@) == spec_load(
            match record {
                Option::Some(bytes) => Some(bytes@),
                Option::None => None,
            },
        ),
        r matches Err(e) ==> e == StoreError::CorruptRecord,
{
    match record {
        Option::None => {
            let empty: Vec<Phase> = Vec::new();
            proof {
                assert(empty@ =~= Seq::<Phase>::empty());
            }
            Ok(empty)
        },
        Option::Some(bytes) => decode_progress(&bytes),
    }
}

/// Encoding then decoding a history gives the same history back: the record
/// format loses nothing and invents nothing.
pub proof fn lemma_record_roundtrip(h: Seq<Phase>)
    ensures
        spec_decode(spec_encode(h)) == Some(h),
{
    assert(record_valid(spec_encode(h)));
    assert(spec_encode(h).map_values(|b: u8| spec_decode_byte(b).unwrap()) =~= h);
}

/// The character of a single decimal digit.
pub open spec fn digit_char(d: int) -> char {
    if d == 0 {
        '0'
    } else if d == 1 {
        '1'
    } else if d == 2 {
        '2'
    } else if d == 3 {
        '3'
    } else if d == 4 {
        '4'
    } else if d == 5 {
        '5'
    } else if d == 6 {
        '6'
    } else if d == 7 {
        '7'
    } else if d == 8 {
        '8'
    } else {
        '9'
    }
}

/// The record name for a date: the year zero-padded to four digits, the
/// month and day each to two, separated by dashes.
pub open spec fn spec_record_name(y: int, m: int, d: int) -> Seq<char> {
    seq![
        digit_char(y / 1000 % 10),
        digit_char(y / 100 % 10),
        digit_char(y / 10 % 10),
        digit_char(y % 10),
        '-',
        digit_char(m / 10 % 10),
        digit_char(m % 10),
        '-',
        digit_char(d / 10 % 10),
        digit_char(d % 10),
    ]
}

fn digit_str(d: u32) -> (r: &'static str)
    requires
        d < 10,
    ensures
        r@ =~= seq![digit_char(d as int)],
{
    proof {
        reveal_strlit("0");
        reveal_strlit("1");
        reveal_strlit("2");
        reveal_strlit("3");
        reveal_strlit("4");
        reveal_strlit("5");
        reveal_strlit("6");
        reveal_strlit("7");
        reveal_strlit("8");
        reveal_strlit("9");
    }
    match d {
        0 => "0",
        1 => "1",
        2 => "2",
        3 => "3",
        4 => "4",
        5 => "5",
        6 => "6",
        7 => "7",
        8 => "8",
        _ => "9",
    }
}

/// Formats the record name for a calendar date, zero-padded as the stored
/// layout wants it.
pub fn progress_file_name(year: u32, month: u32, day: u32) -> (r: String)
    requires
        year <= 9999,
        1 <= month <= 12,
        1 <= day <= 31,
    ensures
        r@ == spec_record_name(year as int, month as int, day as int),
{
    proof {
        reveal_strlit("-");
    }
    let mut s = String::new();
    s.append(digit_str(year / 1000));
    s.append(digit_str(year / 100 % 10));
    s.append(digit_str(year / 10 % 10));
    s.append(digit_str(year % 10));
    s.append("-");
    s.append(digit_str(month / 10));
    s.append(digit_str(month % 10));
    s.append("-");
    s.append(digit_str(day / 10));
    s.append(digit_str(day % 10));
    proof {
        assert(s@ =~= spec_record_name(year as int, month as int, day as int));
    }
    s
}

/// Relies on std::time::SystemTime::now and duration_since to read the
/// clock as signed seconds around the Unix epoch, on
/// chrono::DateTime::from_timestamp to turn them into a UTC date (it
/// returns nothing outside chrono's representable range), and on
/// chrono::Datelike::year, month and day to read that date; Datelike
/// documents the month in 1..=12 and the day of month in 1..=31.
#[verifier::external_body]
fn current_date_utc() -> (r: Option<(i32, u32, u32)>)
    ensures
        r matches Some(ymd) ==> 1 <= ymd.1 <= 12 && 1 <= ymd.2 <= 31,
{
    let seconds: i64 = match std::time::SystemTime::now().duration_since(std::time::UNIX_EPOCH) {
        Ok(fwd) => i64::try_from(fwd.as_secs()).ok()?,
        Err(back) => -(i64::try_from(back.duration().as_secs()).ok()?),
    };
    let d = chrono::DateTime::from_timestamp(seconds, 0)?.date_naive();
    Some((chrono::Datelike::year(&d), chrono::Datelike::month(&d), chrono::Datelike::day(&d)))
}

/// The record name for a calendar date as the clock reports it: the
/// formatted name exactly when the year fits the four-digit name format,
/// and nothing otherwise.
pub fn record_name_for(y: i32, m: u32, d: u32) -> (r: Option<String>)
    requires
        1 <= m <= 12,
        1 <= d <= 31,
    ensures
        0 <= y <= 9999 ==> (r matches Some(s) && s@ == spec_record_name(
            y as int,
            m as int,
            d as int,
        )),
        !(0 <= y <= 9999) ==> r is None,
{
    if 0 <= y && y <= 9999 {
        Some(progress_file_name(y as u32, m, d))
    } else {
        None
    }
}

/// The record name for the current UTC date, or nothing when the clock
/// stands outside chrono's range or reports a year outside the four-digit
/// range the name format covers.
pub fn todays_record_name() -> (r: Option<String>)
    ensures
        r matches Some(s) ==> exists|y: int, m: int, d: int|
            0 <= y <= 9999 && 1 <= m <= 12 && 1 <= d <= 31 && s@ == spec_record_name(y, m, d),
{
    match current_date_utc() {
        Option::None => None,
        Option::Some((y, m, d)) => {
            let r = record_name_for(y, m, d);
            proof {
                if r is Some {
                    assert(r->0@ == spec_record_name(y as int, m as int, d as int));
                }
            }
            r
        },
    }
}

} // verus!
