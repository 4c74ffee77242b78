//! One observation record: a line of fixed width whose fields stand at fixed
//! byte offsets.

use vstd::prelude::*;
use vstd::slice::slice_subrange;
use crate::decimal::{decimal_i32, parse_decimal};
use crate::error::{Error, Fault, Field, Rejection};

verus! {

/// The shortest line that holds every field: one byte past the quality flag.
pub const RECORD_LENGTH: usize = 93;

/// Where the three bytes of the quality-version tag begin.
pub const QUALITY_VERSION_START: usize = 56;

pub const QUALITY_VERSION_WIDTH: usize = 3;

/// Where the one byte of the quality flag stands.
pub const QUALITY_FLAG_AT: usize = 92;

/// Where a numeric field stands in the line and how it is read.
#[derive(Clone, Copy, Debug, PartialEq, Eq)]
pub struct FieldLayout {
    /// Offset of the field's first byte.
    pub start: usize,
    /// Number of bytes.
    pub width: usize,
    /// Whether a leading `-` is read as a sign.
    pub signed: bool,
}

/// The table of the numeric fields.
pub open spec fn spec_layout(field: Field) -> FieldLayout {
    match field {
        Field::Year => FieldLayout { start: 15, width: 4, signed: false },
        Field::Month => FieldLayout { start: 19, width: 2, signed: false },
        Field::Day => FieldLayout { start: 21, width: 2, signed: false },
        Field::Hour => FieldLayout { start: 23, width: 2, signed: false },
        Field::Minute => FieldLayout { start: 25, width: 2, signed: false },
        Field::Temperature => FieldLayout { start: 87, width: 5, signed: true },
    }
}

/// The version of the quality-control scheme that a record went through.
#[derive(Clone, Copy, Debug, PartialEq, Eq)]
pub enum QualityVersion {
    V02,
    V03,
    /// Any other tag.
    Other,
}

/// Whether a record passed the station's own quality control.
#[derive(Clone, Copy, Debug, PartialEq, Eq)]
pub enum QualityFlag {
    /// The flag is `5`: the record passed quality control.
    Passed,
    /// Any other flag.
    NotPassed,
}

/// One record with its fields read.
#[derive(Clone, Copy, Debug, PartialEq, Eq)]
pub struct ParsedObservation {
    pub year: u32,
    pub month: u32,
    pub day: u32,
    pub hour: u32,
    pub minute: u32,
    /// Temperature in tenths of a degree.
    pub temperature_tenths: i16,
    pub quality_version: QualityVersion,
    pub quality_flag: QualityFlag,
}

/// The bytes `V02`.
pub open spec fn tag_v02() -> Seq<u8> {
    seq![0x56u8, 0x30u8, 0x32u8]
}

/// The bytes `V03`.
pub open spec fn tag_v03() -> Seq<u8> {
    seq![0x56u8, 0x30u8, 0x33u8]
}

/// The byte `5`.
pub open spec fn flag_passed() -> u8 {
    0x35u8
}

pub open spec fn spec_quality_version(tag: Seq<u8>) -> QualityVersion {
    if tag == tag_v02() {
        QualityVersion::V02
    } else if tag == tag_v03() {
        QualityVersion::V03
    } else {
        QualityVersion::Other
    }
}

pub open spec fn spec_quality_flag(flag: u8) -> QualityFlag {
    if flag == flag_passed() {
        QualityFlag::Passed
    } else {
        QualityFlag::NotPassed
    }
}

/// The number is one that the field can hold: the temperature is kept in 16
/// bits, the other fields are too narrow to overflow.
pub open spec fn fits_field(field: Field, number: i32) -> bool {
    field is Temperature ==> i16::MIN <= number <= i16::MAX
}

/// The number that stands in `field`, or what is wrong with it.
pub open spec fn spec_read_field(line: Seq<u8>, field: Field) -> Result<i32, Error> {
    let place = spec_layout(field);
    if line.len() < place.start + place.width {
        Err(Error::MalformedRecord(Fault::TooShort))
    } else {
        match decimal_i32(
            line.subrange(place.start as int, place.start + place.width),
            place.signed,
        ) {
            Some(number) => if fits_field(field, number) {
                Ok(number)
            } else {
                Err(Error::MalformedRecord(Fault::NotANumber(field)))
            },
            None => Err(Error::MalformedRecord(Fault::NotANumber(field))),
        }
    }
}

/// What a line parses to. A line shorter than `RECORD_LENGTH` is too short,
/// whatever it holds. Otherwise the numeric fields are read in the order in
/// which they stand, and the first that is no number is reported.
pub open spec fn spec_parse_record(line: Seq<u8>) -> Result<ParsedObservation, Error> {
    let year = spec_read_field(line, Field::Year);
    let month = spec_read_field(line, Field::Month);
    let day = spec_read_field(line, Field::Day);
    let hour = spec_read_field(line, Field::Hour);
    let minute = spec_read_field(line, Field::Minute);
    let temperature = spec_read_field(line, Field::Temperature);
    if line.len() < RECORD_LENGTH {
        Err(Error::MalformedRecord(Fault::TooShort))
    } else if year is Err {
        Err(year->Err_0)
    } else if month is Err {
        Err(month->Err_0)
    } else if day is Err {
        Err(day->Err_0)
    } else if hour is Err {
        Err(hour->Err_0)
    } else if minute is Err {
        Err(minute->Err_0)
    } else if temperature is Err {
        Err(temperature->Err_0)
    } else {
        Ok(
            ParsedObservation {
                year: year->Ok_0 as u32,
                month: month->Ok_0 as u32,
                day: day->Ok_0 as u32,
                hour: hour->Ok_0 as u32,
                minute: minute->Ok_0 as u32,
                temperature_tenths: temperature->Ok_0 as i16,
                quality_version: spec_quality_version(
                    line.subrange(
                        QUALITY_VERSION_START as int,
                        QUALITY_VERSION_START + QUALITY_VERSION_WIDTH,
                    ),
                ),
                quality_flag: spec_quality_flag(line[QUALITY_FLAG_AT as int]),
            },
        )
    }
}

pub fn layout(field: Field) -> (place: FieldLayout)
    ensures
        place == spec_layout(field),
        place.start + place.width <= RECORD_LENGTH,
{
    match field {
        Field::Year => FieldLayout { start: 15, width: 4, signed: false },
        Field::Month => FieldLayout { start: 19, width: 2, signed: false },
        Field::Day => FieldLayout { start: 21, width: 2, signed: false },
        Field::Hour => FieldLayout { start: 23, width: 2, signed: false },
        Field::Minute => FieldLayout { start: 25, width: 2, signed: false },
        Field::Temperature => FieldLayout { start: 87, width: 5, signed: true },
    }
}

/// Reads one numeric field by the table. The number of an unsigned field is
/// never negative.
pub fn read_field(line: &[u8], field: Field) -> (number: Result<i32, Error>)
    ensures
        number == spec_read_field(line@, field),
        number is Ok && !(field is Temperature) ==> number->Ok_0 >= 0,
{
    let place: FieldLayout = layout(field);
    if line.len() < place.start + place.width {
        return Err(Error::MalformedRecord(Fault::TooShort));
    }
    let text: &[u8] = slice_subrange(line, place.start, place.start + place.width);
    match parse_decimal(text, place.signed) {
        Some(number) => {
            let fits: bool = match field {
                Field::Temperature => -32768 <= number && number <= 32767,
                _ => true,
            };
            if fits {
                Ok(number)
            } else {
                Err(Error::MalformedRecord(Fault::NotANumber(field)))
            }
        },
        None => Err(Error::MalformedRecord(Fault::NotANumber(field))),
    }
}

pub fn quality_version(tag: &[u8]) -> (version: QualityVersion)
    ensures
        version == spec_quality_version(tag@),
{
    if tag.len() == 3 && tag[0] == 0x56 && tag[1] == 0x30 {
        if tag[2] == 0x32 {
            assert(tag@ =~= tag_v02());
            return QualityVersion::V02;
        }
        if tag[2] == 0x33 {
            assert(tag@ =~= tag_v03());
            return QualityVersion::V03;
        }
    }
    assert(tag@ != tag_v02()) by {
        if tag@ == tag_v02() {
            assert(tag_v02().len() == 3 && tag_v02()[0] == 0x56 && tag_v02()[1] == 0x30
                && tag_v02()[2] == 0x32);
        }
    }
    assert(tag@ != tag_v03()) by {
        if tag@ == tag_v03() {
            assert(tag_v03().len() == 3 && tag_v03()[0] == 0x56 && tag_v03()[1] == 0x30
                && tag_v03()[2] == 0x33);
        }
    }
    QualityVersion::Other
}

pub fn quality_flag(flag: u8) -> (passed: QualityFlag)
    ensures
        passed == spec_quality_flag(flag),
{
    if flag == 0x35 {
        QualityFlag::Passed
    } else {
        QualityFlag::NotPassed
    }
}

/// Reads one line. The line yields a whole observation or an error, never a
/// part of one; a line of fewer than `RECORD_LENGTH` bytes is always refused
/// as too short.
pub fn parse_record(line: &[u8]) -> (parsed: Result<ParsedObservation, Error>)
    ensures
        parsed == spec_parse_record(line@),
        line@.len() < RECORD_LENGTH ==> parsed == Err::<ParsedObservation, Error>(
            Error::MalformedRecord(Fault::TooShort),
        ),
        parsed is Err ==> parsed->Err_0 is MalformedRecord,
{
    if line.len() < RECORD_LENGTH {
        return Err(Error::MalformedRecord(Fault::TooShort));
    }
    let year: i32 = match read_field(line, Field::Year) {
        Ok(number) => number,
        Err(error) => { return Err(error); },
    };
    let month: i32 = match read_field(line, Field::Month) {
        Ok(number) => number,
        Err(error) => { return Err(error); },
    };
    let day: i32 = match read_field(line, Field::Day) {
        Ok(number) => number,
        Err(error) => { return Err(error); },
    };
    let hour: i32 = match read_field(line, Field::Hour) {
        Ok(number) => number,
        Err(error) => { return Err(error); },
    };
    let minute: i32 = match read_field(line, Field::Minute) {
        Ok(number) => number,
        Err(error) => { return Err(error); },
    };
    let temperature: i32 = match read_field(line, Field::Temperature) {
        Ok(number) => number,
        Err(error) => { return Err(error); },
    };
    let tag: &[u8] = slice_subrange(
        line,
        QUALITY_VERSION_START,
        QUALITY_VERSION_START + QUALITY_VERSION_WIDTH,
    );
    Ok(
        ParsedObservation {
            year: year as u32,
            month: month as u32,
            day: day as u32,
            hour: hour as u32,
            minute: minute as u32,
            temperature_tenths: temperature as i16,
            quality_version: quality_version(tag),
            quality_flag: quality_flag(line[QUALITY_FLAG_AT]),
        },
    )
}

/// Every line parses, and `records` holds what they parse to, in order.
pub open spec fn parsed_as(lines: Seq<Vec<u8>>, records: Seq<ParsedObservation>) -> bool {
    &&& records.len() == lines.len()
    &&& forall|i: int|
        0 <= i < lines.len() ==> spec_parse_record(#[trigger] lines[i]@) == Ok::<
            ParsedObservation,
            Error,
        >(records[i])
}

/// The line at `rejection.index` is the first that does not parse, and
/// `rejection.error` says why.
pub open spec fn first_unparsed(lines: Seq<Vec<u8>>, rejection: Rejection) -> bool {
    &&& rejection.index < lines.len()
    &&& spec_parse_record(lines[rejection.index as int]@) == Err::<ParsedObservation, Error>(
        rejection.error,
    )
    &&& forall|i: int| 0 <= i < rejection.index ==> spec_parse_record(#[trigger] lines[i]@) is Ok
}

/// Reads every line, in order, and stops at the first that is malformed.
pub fn parse_records(lines: &Vec<Vec<u8>>) -> (parsed: Result<Vec<ParsedObservation>, Rejection>)
    ensures
        match parsed {
            Ok(records) => parsed_as(lines@, records@),
            Err(rejection) => first_unparsed(lines@, rejection),
        },
{
    let mut records: Vec<ParsedObservation> = Vec::new();
    let mut index: usize = 0;
    while index < lines.len()
        invariant
            index <= lines.len(),
            parsed_as(lines@.take(index as int), records@),
        decreases lines.len() - index,
    {
        match parse_record(lines[index].as_slice()) {
            Ok(record) => {
                records.push(record);
            },
            Err(error) => {
                let rejection = Rejection { index, error };
                assert forall|i: int| 0 <= i < index implies spec_parse_record(
                    #[trigger] lines@[i]@,
                ) is Ok by {
                    assert(lines@.take(index as int)[i] == lines@[i]);
                }
                return Err(rejection);
            },
        }
        assert(parsed_as(lines@.take(index + 1), records@)) by {
            assert forall|i: int| 0 <= i < index + 1 implies spec_parse_record(
                #[trigger] lines@.take(index + 1)[i]@,
            ) == Ok::<ParsedObservation, Error>(records@[i]) by {
                if i < index {
                    assert(lines@.take(index as int)[i] == lines@[i]);
                }
            }
        }
        index = index + 1;
    }
    assert(lines@.take(index as int) =~= lines@);
    Ok(records)
}

} // verus!
