use vstd::prelude::*;
use vstd::string::StringSliceAdditionalSpecFns;
use crate::palette::{
    color_to_index, color_token, is_color_token, lemma_palette_index_of, palette_index_of,
};

verus! {

/// Why a record could not be turned into an applied write.
#[derive(Clone, Copy, Debug, PartialEq, Eq, Structural)]
pub enum EventError {
    MalformedTimestamp,
    UnknownColor,
    InvalidGeometryArity,
    MalformedCoordinate,
    CoordinateOutOfBounds,
}

/// The cells a write targets: one cell, or an inclusive rectangle.
#[derive(Clone, Copy, Debug, PartialEq, Eq, Structural)]
pub enum Geometry {
    Point { x: u16, y: u16 },
    Rect { x1: u16, y1: u16, x2: u16, y2: u16 },
}

/// A normalized write request.
#[derive(Clone, Copy, Debug, PartialEq, Eq, Structural)]
pub struct Event {
    pub timestamp: i64,
    pub color: u8,
    pub geometry: Geometry,
}

pub open spec fn is_digit(c: u8) -> bool {
    48 <= c && c <= 57
}

pub open spec fn digit_value(c: u8) -> nat {
    (c - 48) as nat
}

/// What the byte at position `i` of a log timestamp must be, for `i < 19`:
/// the shape `YYYY-MM-DD HH:MM:SS`.
pub open spec fn timestamp_byte_ok(b: Seq<u8>, i: int) -> bool {
    if i == 4 || i == 7 {
        b[i] == 45u8
    } else if i == 10 {
        b[i] == 32u8
    } else if i == 13 || i == 16 {
        b[i] == 58u8
    } else {
        is_digit(b[i])
    }
}

/// Whether `b` starts with a log timestamp `YYYY-MM-DD HH:MM:SS`; what follows
/// (fraction of a second, zone) is not read.
pub open spec fn is_timestamp(b: Seq<u8>) -> bool {
    b.len() >= 19 && forall|i: int| 0 <= i < 19 ==> #[trigger] timestamp_byte_ok(b, i)
}

pub open spec fn two_digits(b: Seq<u8>, i: int) -> nat {
    digit_value(b[i]) * 10 + digit_value(b[i + 1])
}

/// The ordering key of a log timestamp: seconds counted from the day of the
/// month, hour, minute and second. Year and month are not part of it.
pub open spec fn timestamp_value(b: Seq<u8>) -> nat {
    86400 * two_digits(b, 8) + 3600 * two_digits(b, 11) + 60 * two_digits(b, 14) + two_digits(b, 17)
}

/// Byte-wise lexicographic `a <= b`, as `str` orders.
pub open spec fn lex_le(a: Seq<u8>, b: Seq<u8>) -> bool
    decreases a.len(),
{
    if a.len() == 0 {
        true
    } else if b.len() == 0 {
        false
    } else if a[0] < b[0] {
        true
    } else if a[0] > b[0] {
        false
    } else {
        lex_le(a.drop_first(), b.drop_first())
    }
}

/// The comma-separated fields of `s`; there is always at least one.
pub open spec fn split_commas(s: Seq<u8>) -> Seq<Seq<u8>>
    decreases s.len(),
{
    if s.len() == 0 {
        seq![Seq::<u8>::empty()]
    } else {
        let p = split_commas(s.drop_last());
        if s.last() == 44u8 {
            p.push(Seq::<u8>::empty())
        } else {
            p.update(p.len() - 1, p.last().push(s.last()))
        }
    }
}

/// The value of a string of decimal digits.
pub open spec fn dec_value(s: Seq<u8>) -> nat
    decreases s.len(),
{
    if s.len() == 0 {
        0
    } else {
        dec_value(s.drop_last()) * 10 + digit_value(s.last())
    }
}

/// Whether `s` is a coordinate: a non-empty run of decimal digits whose value fits in a `u16`.
pub open spec fn is_coordinate(s: Seq<u8>) -> bool {
    s.len() > 0 && (forall|i: int| 0 <= i < s.len() ==> is_digit(#[trigger] s[i])) && dec_value(s)
        <= 65535
}

/// The geometry written as `x,y` or `x1,y1,x2,y2`.
pub open spec fn geometry_of(b: Seq<u8>) -> Result<Geometry, EventError> {
    let f = split_commas(b);
    if f.len() != 2 && f.len() != 4 {
        Err(EventError::InvalidGeometryArity)
    } else if exists|k: int| 0 <= k < f.len() && !is_coordinate(#[trigger] f[k]) {
        Err(EventError::MalformedCoordinate)
    } else if f.len() == 2 {
        Ok(Geometry::Point { x: dec_value(f[0]) as u16, y: dec_value(f[1]) as u16 })
    } else {
        Ok(
            Geometry::Rect {
                x1: dec_value(f[0]) as u16,
                y1: dec_value(f[1]) as u16,
                x2: dec_value(f[2]) as u16,
                y2: dec_value(f[3]) as u16,
            },
        )
    }
}

fn timestamp_byte_fits(b: &[u8], i: usize) -> (r: bool)
    requires
        i < 19,
        i < b@.len(),
    ensures
        r == timestamp_byte_ok(b@, i as int),
{
    let c = b[i];
    if i == 4 || i == 7 {
        c == 45u8
    } else if i == 10 {
        c == 32u8
    } else if i == 13 || i == 16 {
        c == 58u8
    } else {
        48 <= c && c <= 57
    }
}

/// Derives the ordering key of a log timestamp (see `timestamp_value`).
pub fn str_to_timestamp(value: &str) -> (r: Result<i64, EventError>)
    ensures
        is_timestamp(value.spec_bytes()) ==> r == Ok::<i64, EventError>(
            timestamp_value(value.spec_bytes()) as i64,
        ),
        !is_timestamp(value.spec_bytes()) ==> r == Err::<i64, EventError>(
            EventError::MalformedTimestamp,
        ),
        r matches Ok(t) ==> t == timestamp_value(value.spec_bytes()),
{
    let b = value.as_bytes();
    if b.len() < 19 {
        return Err(EventError::MalformedTimestamp);
    }
    let mut i: usize = 0;
    while i < 19
        invariant
            i <= 19,
            b@ == value.spec_bytes(),
            b@.len() >= 19,
            forall|j: int| 0 <= j < i ==> timestamp_byte_ok(b@, j),
        decreases 19 - i,
    {
        if !timestamp_byte_fits(b, i) {
            return Err(EventError::MalformedTimestamp);
        }
        i = i + 1;
    }
    assert(timestamp_byte_ok(b@, 8) && timestamp_byte_ok(b@, 9));
    assert(timestamp_byte_ok(b@, 11) && timestamp_byte_ok(b@, 12));
    assert(timestamp_byte_ok(b@, 14) && timestamp_byte_ok(b@, 15));
    assert(timestamp_byte_ok(b@, 17) && timestamp_byte_ok(b@, 18));
    assert(is_digit(b@[8]) && is_digit(b@[9]) && is_digit(b@[11]) && is_digit(b@[12]));
    assert(is_digit(b@[14]) && is_digit(b@[15]) && is_digit(b@[17]) && is_digit(b@[18]));
    let day: i64 = (b[8] - 48) as i64 * 10 + (b[9] - 48) as i64;
    let hour: i64 = (b[11] - 48) as i64 * 10 + (b[12] - 48) as i64;
    let minute: i64 = (b[14] - 48) as i64 * 10 + (b[15] - 48) as i64;
    let second: i64 = (b[17] - 48) as i64 * 10 + (b[18] - 48) as i64;
    let mut timestamp: i64 = second;
    timestamp = timestamp + 60 * minute;
    timestamp = timestamp + 3600 * hour;
    timestamp = timestamp + 86400 * day;
    Ok(timestamp)
}

/// Whether a record with timestamp text `timestamp` is inside the replay:
/// its text does not sort after `cutoff`.
pub fn is_within_cutoff(timestamp: &str, cutoff: &str) -> (r: bool)
    ensures
        r == lex_le(timestamp.spec_bytes(), cutoff.spec_bytes()),
{
    let a = timestamp.as_bytes();
    let c = cutoff.as_bytes();
    let mut i: usize = 0;
    assert(a@.skip(0) =~= a@);
    assert(c@.skip(0) =~= c@);
    while i < a.len()
        invariant
            i <= a@.len(),
            i <= c@.len(),
            a@ == timestamp.spec_bytes(),
            c@ == cutoff.spec_bytes(),
            lex_le(a@, c@) == lex_le(a@.skip(i as int), c@.skip(i as int)),
        decreases a@.len() - i,
    {
        assert(a@.skip(i as int).len() > 0 && a@.skip(i as int)[0] == a@[i as int]);
        if i >= c.len() {
            assert(c@.skip(i as int).len() == 0);
            assert(!lex_le(a@.skip(i as int), c@.skip(i as int)));
            return false;
        }
        assert(c@.skip(i as int).len() > 0 && c@.skip(i as int)[0] == c@[i as int]);
        if a[i] < c[i] {
            return true;
        }
        if a[i] > c[i] {
            assert(!lex_le(a@.skip(i as int), c@.skip(i as int)));
            return false;
        }
        assert(a@.skip(i as int).drop_first() =~= a@.skip(i + 1));
        assert(c@.skip(i as int).drop_first() =~= c@.skip(i + 1));
        i = i + 1;
    }
    true
}

proof fn lemma_dec_value_prefix(s: Seq<u8>, k: int)
    requires
        0 <= k <= s.len(),
    ensures
        dec_value(s.take(k)) <= dec_value(s),
    decreases s.len() - k,
{
    if k < s.len() {
        lemma_dec_value_prefix(s, k + 1);
        assert(s.take(k + 1).drop_last() =~= s.take(k));
    } else {
        assert(s.take(k) =~= s);
    }
}

/// Reads one coordinate field.
fn parse_coordinate(field: &Vec<u8>) -> (r: Option<u16>)
    ensures
        r == (if is_coordinate(field@) {
            Some(dec_value(field@) as u16)
        } else {
            None::<u16>
        }),
{
    if field.len() == 0 {
        return None;
    }
    let mut value: u32 = 0;
    let mut i: usize = 0;
    while i < field.len()
        invariant
            i <= field@.len(),
            field@.len() > 0,
            value <= 65535,
            value == dec_value(field@.take(i as int)),
            forall|j: int| 0 <= j < i ==> is_digit(#[trigger] field@[j]),
        decreases field@.len() - i,
    {
        let c = field[i];
        if c < 48 || c > 57 {
            return None;
        }
        assert(field@.take(i + 1).drop_last() =~= field@.take(i as int));
        let next = value * 10 + (c - 48) as u32;
        if next > 65535 {
            proof {
                if forall|j: int| 0 <= j < field@.len() ==> is_digit(#[trigger] field@[j]) {
                    lemma_dec_value_prefix(field@, i + 1);
                }
            }
            return None;
        }
        value = next;
        i = i + 1;
    }
    assert(field@.take(i as int) =~= field@);
    Some(value as u16)
}

/// Splits `b` at every comma.
fn split_fields(b: &[u8]) -> (r: Vec<Vec<u8>>)
    ensures
        r@.map_values(|f: Vec<u8>| f@) == split_commas(b@),
{
    let mut fields: Vec<Vec<u8>> = Vec::new();
    let mut cur: Vec<u8> = Vec::new();
    let mut i: usize = 0;
    assert(b@.take(0) =~= Seq::<u8>::empty());
    assert(split_commas(Seq::<u8>::empty()) =~= fields@.map_values(|f: Vec<u8>| f@).push(cur@));
    while i < b.len()
        invariant
            i <= b@.len(),
            split_commas(b@.take(i as int)) == fields@.map_values(|f: Vec<u8>| f@).push(cur@),
        decreases b@.len() - i,
    {
        let c = b[i];
        let ghost before = fields@.map_values(|f: Vec<u8>| f@);
        let ghost cur_before = cur@;
        assert(b@.take(i + 1).drop_last() =~= b@.take(i as int));
        if c == 44u8 {
            let done = cur;
            fields.push(done);
            cur = Vec::new();
            assert(fields@.map_values(|f: Vec<u8>| f@) =~= before.push(cur_before));
            assert(split_commas(b@.take(i + 1)) =~= fields@.map_values(|f: Vec<u8>| f@).push(
                cur@,
            ));
        } else {
            cur.push(c);
            assert(fields@.map_values(|f: Vec<u8>| f@) =~= before);
            assert(split_commas(b@.take(i + 1)) =~= fields@.map_values(|f: Vec<u8>| f@).push(
                cur@,
            ));
        }
        i = i + 1;
    }
    assert(b@.take(i as int) =~= b@);
    let ghost before = fields@.map_values(|f: Vec<u8>| f@);
    let ghost last = cur@;
    fields.push(cur);
    assert(fields@.map_values(|f: Vec<u8>| f@) =~= before.push(last));
    fields
}

/// Reads a geometry field: `x,y` is a point, `x1,y1,x2,y2` a rectangle.
/// Coordinates are not checked against the canvas here.
pub fn parse_geometry(text: &str) -> (r: Result<Geometry, EventError>)
    ensures
        r == geometry_of(text.spec_bytes()),
{
    let fields = split_fields(text.as_bytes());
    let ghost f = split_commas(text.spec_bytes());
    assert(fields@.len() == f.len());
    assert(forall|k: int| 0 <= k < f.len() ==> #[trigger] f[k] == fields@[k]@);
    if fields.len() != 2 && fields.len() != 4 {
        return Err(EventError::InvalidGeometryArity);
    }
    let mut values: Vec<u16> = Vec::new();
    let mut k: usize = 0;
    while k < fields.len()
        invariant
            k <= fields@.len(),
            fields@.len() == f.len(),
            f == split_commas(text.spec_bytes()),
            f.len() == 2 || f.len() == 4,
            forall|j: int| 0 <= j < f.len() ==> #[trigger] f[j] == fields@[j]@,
            values@.len() == k,
            forall|j: int|
                0 <= j < k ==> is_coordinate(#[trigger] f[j]) && values@[j] == dec_value(f[j])
                    as u16,
        decreases fields@.len() - k,
    {
        match parse_coordinate(&fields[k]) {
            Some(v) => {
                values.push(v);
            },
            None => {
                assert(!is_coordinate(f[k as int]));
                return Err(EventError::MalformedCoordinate);
            },
        }
        k = k + 1;
    }
    assert(!exists|j: int| 0 <= j < f.len() && !is_coordinate(#[trigger] f[j]));
    if values.len() == 2 {
        Ok(Geometry::Point { x: values[0], y: values[1] })
    } else {
        Ok(Geometry::Rect { x1: values[0], y1: values[1], x2: values[2], y2: values[3] })
    }
}

/// The event that a record's timestamp, color and geometry fields describe,
/// or the first field, in that order, that is malformed.
pub open spec fn event_of(timestamp: Seq<u8>, color: Seq<u8>, geometry: Seq<u8>) -> Result<
    Event,
    EventError,
> {
    if !is_timestamp(timestamp) {
        Err(EventError::MalformedTimestamp)
    } else if !is_color_token(color) {
        Err(EventError::UnknownColor)
    } else {
        match geometry_of(geometry) {
            Err(e) => Err(e),
            Ok(g) => Ok(
                Event {
                    timestamp: timestamp_value(timestamp) as i64,
                    color: palette_index_of(color),
                    geometry: g,
                },
            ),
        }
    }
}

/// Normalizes one record's timestamp, color and geometry fields into an event.
pub fn parse_event(timestamp: &str, color: &str, geometry: &str) -> (r: Result<Event, EventError>)
    ensures
        r == event_of(timestamp.spec_bytes(), color.spec_bytes(), geometry.spec_bytes()),
        r matches Ok(ev) ==> ev.color < 32 && color_token(ev.color as nat) == color.spec_bytes(),
{
    let ts = match str_to_timestamp(timestamp) {
        Ok(t) => t,
        Err(e) => {
            return Err(e);
        },
    };
    let index = match color_to_index(color.as_bytes()) {
        Ok(k) => k,
        Err(e) => {
            return Err(e);
        },
    };
    let geometry = match parse_geometry(geometry) {
        Ok(g) => g,
        Err(e) => {
            return Err(e);
        },
    };
    proof {
        lemma_palette_index_of(color.spec_bytes(), index);
    }
    Ok(Event { timestamp: ts, color: index, geometry })
}

} // verus!
