//! Task records: validated names, random identifiers, due instants and
//! the task list with its editing rules.

use chrono::Datelike;
use vstd::prelude::*;

verus! {

broadcast use vstd::utf8::encode_utf8_decode_utf8;

use vstd::utf8::{decode_utf8, encode_utf8};

/// The scalar values with the Unicode `White_Space` property, the set
/// that `str::trim` and `char::is_whitespace` work over.
pub open spec fn white_scalar(v: u32) -> bool {
    v == 0x20 || v == 0x09 || v == 0x0a || v == 0x0b || v == 0x0c || v == 0x0d || v == 0x85
        || v == 0xa0 || v == 0x1680 || (0x2000 <= v && v <= 0x200a) || v == 0x2028 || v == 0x2029
        || v == 0x202f || v == 0x205f || v == 0x3000
}

/// The characters with the Unicode `White_Space` property.
pub open spec fn white_char(c: char) -> bool {
    white_scalar(c as u32)
}

/// `s` without its leading run of white space.
pub open spec fn spec_trim_start(s: Seq<char>) -> Seq<char>
    decreases s.len(),
{
    if s.len() > 0 && white_char(s[0]) {
        spec_trim_start(s.drop_first())
    } else {
        s
    }
}

/// `s` without its trailing run of white space.
pub open spec fn spec_trim_end(s: Seq<char>) -> Seq<char>
    decreases s.len(),
{
    if s.len() > 0 && white_char(s[s.len() - 1]) {
        spec_trim_end(s.drop_last())
    } else {
        s
    }
}

/// `s` without leading and trailing white space.
pub open spec fn spec_trim(s: Seq<char>) -> Seq<char> {
    spec_trim_end(spec_trim_start(s))
}

/// Relies on `str::trim`: returns the slice with leading and trailing
/// characters that have the `White_Space` property removed.
#[verifier::external_body]
fn trim_str<'a>(s: &'a str) -> (r: &'a str)
    ensures
        r@ == spec_trim(s@),
{
    s.trim()
}

/// A name is well formed when it is non-empty and carries no white
/// space at either end.
pub open spec fn task_name_valid(s: Seq<char>) -> bool {
    s.len() > 0 && !white_char(s[0]) && !white_char(s[s.len() - 1])
}

proof fn lemma_trim_start_shape(s: Seq<char>)
    ensures
        spec_trim_start(s).len() > 0 ==> !white_char(spec_trim_start(s)[0]),
        spec_trim_start(s).len() <= s.len(),
        spec_trim_start(s).len() > 0 ==> spec_trim_start(s) =~= s.subrange(
            s.len() - spec_trim_start(s).len(),
            s.len() as int,
        ),
    decreases s.len(),
{
    if s.len() > 0 && white_char(s[0]) {
        lemma_trim_start_shape(s.drop_first());
    }
}

proof fn lemma_trim_end_shape(s: Seq<char>)
    ensures
        spec_trim_end(s).len() > 0 ==> !white_char(spec_trim_end(s)[spec_trim_end(s).len() - 1]),
        spec_trim_end(s).len() <= s.len(),
        spec_trim_end(s) =~= s.subrange(0, spec_trim_end(s).len() as int),
    decreases s.len(),
{
    if s.len() > 0 && white_char(s[s.len() - 1]) {
        lemma_trim_end_shape(s.drop_last());
    }
}

/// A non-empty trim result is a well-formed name: trimming really does
/// strip every boundary character that is white space.
pub proof fn lemma_trim_valid(s: Seq<char>)
    ensures
        spec_trim(s).len() > 0 ==> task_name_valid(spec_trim(s)),
{
    let t = spec_trim_start(s);
    lemma_trim_start_shape(s);
    lemma_trim_end_shape(t);
    if spec_trim(s).len() > 0 {
        assert(spec_trim(s)[0] == t[0]);
    }
}

/// A validated task title: non-empty, with surrounding white space
/// already removed.  Names compare byte-wise (case sensitively): the
/// stored text is exactly what `as_str` hands back.
#[derive(Debug)]
pub struct TaskName {
    name: String,
}

impl View for TaskName {
    type V = Seq<char>;

    closed spec fn view(&self) -> Seq<char> {
        self.name@
    }
}

impl Clone for TaskName {
    fn clone(&self) -> (r: Self)
        ensures
            r@ == self@,
    {
        TaskName { name: self.name.clone() }
    }
}

impl TaskName {
    /// Construction trims the input and fails when nothing printable
    /// remains, so every value of this type satisfies
    /// [`task_name_valid`].
    pub fn new(value: &str) -> (r: Option<TaskName>)
        ensures
            match r {
                Some(n) => n@ == spec_trim(value@) && task_name_valid(n@),
                None => spec_trim(value@).len() == 0,
            },
    {
        proof {
            lemma_trim_valid(value@);
        }
        let trimmed = trim_str(value);
        if trimmed.is_empty() {
            None
        } else {
            Some(TaskName { name: trimmed.to_owned() })
        }
    }

    pub fn as_str(&self) -> (r: &str)
        ensures
            r@ == self@,
    {
        self.name.as_str()
    }

    pub fn into_inner(self) -> (r: String)
        ensures
            r@ == self@,
    {
        self.name
    }
}

/// The byte standing for the hexadecimal digit `d`.
pub open spec fn hex_digit_byte(d: int) -> u8 {
    if d < 10 {
        (0x30 + d) as u8
    } else {
        (0x57 + d) as u8
    }
}

/// Nibble `i` of `bits`, counting from the most significant end.
pub open spec fn id_nibble(bits: u128, i: int) -> u128 {
    (bits >> (((31 - i) * 4) as u128)) & 0xf
}

/// The 32-character lowercase hexadecimal rendering of an identifier,
/// as bytes, most significant nibble first.
pub open spec fn id_hex_bytes(bits: u128) -> Seq<u8> {
    Seq::new(32, |i: int| hex_digit_byte(id_nibble(bits, i) as int))
}

/// Every nibble is a value below 16, so every hex byte is ASCII.
proof fn lemma_nibble_bound(bits: u128, i: int)
    ensures
        id_nibble(bits, i) <= 0xf,
{
    let s: u128 = ((31 - i) * 4) as u128;
    assert((bits >> s) & 0xf <= 0xf) by (bit_vector);
}

/// Two identifiers with the same hexadecimal rendering are equal.
pub proof fn lemma_hex_injective(a: u128, b: u128)
    requires
        id_hex_bytes(a) == id_hex_bytes(b),
    ensures
        a == b,
{
    assert forall|i: int| 0 <= i < 32 implies id_nibble(a, i) == id_nibble(b, i) by {
        assert(id_hex_bytes(a)[i] == hex_digit_byte(id_nibble(a, i) as int));
        assert(id_hex_bytes(b)[i] == hex_digit_byte(id_nibble(b, i) as int));
        assert(id_hex_bytes(a)[i] == id_hex_bytes(b)[i]);
        lemma_nibble_bound(a, i);
        lemma_nibble_bound(b, i);
    }
    assert forall|k: u128| k < 32 implies #[trigger] ((a >> (4 * k)) & 0xf) == (b >> (4 * k))
        & 0xf by {
        let i: int = 31 - (k as int);
        assert(id_nibble(a, i) == id_nibble(b, i));
        assert((((31 - i) * 4) as u128) == 4 * k);
    }
    assert((a >> (4 * 0u128)) & 0xf == (b >> (4 * 0u128)) & 0xf);
    assert((a >> (4 * 1u128)) & 0xf == (b >> (4 * 1u128)) & 0xf);
    assert((a >> (4 * 2u128)) & 0xf == (b >> (4 * 2u128)) & 0xf);
    assert((a >> (4 * 3u128)) & 0xf == (b >> (4 * 3u128)) & 0xf);
    assert((a >> (4 * 4u128)) & 0xf == (b >> (4 * 4u128)) & 0xf);
    assert((a >> (4 * 5u128)) & 0xf == (b >> (4 * 5u128)) & 0xf);
    assert((a >> (4 * 6u128)) & 0xf == (b >> (4 * 6u128)) & 0xf);
    assert((a >> (4 * 7u128)) & 0xf == (b >> (4 * 7u128)) & 0xf);
    assert((a >> (4 * 8u128)) & 0xf == (b >> (4 * 8u128)) & 0xf);
    assert((a >> (4 * 9u128)) & 0xf == (b >> (4 * 9u128)) & 0xf);
    assert((a >> (4 * 10u128)) & 0xf == (b >> (4 * 10u128)) & 0xf);
    assert((a >> (4 * 11u128)) & 0xf == (b >> (4 * 11u128)) & 0xf);
    assert((a >> (4 * 12u128)) & 0xf == (b >> (4 * 12u128)) & 0xf);
    assert((a >> (4 * 13u128)) & 0xf == (b >> (4 * 13u128)) & 0xf);
    assert((a >> (4 * 14u128)) & 0xf == (b >> (4 * 14u128)) & 0xf);
    assert((a >> (4 * 15u128)) & 0xf == (b >> (4 * 15u128)) & 0xf);
    assert((a >> (4 * 16u128)) & 0xf == (b >> (4 * 16u128)) & 0xf);
    assert((a >> (4 * 17u128)) & 0xf == (b >> (4 * 17u128)) & 0xf);
    assert((a >> (4 * 18u128)) & 0xf == (b >> (4 * 18u128)) & 0xf);
    assert((a >> (4 * 19u128)) & 0xf == (b >> (4 * 19u128)) & 0xf);
    assert((a >> (4 * 20u128)) & 0xf == (b >> (4 * 20u128)) & 0xf);
    assert((a >> (4 * 21u128)) & 0xf == (b >> (4 * 21u128)) & 0xf);
    assert((a >> (4 * 22u128)) & 0xf == (b >> (4 * 22u128)) & 0xf);
    assert((a >> (4 * 23u128)) & 0xf == (b >> (4 * 23u128)) & 0xf);
    assert((a >> (4 * 24u128)) & 0xf == (b >> (4 * 24u128)) & 0xf);
    assert((a >> (4 * 25u128)) & 0xf == (b >> (4 * 25u128)) & 0xf);
    assert((a >> (4 * 26u128)) & 0xf == (b >> (4 * 26u128)) & 0xf);
    assert((a >> (4 * 27u128)) & 0xf == (b >> (4 * 27u128)) & 0xf);
    assert((a >> (4 * 28u128)) & 0xf == (b >> (4 * 28u128)) & 0xf);
    assert((a >> (4 * 29u128)) & 0xf == (b >> (4 * 29u128)) & 0xf);
    assert((a >> (4 * 30u128)) & 0xf == (b >> (4 * 30u128)) & 0xf);
    assert((a >> (4 * 31u128)) & 0xf == (b >> (4 * 31u128)) & 0xf);
    assert(((a >> 0u128) & 0xf == (b >> 0u128) & 0xf && (a >> 4u128) & 0xf == (b >> 4u128) & 0xf
        && (a >> 8u128) & 0xf == (b >> 8u128) & 0xf && (a >> 12u128) & 0xf == (b >> 12u128) & 0xf
        && (a >> 16u128) & 0xf == (b >> 16u128) & 0xf && (a >> 20u128) & 0xf == (b >> 20u128) & 0xf
        && (a >> 24u128) & 0xf == (b >> 24u128) & 0xf && (a >> 28u128) & 0xf == (b >> 28u128) & 0xf
        && (a >> 32u128) & 0xf == (b >> 32u128) & 0xf && (a >> 36u128) & 0xf == (b >> 36u128) & 0xf
        && (a >> 40u128) & 0xf == (b >> 40u128) & 0xf && (a >> 44u128) & 0xf == (b >> 44u128) & 0xf
        && (a >> 48u128) & 0xf == (b >> 48u128) & 0xf && (a >> 52u128) & 0xf == (b >> 52u128) & 0xf
        && (a >> 56u128) & 0xf == (b >> 56u128) & 0xf && (a >> 60u128) & 0xf == (b >> 60u128) & 0xf
        && (a >> 64u128) & 0xf == (b >> 64u128) & 0xf && (a >> 68u128) & 0xf == (b >> 68u128) & 0xf
        && (a >> 72u128) & 0xf == (b >> 72u128) & 0xf && (a >> 76u128) & 0xf == (b >> 76u128) & 0xf
        && (a >> 80u128) & 0xf == (b >> 80u128) & 0xf && (a >> 84u128) & 0xf == (b >> 84u128) & 0xf
        && (a >> 88u128) & 0xf == (b >> 88u128) & 0xf && (a >> 92u128) & 0xf == (b >> 92u128) & 0xf
        && (a >> 96u128) & 0xf == (b >> 96u128) & 0xf && (a >> 100u128) & 0xf == (b >> 100u128)
        & 0xf && (a >> 104u128) & 0xf == (b >> 104u128) & 0xf && (a >> 108u128) & 0xf == (b
        >> 108u128) & 0xf && (a >> 112u128) & 0xf == (b >> 112u128) & 0xf && (a >> 116u128) & 0xf
        == (b >> 116u128) & 0xf && (a >> 120u128) & 0xf == (b >> 120u128) & 0xf && (a >> 124u128)
        & 0xf == (b >> 124u128) & 0xf) ==> a == b) by (bit_vector);
}

/// Relies on `uuid::Uuid::new_v4` (via `Uuid::as_u128`): a freshly
/// generated random identifier.  Nothing is promised of its value.
#[verifier::external_body]
fn random_bits() -> u128 {
    uuid::Uuid::new_v4().as_u128()
}

/// Relies on `String::from_utf8`: bytes in the ASCII range decode to
/// the string made of exactly those characters.
#[verifier::external_body]
pub(crate) fn ascii_to_string(v: Vec<u8>) -> (r: String)
    requires
        forall|i: int| 0 <= i < v@.len() ==> v@[i] < 0x80,
    ensures
        r@ == v@.map_values(|b: u8| b as char),
{
    match String::from_utf8(v) {
        Ok(s) => s,
        Err(_) => String::new(),
    }
}

/// A 128-bit task identifier, assigned once at creation and compared
/// by exact equality.  It is shown as a fixed-length lowercase
/// hexadecimal string with no separators.
#[derive(Debug, Clone, Copy, PartialEq, Eq, Structural)]
pub struct TaskId {
    bits: u128,
}

impl View for TaskId {
    type V = u128;

    closed spec fn view(&self) -> u128 {
        self.bits
    }
}

impl TaskId {
    /// Draws a fresh random identifier.
    pub fn new() -> TaskId {
        TaskId { bits: random_bits() }
    }

    /// Builds the identifier with exactly the given bits.
    pub fn from_bits(bits: u128) -> (r: TaskId)
        ensures
            r@ == bits,
    {
        TaskId { bits }
    }

    pub fn bits(&self) -> (r: u128)
        ensures
            r == self@,
    {
        self.bits
    }

    /// The 32 hex-digit bytes of this identifier.
    pub fn hex_bytes(&self) -> (r: Vec<u8>)
        ensures
            r@ == id_hex_bytes(self@),
    {
        let ghost target = id_hex_bytes(self.bits);
        let mut r: Vec<u8> = Vec::new();
        let mut i: usize = 0;
        while i < 32
            invariant
                i <= 32,
                r@.len() == i,
                forall|j: int| 0 <= j < i ==> r@[j] == target[j],
                target == id_hex_bytes(self.bits),
            decreases 32 - i,
        {
            let shift: u128 = ((31 - i) as u128) * 4;
            let bits: u128 = self.bits;
            let d: u128 = (bits >> shift) & 0xf;
            assert((bits >> shift) & 0xf <= 0xf) by (bit_vector);
            let b: u8 = if d < 10 {
                0x30u8 + (d as u8)
            } else {
                0x57u8 + (d as u8)
            };
            assert(b == target[i as int]);
            r.push(b);
            i += 1;
        }
        assert(r@ =~= target);
        r
    }

    /// The identifier as its lowercase hexadecimal string.
    pub fn to_hex(&self) -> (r: String)
        ensures
            r@ == id_hex_bytes(self@).map_values(|b: u8| b as char),
    {
        let bytes = self.hex_bytes();
        assert forall|i: int| 0 <= i < bytes@.len() implies bytes@[i] < 0x80 by {
            assert(bytes@[i] == id_hex_bytes(self@)[i]);
            lemma_nibble_bound(self@, i);
        }
        ascii_to_string(bytes)
    }
}

/// Proleptic Gregorian leap-year rule.
pub open spec fn leap_year(y: int) -> bool {
    (y % 4 == 0 && y % 100 != 0) || y % 400 == 0
}

/// Days in the given month of the given year.
pub open spec fn days_in_month(y: int, m: int) -> int {
    if m == 2 {
        if leap_year(y) {
            29
        } else {
            28
        }
    } else if m == 4 || m == 6 || m == 9 || m == 11 {
        30
    } else {
        31
    }
}

/// The year range a calendar date may use.
pub const MIN_YEAR: i32 = -262143;

/// The year range a calendar date may use.
pub const MAX_YEAR: i32 = 262142;

/// A UTC calendar date, held as plain year, month and day numbers.
#[derive(Debug, Clone, Copy, PartialEq, Eq, Structural)]
pub struct Date {
    pub year: i32,
    pub month: u32,
    pub day: u32,
}

/// A well-formed calendar date.
pub open spec fn valid_date(d: Date) -> bool {
    MIN_YEAR <= d.year <= MAX_YEAR && 1 <= d.month <= 12 && 1 <= d.day <= days_in_month(
        d.year as int,
        d.month as int,
    )
}

/// Calendar order on dates: year, then month, then day.
pub open spec fn date_le(a: Date, b: Date) -> bool {
    a.year < b.year || (a.year == b.year && (a.month < b.month || (a.month == b.month && a.day
        <= b.day)))
}

impl Date {
    pub fn new(year: i32, month: u32, day: u32) -> (r: Date)
        ensures
            r == (Date { year, month, day }),
    {
        Date { year, month, day }
    }

    /// Whether this date exists in the proleptic Gregorian calendar.
    pub fn is_valid(&self) -> (r: bool)
        ensures
            r == valid_date(*self),
    {
        let leap = (self.year % 4 == 0 && self.year % 100 != 0) || self.year % 400 == 0;
        let max_day: u32 = if self.month == 2 {
            if leap {
                29
            } else {
                28
            }
        } else if self.month == 4 || self.month == 6 || self.month == 9 || self.month == 11 {
            30
        } else {
            31
        };
        MIN_YEAR <= self.year && self.year <= MAX_YEAR && 1 <= self.month && self.month <= 12 && 1
            <= self.day && self.day <= max_day
    }

    /// Calendar order, `self` on or before `other`.
    pub fn on_or_before(&self, other: &Date) -> (r: bool)
        ensures
            r == date_le(*self, *other),
    {
        self.year < other.year || (self.year == other.year && (self.month < other.month || (
        self.month == other.month && self.day <= other.day)))
    }
}

/// A time of day at minute granularity; seconds are always zero.
#[derive(Debug, Clone, Copy, PartialEq, Eq, Structural)]
pub struct Time {
    pub hour: u32,
    pub minute: u32,
}

/// A well-formed time of day.
pub open spec fn valid_time(t: Time) -> bool {
    t.hour < 24 && t.minute < 60
}

impl Time {
    pub fn new(hour: u32, minute: u32) -> (r: Time)
        ensures
            r == (Time { hour, minute }),
    {
        Time { hour, minute }
    }

    pub fn is_valid(&self) -> (r: bool)
        ensures
            r == valid_time(*self),
    {
        self.hour < 24 && self.minute < 60
    }
}

/// A UTC instant at minute granularity: a calendar date with a time of
/// day.
#[derive(Debug, Clone, Copy, PartialEq, Eq, Structural)]
pub struct DateTime {
    pub date: Date,
    pub time: Time,
}

/// A well-formed instant.
pub open spec fn valid_date_time(dt: DateTime) -> bool {
    valid_date(dt.date) && valid_time(dt.time)
}

impl DateTime {
    pub fn new(date: Date, time: Time) -> (r: DateTime)
        ensures
            r == (DateTime { date, time }),
    {
        DateTime { date, time }
    }
}

/// Relies on `chrono::Utc::now` (via `DateTime::date_naive` and the
/// `Datelike` accessors): the current UTC calendar date.  The value
/// depends on the clock, so only its well-formedness is promised.
#[verifier::external_body]
pub fn current_date() -> (r: Date)
    ensures
        valid_date(r),
{
    let d = chrono::Utc::now().date_naive();
    Date { year: d.year(), month: d.month(), day: d.day() }
}

/// The mathematical value of a task: identifier bits, name characters
/// and optional due instant.
#[verifier::ext_equal]
pub struct TaskView {
    pub id: u128,
    pub name: Seq<char>,
    pub due: Option<DateTime>,
}

/// A task: an immutable random identifier, a validated name, and an
/// optional due instant.  `due == None` means "as soon as possible"
/// and is always considered due.
#[derive(Debug)]
pub struct Task {
    id: TaskId,
    name: TaskName,
    due: Option<DateTime>,
}

impl View for Task {
    type V = TaskView;

    closed spec fn view(&self) -> TaskView {
        TaskView { id: self.id@, name: self.name@, due: self.due }
    }
}

impl Clone for Task {
    fn clone(&self) -> (r: Self)
        ensures
            r@ == self@,
    {
        Task { id: self.id, name: self.name.clone(), due: self.due }
    }
}

impl Task {
    /// A new task with the given name, a freshly drawn identifier and
    /// no due date.
    pub fn new(name: TaskName) -> (r: Task)
        ensures
            r@.name == name@,
            r@.due is None,
    {
        Task { id: TaskId::new(), name, due: None }
    }

    /// A task assembled from explicit parts, for loading stored
    /// records.
    pub fn from_parts(id: TaskId, name: TaskName, due: Option<DateTime>) -> (r: Task)
        ensures
            r@ == (TaskView { id: id@, name: name@, due }),
    {
        Task { id, name, due }
    }

    pub fn with_name(self, name: TaskName) -> (r: Task)
        ensures
            r@ == (TaskView { name: name@, ..self@ }),
    {
        Task { name, ..self }
    }

    pub fn with_due(self, due: Option<DateTime>) -> (r: Task)
        ensures
            r@ == (TaskView { due, ..self@ }),
    {
        Task { due, ..self }
    }

    /// Sets the due date, at the first minute of that day.
    pub fn with_date(self, due: Date) -> (r: Task)
        ensures
            r@ == (TaskView {
                due: Some(DateTime { date: due, time: Time { hour: 0, minute: 0 } }),
                ..self@
            }),
    {
        Task { due: Some(DateTime { date: due, time: Time { hour: 0, minute: 0 } }), ..self }
    }

    pub fn with_date_time(self, due: DateTime) -> (r: Task)
        ensures
            r@ == (TaskView { due: Some(due), ..self@ }),
    {
        Task { due: Some(due), ..self }
    }

    /// Replaces the time of day when a due date is set; has no effect
    /// otherwise.
    pub fn and_time(self, time: Time) -> (r: Task)
        ensures
            self@.due matches Some(dt) ==> r@ == (TaskView {
                due: Some(DateTime { date: dt.date, time }),
                ..self@
            }),
            self@.due is None ==> r@ == self@,
    {
        match self.due {
            Some(dt) => Task { due: Some(DateTime { date: dt.date, time }), ..self },
            None => self,
        }
    }

    pub fn name(&self) -> (r: &str)
        ensures
            r@ == self@.name,
    {
        self.name.as_str()
    }

    pub fn due(&self) -> (r: Option<DateTime>)
        ensures
            r == self@.due,
    {
        self.due
    }

    pub fn id(&self) -> (r: TaskId)
        ensures
            r@ == self@.id,
    {
        self.id
    }
}

/// A task is due on `today` when it has no due instant at all or its
/// due calendar date is on or before `today`; the time of day is
/// ignored.
pub open spec fn is_due(t: TaskView, today: Date) -> bool {
    match t.due {
        None => true,
        Some(dt) => date_le(dt.date, today),
    }
}

/// The error of an edit that names an identifier the store does not
/// hold.
#[derive(Debug, Clone, Copy, PartialEq, Eq, Structural)]
pub enum TaskError {
    InvalidId(TaskId),
}

/// Strict byte-wise lexicographic order.
pub open spec fn bytes_lt(a: Seq<u8>, b: Seq<u8>) -> bool
    decreases a.len(),
{
    if b.len() == 0 {
        false
    } else if a.len() == 0 {
        true
    } else if a[0] < b[0] {
        true
    } else if a[0] > b[0] {
        false
    } else {
        bytes_lt(a.drop_first(), b.drop_first())
    }
}

/// Byte order is total: two sequences compare one way, the other way,
/// or are equal.
pub proof fn lemma_bytes_lt_total(a: Seq<u8>, b: Seq<u8>)
    ensures
        bytes_lt(a, b) || bytes_lt(b, a) || a == b,
    decreases a.len(),
{
    if a.len() > 0 && b.len() > 0 && a[0] == b[0] {
        let ta = a.drop_first();
        let tb = b.drop_first();
        lemma_bytes_lt_total(ta, tb);
        if !bytes_lt(a, b) && !bytes_lt(b, a) {
            assert(ta == tb);
            assert forall|k: int| 0 <= k < a.len() implies a[k] == b[k] by {
                if k >= 1 {
                    assert(a[k] == ta[k - 1] && b[k] == tb[k - 1]);
                }
            }
            assert(a =~= b);
        }
    }
}

/// Strict time-of-day order: hour, then minute.
pub open spec fn time_lt(a: Time, b: Time) -> bool {
    a.hour < b.hour || (a.hour == b.hour && a.minute < b.minute)
}

/// Strict calendar order on dates.
pub open spec fn date_lt(a: Date, b: Date) -> bool {
    a.year < b.year || (a.year == b.year && (a.month < b.month || (a.month == b.month && a.day
        < b.day)))
}

/// Strict order on instants: date, then time of day.
pub open spec fn dt_lt(a: DateTime, b: DateTime) -> bool {
    date_lt(a.date, b.date) || (a.date == b.date && time_lt(a.time, b.time))
}

/// Strict order on optional due instants: an absent instant sorts
/// first.
pub open spec fn due_lt(a: Option<DateTime>, b: Option<DateTime>) -> bool {
    match (a, b) {
        (None, Some(_)) => true,
        (Some(x), Some(y)) => dt_lt(x, y),
        _ => false,
    }
}

/// The full-value order on tasks: identifier, then name (byte-wise),
/// then due instant.
pub open spec fn task_lt(a: TaskView, b: TaskView) -> bool {
    a.id < b.id || (a.id == b.id && bytes_lt(encode_utf8(a.name), encode_utf8(b.name))) || (a.id
        == b.id && a.name == b.name && due_lt(a.due, b.due))
}

/// Non-strict full-value order.
pub open spec fn task_le(a: TaskView, b: TaskView) -> bool {
    task_lt(a, b) || a == b
}

/// The full-value order is total.
pub proof fn lemma_task_le_total(a: TaskView, b: TaskView)
    ensures
        task_le(a, b) || task_le(b, a),
        task_lt(a, b) && task_lt(b, a) ==> false,
{
    lemma_bytes_lt_total(encode_utf8(a.name), encode_utf8(b.name));
    if encode_utf8(a.name) == encode_utf8(b.name) {
        assert(decode_utf8(encode_utf8(a.name)) == a.name);
        assert(decode_utf8(encode_utf8(b.name)) == b.name);
    }
    lemma_bytes_lt_asym(encode_utf8(a.name), encode_utf8(b.name));
}

/// Byte order is asymmetric.
pub proof fn lemma_bytes_lt_asym(a: Seq<u8>, b: Seq<u8>)
    ensures
        !(bytes_lt(a, b) && bytes_lt(b, a)),
    decreases a.len(),
{
    if a.len() > 0 && b.len() > 0 && a[0] == b[0] {
        lemma_bytes_lt_asym(a.drop_first(), b.drop_first());
    }
}

/// The first position in `s` holding the identifier `id`, or -1.
pub open spec fn find_id(s: Seq<TaskView>, id: u128) -> int
    decreases s.len(),
{
    if s.len() == 0 {
        -1
    } else if s[0].id == id {
        0
    } else if find_id(s.drop_first(), id) == -1 {
        -1
    } else {
        find_id(s.drop_first(), id) + 1
    }
}

pub proof fn lemma_find_id(s: Seq<TaskView>, id: u128)
    ensures
        find_id(s, id) == -1 ==> forall|j: int| 0 <= j < s.len() ==> s[j].id != id,
        find_id(s, id) != -1 ==> 0 <= find_id(s, id) < s.len() && s[find_id(s, id)].id == id
            && forall|j: int| 0 <= j < find_id(s, id) ==> s[j].id != id,
    decreases s.len(),
{
    if s.len() > 0 && s[0].id != id {
        let df = s.drop_first();
        lemma_find_id(df, id);
        if find_id(s, id) == -1 {
            assert forall|j: int| 0 <= j < s.len() implies s[j].id != id by {
                if j >= 1 {
                    assert(s[j] == df[j - 1]);
                }
            }
        } else {
            let f = find_id(s, id);
            assert(s[f] == df[f - 1]);
            assert forall|j: int| 0 <= j < f implies s[j].id != id by {
                if j >= 1 {
                    assert(s[j] == df[j - 1]);
                }
            }
        }
    }
}

/// `find_id` returns the least witness: any position whose every
/// predecessor misses the identifier is the one found.
pub proof fn lemma_find_id_at(s: Seq<TaskView>, id: u128, i: int)
    requires
        0 <= i < s.len(),
        s[i].id == id,
        forall|j: int| 0 <= j < i ==> s[j].id != id,
    ensures
        find_id(s, id) == i,
    decreases s.len(),
{
    if i > 0 {
        assert(forall|j: int| 0 <= j < i - 1 ==> s.drop_first()[j] == s[j + 1]);
        lemma_find_id_at(s.drop_first(), id, i - 1);
    }
}

/// The ordered collection of task records.  Identifier uniqueness is a
/// caller-kept convention (bulk merging deduplicates by full value,
/// not by identifier), so the editing rules below are stated for
/// arbitrary contents: removal drops every match, editing replaces the
/// first.
#[derive(Debug)]
pub struct TaskList {
    tasks: Vec<Task>,
}

impl View for TaskList {
    type V = Seq<TaskView>;

    closed spec fn view(&self) -> Seq<TaskView> {
        self.tasks@.map_values(|t: Task| t@)
    }
}

impl TaskList {
    pub fn new() -> (r: TaskList)
        ensures
            r@ =~= Seq::<TaskView>::empty(),
    {
        TaskList { tasks: Vec::new() }
    }

    pub fn len(&self) -> (r: usize)
        ensures
            r == self@.len(),
    {
        self.tasks.len()
    }

    pub fn get(&self, i: usize) -> (r: &Task)
        requires
            i < self@.len(),
        ensures
            r@ == self@[i as int],
    {
        &self.tasks[i]
    }

    /// Appends the record.  No identifier check is made here; the
    /// command layer resolves prefixes against current contents.
    pub fn add(&mut self, task: Task)
        ensures
            final(self)@ =~= old(self)@.push(task@),
    {
        self.tasks.push(task);
    }

    pub fn add_range(&mut self, tasks: &[Task])
        ensures
            final(self)@ =~= old(self)@ + tasks@.map_values(|t: Task| t@),
    {
        let n = tasks.len();
        let mut i: usize = 0;
        while i < n
            invariant
                i <= n,
                n == tasks@.len(),
                self@.len() == old(self)@.len() + i,
                forall|j: int| 0 <= j < old(self)@.len() ==> self@[j] == old(self)@[j],
                forall|j: int| 0 <= j < i ==> self@[old(self)@.len() + j] == tasks@[j]@,
            decreases n - i,
        {
            self.tasks.push(tasks[i].clone());
            i += 1;
        }
        proof {
            assert(self@ =~= old(self)@ + tasks@.map_values(|t: Task| t@));
        }
    }

    /// Deletes every record whose identifier equals `task_id`.
    pub fn remove(&mut self, task_id: &TaskId)
        ensures
            final(self)@ =~= old(self)@.filter(|t: TaskView| t.id != task_id@),
    {
        let ghost pred = |t: TaskView| t.id != task_id@;
        let mut kept: Vec<Task> = Vec::new();
        let n = self.tasks.len();
        let mut i: usize = 0;
        while i < n
            invariant
                i <= n,
                n == self.tasks@.len(),
                self@ == old(self)@,
                kept@.map_values(|t: Task| t@) =~= self@.take(i as int).filter(pred),
                pred == (|t: TaskView| t.id != task_id@),
            decreases n - i,
        {
            proof {
                assert(self@.take(i + 1).drop_last() =~= self@.take(i as int));
                reveal(Seq::filter);
            }
            let t = &self.tasks[i];
            if !(t.id().bits() == task_id.bits()) {
                kept.push(t.clone());
            }
            i += 1;
        }
        proof {
            assert(self@.take(n as int) =~= self@);
        }
        self.tasks = kept;
    }

    /// Replaces the first record carrying the same identifier as
    /// `task` and returns the previous value; fails without mutation
    /// when no record has that identifier.
    pub fn edit(&mut self, task: Task) -> (r: Result<Task, TaskError>)
        ensures
            find_id(old(self)@, task@.id) == -1 ==> final(self)@ == old(self)@ && (r matches Err(
                TaskError::InvalidId(e),
            ) && e@ == task@.id),
            find_id(old(self)@, task@.id) != -1 ==> final(self)@ =~= old(self)@.update(
                find_id(old(self)@, task@.id),
                task@,
            ) && (r matches Ok(prev) && prev@ == old(self)@[find_id(old(self)@, task@.id)]),
    {
        proof {
            lemma_find_id(self@, task@.id);
        }
        let id = task.id();
        let n = self.tasks.len();
        let mut i: usize = 0;
        while i < n
            invariant
                i <= n,
                n == self.tasks@.len(),
                self@ == old(self)@,
                forall|j: int| 0 <= j < i ==> self@[j].id != id@,
                id@ == task@.id,
            decreases n - i,
        {
            if self.tasks[i].id().bits() == id.bits() {
                proof {
                    lemma_find_id_at(self@, task@.id, i as int);
                }
                let prev = self.tasks[i].clone();
                self.tasks.set(i, task);
                return Ok(prev);
            }
            i += 1;
        }
        Err(TaskError::InvalidId(id))
    }

    /// Merges external records into the store: conceptually the two
    /// collections are concatenated, sorted by full-value order
    /// (identifier, then name, then due) and collapsed over adjacent
    /// exact duplicates.  The whole store is reordered, including
    /// previously added records: the result is the strictly sorted
    /// sequence of exactly the values present in either input.
    pub fn extend(&mut self, other: &[Task])
        ensures
            sorted_strict(final(self)@),
            forall|t: TaskView|
                final(self)@.contains(t) <==> (old(self)@.contains(t) || other@.map_values(
                    |x: Task| x@,
                ).contains(t)),
    {
        let ghost ov = other@.map_values(|x: Task| x@);
        let mut out: Vec<Task> = Vec::new();
        let n = self.tasks.len();
        let mut i: usize = 0;
        while i < n
            invariant
                i <= n,
                n == self.tasks@.len(),
                self@ == old(self)@,
                sorted_strict(task_views(out@)),
                forall|t: TaskView|
                    task_views(out@).contains(t) <==> old(self)@.take(i as int).contains(t),
            decreases n - i,
        {
            let ghost before = task_views(out@);
            insert_sorted_dedup(&mut out, self.tasks[i].clone());
            proof {
                assert(self@[i as int] == self.tasks@[i as int]@);
                assert forall|t: TaskView|
                    task_views(out@).contains(t) <==> old(self)@.take(i + 1).contains(
                        t,
                    ) by {
                    let pre = old(self)@.take(i as int);
                    let now = old(self)@.take(i + 1);
                    assert(now.drop_last() =~= pre);
                    assert(now.last() == old(self)@[i as int]);
                    if task_views(out@).contains(t) {
                        if before.contains(t) {
                            let k = choose|k: int| 0 <= k < pre.len() && pre[k] == t;
                            assert(now[k] == t);
                        } else {
                            assert(now[i as int] == t);
                        }
                    } else {
                        if now.contains(t) {
                            let k = choose|k: int| 0 <= k < now.len() && now[k] == t;
                            if k < i {
                                assert(pre[k] == t);
                            }
                        }
                    }
                }
            }
            i += 1;
        }
        proof {
            assert(old(self)@.take(n as int) =~= old(self)@);
        }
        let m = other.len();
        let mut j: usize = 0;
        while j < m
            invariant
                j <= m,
                m == other@.len(),
                self@ == old(self)@,
                ov == other@.map_values(|x: Task| x@),
                sorted_strict(task_views(out@)),
                forall|t: TaskView|
                    task_views(out@).contains(t) <==> (old(self)@.contains(t) || ov.take(
                        j as int,
                    ).contains(t)),
            decreases m - j,
        {
            let ghost before = task_views(out@);
            insert_sorted_dedup(&mut out, other[j].clone());
            proof {
                assert(ov[j as int] == other@[j as int]@);
                assert forall|t: TaskView|
                    task_views(out@).contains(t) <==> (old(self)@.contains(t) || ov.take(
                        j + 1,
                    ).contains(t)) by {
                    let pre = ov.take(j as int);
                    let now = ov.take(j + 1);
                    assert(now.drop_last() =~= pre);
                    assert(now.last() == ov[j as int]);
                    if task_views(out@).contains(t) {
                        if !before.contains(t) {
                            assert(now[j as int] == t);
                        } else if !old(self)@.contains(t) && pre.contains(t) {
                            let k = choose|k: int| 0 <= k < pre.len() && pre[k] == t;
                            assert(now[k] == t);
                        }
                    } else {
                        if now.contains(t) {
                            let k = choose|k: int| 0 <= k < now.len() && now[k] == t;
                            if k < j {
                                assert(pre[k] == t);
                            }
                        }
                    }
                }
            }
            j += 1;
        }
        proof {
            assert(ov.take(m as int) =~= ov);
        }
        self.tasks = out;
    }

    /// The "due today" view over the current contents, with "today"
    /// read once from the clock.
    pub fn today(&self) -> (r: Today<'_>)
        ensures
            r.spec_tasks() == self@,
            valid_date(r.spec_today()),
    {
        Today::new(self.tasks.as_slice())
    }

    pub fn as_slice(&self) -> (r: &[Task])
        ensures
            r@.map_values(|t: Task| t@) == self@,
    {
        self.tasks.as_slice()
    }
}

/// The views of a sequence of tasks.
pub open spec fn task_views(s: Seq<Task>) -> Seq<TaskView> {
    s.map_values(|t: Task| t@)
}

/// Adjacent records are in strictly ascending full-value order.
pub open spec fn sorted_strict(s: Seq<TaskView>) -> bool {
    forall|i: int| 0 <= i < s.len() - 1 ==> task_lt(#[trigger] s[i], s[i + 1])
}

/// Agreement on a prefix reduces byte comparison to the remainders.
proof fn lemma_bytes_lt_skip(a: Seq<u8>, b: Seq<u8>, k: int)
    requires
        0 <= k <= a.len(),
        k <= b.len(),
        forall|j: int| 0 <= j < k ==> a[j] == b[j],
    ensures
        bytes_lt(a, b) == bytes_lt(a.skip(k), b.skip(k)),
    decreases k,
{
    if k > 0 {
        let ta = a.drop_first();
        let tb = b.drop_first();
        assert(forall|j: int| 0 <= j < k - 1 ==> #[trigger] ta[j] == a[j + 1]);
        assert(forall|j: int| 0 <= j < k - 1 ==> #[trigger] tb[j] == b[j + 1]);
        lemma_bytes_lt_skip(ta, tb, k - 1);
        assert(ta.skip(k - 1) =~= a.skip(k));
        assert(tb.skip(k - 1) =~= b.skip(k));
    } else {
        assert(a.skip(0) =~= a);
        assert(b.skip(0) =~= b);
    }
}

/// Three-way byte-wise comparison: -1, 0 or 1 as `a` sorts before,
/// equal to, or after `b`.
fn cmp_bytes(a: &[u8], b: &[u8]) -> (r: i32)
    ensures
        r == -1 || r == 0 || r == 1,
        r == -1 ==> bytes_lt(a@, b@),
        r == 0 ==> a@ == b@,
        r == 1 ==> bytes_lt(b@, a@),
{
    let an = a.len();
    let bn = b.len();
    let mut k: usize = 0;
    while k < an && k < bn && a[k] == b[k]
        invariant
            k <= an,
            k <= bn,
            an == a@.len(),
            bn == b@.len(),
            forall|j: int| 0 <= j < k ==> a@[j] == b@[j],
        decreases an - k,
    {
        k += 1;
    }
    proof {
        lemma_bytes_lt_skip(a@, b@, k as int);
        lemma_bytes_lt_skip(b@, a@, k as int);
    }
    if k == an && k == bn {
        proof {
            assert(a@ =~= b@);
        }
        0
    } else if k == an {
        -1
    } else if k == bn {
        1
    } else if a[k] < b[k] {
        proof {
            assert(a@.skip(k as int)[0] == a@[k as int]);
            assert(b@.skip(k as int)[0] == b@[k as int]);
        }
        -1
    } else {
        proof {
            assert(a@.skip(k as int)[0] == a@[k as int]);
            assert(b@.skip(k as int)[0] == b@[k as int]);
        }
        1
    }
}

/// Three-way full-value comparison of tasks.
fn cmp_task(a: &Task, b: &Task) -> (r: i32)
    ensures
        r == -1 || r == 0 || r == 1,
        r == -1 ==> task_lt(a@, b@),
        r == 0 ==> a@ == b@,
        r == 1 ==> task_lt(b@, a@),
{
    let abits = a.id().bits();
    let bbits = b.id().bits();
    if abits < bbits {
        return -1;
    }
    if abits > bbits {
        return 1;
    }
    let nc = cmp_bytes(a.name().as_bytes(), b.name().as_bytes());
    proof {
        if nc == 0 {
            assert(decode_utf8(encode_utf8(a@.name)) == a@.name);
            assert(decode_utf8(encode_utf8(b@.name)) == b@.name);
        }
    }
    if nc == -1 {
        return -1;
    }
    if nc == 1 {
        return 1;
    }
    match (a.due(), b.due()) {
        (None, None) => {
            proof {
                assert(a@ =~= b@);
            }
            0
        },
        (None, Some(_)) => -1,
        (Some(_), None) => 1,
        (Some(x), Some(y)) => {
            if x.date.year < y.date.year {
                -1
            } else if x.date.year > y.date.year {
                1
            } else if x.date.month < y.date.month {
                -1
            } else if x.date.month > y.date.month {
                1
            } else if x.date.day < y.date.day {
                -1
            } else if x.date.day > y.date.day {
                1
            } else if x.time.hour < y.time.hour {
                -1
            } else if x.time.hour > y.time.hour {
                1
            } else if x.time.minute < y.time.minute {
                -1
            } else if x.time.minute > y.time.minute {
                1
            } else {
                proof {
                    assert(x == y);
                    assert(a@ =~= b@);
                }
                0
            }
        },
    }
}

/// Inserting keeps exactly the old values plus the new one.
proof fn lemma_insert_contains(s: Seq<TaskView>, p: int, v: TaskView)
    requires
        0 <= p <= s.len(),
    ensures
        forall|t: TaskView| s.insert(p, v).contains(t) <==> (s.contains(t) || t == v),
{
    let s2 = s.insert(p, v);
    assert forall|t: TaskView| s2.contains(t) implies (s.contains(t) || t == v) by {
        let k = choose|k: int| 0 <= k < s2.len() && s2[k] == t;
        if k < p {
            assert(s[k] == t);
        } else if k > p {
            assert(s[k - 1] == t);
        }
    }
    assert forall|t: TaskView| s.contains(t) || t == v implies s2.contains(t) by {
        if t == v {
            assert(s2[p] == t);
        } else {
            let k = choose|k: int| 0 <= k < s.len() && s[k] == t;
            if k < p {
                assert(s2[k] == t);
            } else {
                assert(s2[k + 1] == t);
            }
        }
    }
}

/// Inserts `e` at its place in a strictly sorted vector, dropping it
/// when an exact duplicate is already there.
fn insert_sorted_dedup(out: &mut Vec<Task>, e: Task)
    requires
        sorted_strict(task_views(old(out)@)),
    ensures
        sorted_strict(task_views(final(out)@)),
        forall|t: TaskView|
            task_views(final(out)@).contains(t) <==> (task_views(old(out)@).contains(t) || t
                == e@),
{
    let ghost sv = task_views(out@);
    let n = out.len();
    let mut p: usize = 0;
    let mut stop = false;
    let mut dup = false;
    while !stop && p < n
        invariant
            p <= n,
            n == out@.len(),
            out@ == old(out)@,
            sv == task_views(out@),
            forall|k: int| 0 <= k < p ==> task_lt(#[trigger] sv[k], e@),
            stop && dup ==> p < n && sv[p as int] == e@,
            stop && !dup ==> p < n && task_lt(e@, sv[p as int]),
            !stop ==> !dup,
        decreases n - p, (if stop { 0int } else { 1int }),
    {
        let c = cmp_task(&out[p], &e);
        if c == 0 {
            dup = true;
            stop = true;
        } else if c == 1 {
            stop = true;
        } else {
            p += 1;
        }
    }
    if dup {
        proof {
            assert(sv.contains(e@)) by {
                assert(sv[p as int] == e@);
            }
        }
        return ;
    }
    out.insert(p, e);
    proof {
        assert(task_views(out@) =~= sv.insert(p as int, e@));
        lemma_insert_contains(sv, p as int, e@);
        let s2 = sv.insert(p as int, e@);
        assert(task_views(out@) == s2);
        assert(forall|t: TaskView| s2.contains(t) <==> (sv.contains(t) || t == e@));
        assert forall|i: int| 0 <= i < s2.len() - 1 implies task_lt(#[trigger] s2[i], s2[i + 1]) by {
            if i + 1 < p {
                assert(s2[i] == sv[i] && s2[i + 1] == sv[i + 1]);
            } else if i + 1 == p {
                assert(s2[i] == sv[i] && s2[i + 1] == e@);
            } else if i == p {
                assert(s2[i] == e@ && s2[i + 1] == sv[i]);
                if p < sv.len() {
                    assert(task_lt(e@, sv[p as int]));
                }
            } else {
                assert(s2[i] == sv[i - 1] && s2[i + 1] == sv[i]);
            }
        }
    }
}

/// The first position in `s` that is due on `today`, or -1.
pub open spec fn find_due(s: Seq<TaskView>, today: Date) -> int
    decreases s.len(),
{
    if s.len() == 0 {
        -1
    } else if is_due(s[0], today) {
        0
    } else if find_due(s.drop_first(), today) == -1 {
        -1
    } else {
        find_due(s.drop_first(), today) + 1
    }
}

pub proof fn lemma_find_due(s: Seq<TaskView>, today: Date)
    ensures
        find_due(s, today) == -1 ==> forall|j: int| 0 <= j < s.len() ==> !is_due(s[j], today),
        find_due(s, today) != -1 ==> 0 <= find_due(s, today) < s.len() && is_due(
            s[find_due(s, today)],
            today,
        ) && forall|j: int| 0 <= j < find_due(s, today) ==> !is_due(s[j], today),
    decreases s.len(),
{
    if s.len() > 0 && !is_due(s[0], today) {
        let df = s.drop_first();
        lemma_find_due(df, today);
        if find_due(s, today) == -1 {
            assert forall|j: int| 0 <= j < s.len() implies !is_due(s[j], today) by {
                if j >= 1 {
                    assert(s[j] == df[j - 1]);
                }
            }
        } else {
            let f = find_due(s, today);
            assert(s[f] == df[f - 1]);
            assert forall|j: int| 0 <= j < f implies !is_due(s[j], today) by {
                if j >= 1 {
                    assert(s[j] == df[j - 1]);
                }
            }
        }
    }
}

/// The lazy, one-shot "due today" view over a snapshot of the store:
/// tasks are yielded in store order, keeping those whose due date is
/// absent or on or before the reference date fixed at construction.
pub struct Today<'a> {
    tasks: &'a [Task],
    today: Date,
}

impl<'a> Today<'a> {
    /// The tasks not yet yielded, as mathematical values.
    pub closed spec fn spec_tasks(&self) -> Seq<TaskView> {
        self.tasks@.map_values(|t: Task| t@)
    }

    /// The reference date fixed when the view was made.
    pub closed spec fn spec_today(&self) -> Date {
        self.today
    }

    /// A view over `slice` with "today" read once from the clock.
    pub fn new(slice: &'a [Task]) -> (r: Today<'a>)
        ensures
            r.spec_tasks() == slice@.map_values(|t: Task| t@),
            valid_date(r.spec_today()),
    {
        Today { tasks: slice, today: current_date() }
    }

    /// A view over `slice` with an explicit reference date.
    pub fn with_date(slice: &'a [Task], today: Date) -> (r: Today<'a>)
        ensures
            r.spec_tasks() == slice@.map_values(|t: Task| t@),
            r.spec_today() == today,
    {
        Today { tasks: slice, today }
    }

    /// Yields the next due task, advancing past it; `None` when no
    /// remaining task is due.
    pub fn next(&mut self) -> (r: Option<&'a Task>)
        ensures
            final(self).spec_today() == old(self).spec_today(),
            find_due(old(self).spec_tasks(), old(self).spec_today()) == -1 ==> r is None
                && final(self).spec_tasks() == old(self).spec_tasks(),
            find_due(old(self).spec_tasks(), old(self).spec_today()) != -1 ==> (r matches Some(t)
                && t@ == old(self).spec_tasks()[find_due(
                old(self).spec_tasks(),
                old(self).spec_today(),
            )] && final(self).spec_tasks() == old(self).spec_tasks().skip(
                find_due(old(self).spec_tasks(), old(self).spec_today()) + 1,
            )),
    {
        proof {
            lemma_find_due(self.spec_tasks(), self.today);
        }
        let n = self.tasks.len();
        let mut i: usize = 0;
        while i < n
            invariant
                i <= n,
                n == self.tasks@.len(),
                *self == *old(self),
                forall|j: int| 0 <= j < i ==> !is_due(self.spec_tasks()[j], self.spec_today()),
            decreases n - i,
        {
            let task = &self.tasks[i];
            let due = match task.due() {
                None => true,
                Some(dt) => dt.date.on_or_before(&self.today),
            };
            if due {
                proof {
                    lemma_find_due_at(self.spec_tasks(), self.spec_today(), i as int);
                }
                let t: &'a Task = &self.tasks[i];
                self.tasks = &self.tasks[i + 1..n];
                proof {
                    assert(self.spec_tasks() =~= old(self).spec_tasks().skip(i + 1));
                }
                return Some(t);
            }
            i += 1;
        }
        None
    }

    /// All still-pending due tasks at once, in store order.
    pub fn remaining(&self) -> (r: Vec<Task>)
        ensures
            r@.map_values(|t: Task| t@) == self.spec_tasks().filter(
                |t: TaskView| is_due(t, self.spec_today()),
            ),
    {
        let ghost pred = |t: TaskView| is_due(t, self.spec_today());
        let mut out: Vec<Task> = Vec::new();
        let n = self.tasks.len();
        let mut i: usize = 0;
        while i < n
            invariant
                i <= n,
                n == self.tasks@.len(),
                out@.map_values(|t: Task| t@) =~= self.spec_tasks().take(i as int).filter(pred),
                pred == (|t: TaskView| is_due(t, self.spec_today())),
            decreases n - i,
        {
            proof {
                assert(self.spec_tasks().take(i + 1).drop_last() =~= self.spec_tasks().take(
                    i as int,
                ));
                reveal(Seq::filter);
            }
            let task = &self.tasks[i];
            let due = match task.due() {
                None => true,
                Some(dt) => dt.date.on_or_before(&self.today),
            };
            if due {
                out.push(task.clone());
            }
            i += 1;
        }
        proof {
            assert(self.spec_tasks().take(n as int) =~= self.spec_tasks());
        }
        out
    }
}

/// `find_due` returns the least witness.
pub proof fn lemma_find_due_at(s: Seq<TaskView>, today: Date, i: int)
    requires
        0 <= i < s.len(),
        is_due(s[i], today),
        forall|j: int| 0 <= j < i ==> !is_due(s[j], today),
    ensures
        find_due(s, today) == i,
    decreases s.len(),
{
    if i > 0 {
        assert(forall|j: int| 0 <= j < i - 1 ==> s.drop_first()[j] == s[j + 1]);
        lemma_find_due_at(s.drop_first(), today, i - 1);
    }
}

/// What the "due today" rule selects: a task with no due instant is
/// always included; one due on or before the reference date is
/// included whatever its time of day; one due strictly after is
/// excluded.
pub proof fn lemma_due_rule(t: TaskView, today: Date)
    ensures
        t.due is None ==> is_due(t, today),
        t.due matches Some(dt) && date_le(dt.date, today) ==> is_due(t, today),
        t.due matches Some(dt) && dt.date == today ==> is_due(t, today),
        t.due matches Some(dt) && !date_le(dt.date, today) ==> !is_due(t, today),
{
}

/// Every due task of the snapshot appears in the "due today"
/// selection.
pub proof fn lemma_due_selection_in(s: Seq<TaskView>, today: Date, i: int)
    requires
        0 <= i < s.len(),
        is_due(s[i], today),
    ensures
        s.filter(|t: TaskView| is_due(t, today)).contains(s[i]),
{
    s.lemma_filter_contains(|t: TaskView| is_due(t, today), i);
}

/// Everything in the "due today" selection satisfies the due rule.
pub proof fn lemma_due_selection_only(s: Seq<TaskView>, today: Date, t: TaskView)
    requires
        s.filter(|t: TaskView| is_due(t, today)).contains(t),
    ensures
        is_due(t, today),
{
    let pred = |t: TaskView| is_due(t, today);
    let i = choose|i: int| 0 <= i < s.filter(pred).len() && s.filter(pred)[i] == t;
    s.lemma_filter_pred(pred, i);
}

impl Default for TaskList {
    fn default() -> (r: TaskList)
        ensures
            r@ =~= Seq::<TaskView>::empty(),
    {
        TaskList::new()
    }
}

} // verus!
