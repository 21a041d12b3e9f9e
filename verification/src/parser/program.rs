//! A recursive-descent parser turning one line of text into a tagged
//! edit instruction.
//!
//! The grammar, one instruction per line:
//!
//! ```text
//! Line      := Empty | AddLine | EditLine
//! AddLine   := "new" WS DateTime WS Name
//! EditLine  := IdPrefix (WS Action)? WS DateTime WS Name
//!            | IdPrefix WS "remove" Rest*
//! DateTime  := "Now" | Date WS Time
//! Date      := Year "-" Month "-" Day      (decimal)
//! Time      := Hour ":" Minute             (decimal, seconds = 0)
//! Action    := "edit" | "new" | "remove"
//! Name      := remainder of the line, trimmed, non-empty
//! IdPrefix  := token up to the next whitespace
//! ```
//!
//! The cursor is a byte offset; it is snapped to the nearest character
//! boundary before any slicing, since a position may fall inside a
//! multi-byte character.  Error columns are byte offsets.

use vstd::prelude::*;
use vstd::utf8::*;

use crate::task::{
    spec_trim, task_name_valid, white_char, days_in_month, Date, DateTime, Task, TaskName,
    TaskView, Time, MAX_YEAR,
};

verus! {

broadcast use vstd::utf8::encode_utf8_valid_utf8, vstd::utf8::encode_utf8_decode_utf8,
    vstd::utf8::is_char_boundary_iff_not_is_continuation_byte,
    vstd::utf8::is_char_boundary_start_end_of_seq, vstd::utf8::valid_utf8_split;

use vstd::string::StringSliceAdditionalSpecFns;

/// The bytes of `s` from `i` to the end.
pub open spec fn tail_from(s: Seq<u8>, i: int) -> Seq<u8> {
    s.subrange(i, s.len() as int)
}

/// The character that starts at byte `i` (a character boundary).
pub open spec fn first_char_at(s: Seq<u8>, i: int) -> char {
    decode_utf8(tail_from(s, i))[0]
}

/// The width in bytes of the character starting at byte `i`.
pub open spec fn width_at(s: Seq<u8>, i: int) -> int {
    length_of_first_scalar(tail_from(s, i))
}

/// The nearest character boundary at or after `i`, capped at the
/// length.
pub open spec fn ceil_boundary(s: Seq<u8>, i: int) -> int
    decreases s.len() - i,
{
    if i <= 0 {
        0
    } else if i >= s.len() {
        s.len() as int
    } else if !is_continuation_byte(s[i]) {
        i
    } else {
        ceil_boundary(s, i + 1)
    }
}

/// The byte offset of the first character at or after the boundary at
/// or after `i` that is not whitespace; the length when none follows.
pub open spec fn skip_white(s: Seq<u8>, i: int) -> int
    decreases s.len() - i,
{
    let b = ceil_boundary(s, i);
    if b >= s.len() {
        s.len() as int
    } else if !white_char(first_char_at(s, b)) {
        b
    } else if b >= i && b + width_at(s, b) <= s.len() && width_at(s, b) >= 1 {
        skip_white(s, b + width_at(s, b))
    } else {
        s.len() as int
    }
}

/// The byte offset just past the token starting at boundary `i`: the
/// start of the first whitespace character at or after `i`, or the
/// length.
pub open spec fn token_end(s: Seq<u8>, i: int) -> int
    decreases s.len() - i,
{
    if i < 0 || i >= s.len() {
        s.len() as int
    } else if white_char(first_char_at(s, i)) {
        i
    } else if i + width_at(s, i) <= s.len() && width_at(s, i) >= 1 {
        token_end(s, i + width_at(s, i))
    } else {
        s.len() as int
    }
}

/// An ASCII decimal digit.
pub open spec fn is_digit_byte(b: u8) -> bool {
    0x30 <= b <= 0x39
}

/// The end of the run of ASCII digits starting at `i`.
pub open spec fn digits_end(s: Seq<u8>, i: int) -> int
    decreases s.len() - i,
{
    if i < 0 {
        0
    } else if i >= s.len() {
        s.len() as int
    } else if is_digit_byte(s[i]) {
        digits_end(s, i + 1)
    } else {
        i
    }
}

/// The decimal value of a run of digit bytes.
pub open spec fn digits_value(ds: Seq<u8>) -> int
    decreases ds.len(),
{
    if ds.len() == 0 {
        0
    } else {
        10 * digits_value(ds.drop_last()) + (ds.last() - 0x30)
    }
}

/// Values are compared against field bounds far below this cap, so a
/// capped value decides every range check exactly.
pub open spec fn sat_cap(v: int) -> int {
    if v > 1000000000 {
        1000000000
    } else {
        v
    }
}

pub open spec fn all_digits(ds: Seq<u8>) -> bool {
    forall|j: int| 0 <= j < ds.len() ==> is_digit_byte(ds[j])
}

/// A character boundary inside a valid encoding is exactly a position
/// that is the length, or holds a non-continuation byte.
pub proof fn lemma_boundary_iff(s: Seq<u8>, p: int)
    requires
        valid_utf8(s),
        0 <= p <= s.len(),
    ensures
        is_char_boundary(s, p) <==> (p == s.len() || !is_continuation_byte(s[p])),
{
    if p < s.len() {
        is_char_boundary_iff_not_is_continuation_byte(s, p);
    }
}

/// Stepping over the character at a boundary lands on the next
/// boundary, within bounds.
pub proof fn lemma_step_boundary(s: Seq<u8>, p: int)
    requires
        valid_utf8(s),
        is_char_boundary(s, p),
        0 <= p < s.len(),
    ensures
        1 <= width_at(s, p) <= 4,
        p + width_at(s, p) <= s.len(),
        is_char_boundary(s, p + width_at(s, p)),
{
    let t = tail_from(s, p);
    assert(valid_utf8(t));
    assert(t.len() > 0);
    assert(valid_first_scalar(t));
    let w = length_of_first_scalar(t);
    assert(1 <= w <= 4);
    assert(w <= t.len());
    assert(is_char_boundary(t, w)) by {
        reveal_with_fuel(is_char_boundary, 2);
        assert(pop_first_scalar(t) == t.subrange(w, t.len() as int));
    }
    lemma_boundary_iff(t, w);
    if p + w < s.len() {
        assert(t[w] == s[p + w]);
        lemma_boundary_iff(s, p + w);
    }
}

/// An ASCII byte is a one-byte character; the next byte starts a new
/// character.
pub proof fn lemma_ascii_step(s: Seq<u8>, p: int)
    requires
        valid_utf8(s),
        is_char_boundary(s, p),
        0 <= p < s.len(),
        s[p] < 0x80,
    ensures
        width_at(s, p) == 1,
        is_char_boundary(s, p + 1),
{
    let t = tail_from(s, p);
    assert(t[0] == s[p]);
    assert(is_leading_byte_width_1(t[0]));
    lemma_step_boundary(s, p);
}

/// A boundary of the whole text is a boundary of its tail.
pub proof fn lemma_boundary_in_tail(s: Seq<u8>, a: int, q: int)
    requires
        valid_utf8(s),
        is_char_boundary(s, a),
        is_char_boundary(s, q),
        0 <= a <= q <= s.len(),
    ensures
        is_char_boundary(tail_from(s, a), q - a),
{
    let t = tail_from(s, a);
    assert(valid_utf8(t));
    if q == s.len() {
        assert(q - a == t.len());
    } else {
        lemma_boundary_iff(s, q);
        assert(t[q - a] == s[q]);
        lemma_boundary_iff(t, q - a);
    }
}

/// Reads the character whose encoding starts at byte `p`, with its
/// width; `None` exactly at the end of the text.
fn char_and_width(text: &str, p: usize) -> (r: Option<(char, usize)>)
    requires
        is_char_boundary(text.spec_bytes(), p as int),
        p <= text.spec_bytes().len(),
    ensures
        p == text.spec_bytes().len() ==> r is None,
        p < text.spec_bytes().len() ==> (r matches Some((c, w))
            && c == first_char_at(text.spec_bytes(), p as int)
            && w == width_at(text.spec_bytes(), p as int)
            && 1 <= w <= 4
            && p + w <= text.spec_bytes().len()
            && is_char_boundary(text.spec_bytes(), p + w)),
{
    broadcast use vstd::string::axiom_spec_iter, vstd::string::next_postcondition;

    let ghost s = text.spec_bytes();
    let (_, rest) = text.split_at(p);
    let ghost t = tail_from(s, p as int);
    proof {
        assert(rest.spec_bytes() =~= t);
        assert(decode_utf8(encode_utf8(rest@)) == rest@);
        assert(valid_utf8(t));
    }
    let mut it = rest.chars();
    match it.next() {
        None => {
            proof {
                assert(rest@.len() == 0);
                assert(decode_utf8(t).len() == 0);
                if p < s.len() {
                    assert(t.len() > 0);
                    assert(decode_utf8(t).len() > 0);
                }
            }
            None
        },
        Some(c) => {
            proof {
                assert(rest@.len() > 0);
                assert(c == rest@[0]);
                assert(rest@ == decode_utf8(t));
                if p == s.len() {
                    assert(t.len() == 0);
                    assert(decode_utf8(t).len() == 0);
                }
                assert(p < s.len());
                lemma_step_boundary(s, p as int);
                encode_utf8_first_scalar(rest@);
                assert(encode_utf8(rest@) == t);
                assert(length_of_first_scalar(t) == encode_scalar(rest@[0] as u32).len());
                char_is_scalar(c);
            }
            let v = c as u32;
            let w: usize = if v < 0x80 {
                1
            } else if v < 0x800 {
                2
            } else if v < 0x10000 {
                3
            } else {
                4
            };
            proof {
                assert(encode_scalar(c as u32).len() == w as int);
            }
            Some((c, w))
        },
    }
}

/// Snaps `p` to the nearest character boundary at or after it, capped
/// at the length of the text.
fn ceil_char_boundary_at(text: &str, p: usize) -> (r: usize)
    ensures
        r == ceil_boundary(text.spec_bytes(), p as int),
        is_char_boundary(text.spec_bytes(), r as int),
        r <= text.spec_bytes().len(),
        p <= text.spec_bytes().len() ==> p <= r,
{
    let ghost s = text.spec_bytes();
    proof {
        assert(s == encode_utf8(text@));
    }
    let n = text.as_bytes().len();
    let mut q: usize = if p > n {
        n
    } else {
        p
    };
    while q < n && !text.is_char_boundary(q)
        invariant
            s == text.spec_bytes(),
            valid_utf8(s),
            n == s.len(),
            q <= n,
            p <= n ==> p <= q,
            ceil_boundary(s, p as int) == ceil_boundary(s, q as int),
        decreases n - q,
    {
        proof {
            if q == 0 {
                assert(is_char_boundary(s, 0));
                assert(false);
            }
            lemma_boundary_iff(s, q as int);
            assert(is_continuation_byte(s[q as int]));
            assert(ceil_boundary(s, q as int) == ceil_boundary(s, q + 1));
        }
        q += 1;
    }
    proof {
        if q == n {
            assert(ceil_boundary(s, q as int) == n);
            assert(is_char_boundary(s, n as int));
        } else {
            lemma_boundary_iff(s, q as int);
            assert(ceil_boundary(s, q as int) == q);
        }
    }
    q
}

/// Advances from `p` past every whitespace character, snapping to a
/// boundary first.
fn skip_white_from(text: &str, p: usize) -> (r: usize)
    ensures
        r == skip_white(text.spec_bytes(), p as int),
        is_char_boundary(text.spec_bytes(), r as int),
        r <= text.spec_bytes().len(),
        p <= text.spec_bytes().len() ==> p <= r,
    decreases text.spec_bytes().len() - p,
{
    let ghost s = text.spec_bytes();
    proof {
        assert(s == encode_utf8(text@));
    }
    let n = text.as_bytes().len();
    let b = ceil_char_boundary_at(text, p);
    match char_and_width(text, b) {
        None => {
            proof {
                assert(skip_white(s, p as int) == s.len());
            }
            b
        },
        Some((c, w)) => {
            if is_white(c) {
                proof {
                    assert(skip_white(s, p as int) == skip_white(s, b + w));
                    assert(b + w <= n);
                }
                skip_white_from(text, b + w)
            } else {
                proof {
                    assert(skip_white(s, p as int) == b);
                }
                b
            }
        },
    }
}

/// The end of the token starting at boundary `p`: the start of the
/// next whitespace character, or the end of the text.
fn token_end_from(text: &str, p: usize) -> (r: usize)
    requires
        is_char_boundary(text.spec_bytes(), p as int),
        p <= text.spec_bytes().len(),
    ensures
        r == token_end(text.spec_bytes(), p as int),
        is_char_boundary(text.spec_bytes(), r as int),
        p <= r <= text.spec_bytes().len(),
    decreases text.spec_bytes().len() - p,
{
    let ghost s = text.spec_bytes();
    proof {
        assert(s == encode_utf8(text@));
    }
    let n = text.as_bytes().len();
    match char_and_width(text, p) {
        None => {
            proof {
                assert(token_end(s, p as int) == s.len());
            }
            p
        },
        Some((c, w)) => {
            if is_white(c) {
                proof {
                    assert(token_end(s, p as int) == p);
                }
                p
            } else {
                proof {
                    assert(token_end(s, p as int) == token_end(s, p + w));
                    assert(p + w <= n);
                }
                token_end_from(text, p + w)
            }
        },
    }
}

/// Scans the run of ASCII digits starting at boundary `p`, returning
/// its end and its decimal value capped for range checks.
fn scan_digits(text: &str, p: usize) -> (r: (usize, u64))
    requires
        is_char_boundary(text.spec_bytes(), p as int),
        p <= text.spec_bytes().len(),
    ensures
        r.0 == digits_end(text.spec_bytes(), p as int),
        is_char_boundary(text.spec_bytes(), r.0 as int),
        p <= r.0 <= text.spec_bytes().len(),
        r.1 == sat_cap(digits_value(text.spec_bytes().subrange(p as int, r.0 as int))),
        all_digits(text.spec_bytes().subrange(p as int, r.0 as int)),
{
    let ghost s = text.spec_bytes();
    proof {
        assert(s == encode_utf8(text@));
    }
    let bytes = text.as_bytes();
    let n = bytes.len();
    let mut q: usize = p;
    let mut acc: u64 = 0;
    while q < n && 0x30 <= bytes[q] && bytes[q] <= 0x39
        invariant
            s == text.spec_bytes(),
            valid_utf8(s),
            n == s.len(),
            bytes@ == s,
            p <= q <= n,
            is_char_boundary(s, q as int),
            digits_end(s, p as int) == digits_end(s, q as int),
            acc == sat_cap(digits_value(s.subrange(p as int, q as int))),
            all_digits(s.subrange(p as int, q as int)),
        decreases n - q,
    {
        proof {
            assert(is_digit_byte(s[q as int]));
            assert(digits_end(s, q as int) == digits_end(s, q + 1));
            lemma_ascii_step(s, q as int);
            assert(s.subrange(p as int, q + 1).drop_last() =~= s.subrange(p as int, q as int));
            assert(s.subrange(p as int, q + 1).last() == s[q as int]);
        }
        let d = (bytes[q] - 0x30) as u64;
        acc = acc * 10 + d;
        if acc > 1000000000 {
            acc = 1000000000;
        }
        q += 1;
    }
    proof {
        if q < n {
            assert(!is_digit_byte(s[q as int]));
            assert(digits_end(s, q as int) == q);
        } else {
            assert(digits_end(s, q as int) == n);
        }
    }
    (q, acc)
}

/// Whether `c` has the Unicode `White_Space` property.
fn is_white(c: char) -> (r: bool)
    ensures
        r == white_char(c),
{
    let v = c as u32;
    v == 0x20 || v == 0x09 || v == 0x0a || v == 0x0b || v == 0x0c || v == 0x0d || v == 0x85
        || v == 0xa0 || v == 0x1680 || (0x2000 <= v && v <= 0x200a) || v == 0x2028 || v == 0x2029
        || v == 0x202f || v == 0x205f || v == 0x3000
}

/// What a single parse step rejected.
#[derive(Debug, Clone, Copy, PartialEq, Eq, Structural)]
pub enum TokenError {
    /// The name part was empty after trimming.
    InvalidTaskName,
    /// A date or time field was out of range or not a number.
    InvalidDue,
    /// Input remained after a complete instruction.
    ExpectedEOF(char),
    /// A token other than the expected one.
    UnexpectedToken(char),
    /// The line ended where a token was required.
    UnexpectedEOF,
}

/// The mathematical value of a parse error: a byte-offset column and a
/// kind.
pub struct ErrView {
    pub col: int,
    pub kind: TokenError,
}

/// A parse failure: the byte offset of the offending column and the
/// kind of violation.
#[derive(Debug, Clone, Copy, PartialEq, Eq, Structural)]
pub struct ParseError {
    col: usize,
    kind: TokenError,
}

impl View for ParseError {
    type V = ErrView;

    closed spec fn view(&self) -> ErrView {
        ErrView { col: self.col as int, kind: self.kind }
    }
}

impl ParseError {
    /// The byte offset at which parsing failed.
    pub fn position(&self) -> (r: usize)
        ensures
            r as int == self@.col,
    {
        self.col
    }

    /// The kind of violation.
    pub fn kind(&self) -> (r: TokenError)
        ensures
            r == self@.kind,
    {
        self.kind
    }
}

/// One parsed instruction.
#[derive(Debug)]
pub enum Program {
    /// Create the carried task.
    Add(Task),
    /// Replace the name and due date of the task selected by the
    /// identifier prefix.
    Edit { id: String, name: TaskName, due: Option<DateTime> },
    /// Remove the task selected by the identifier prefix.
    Remove(String),
    /// A blank line; nothing to do.
    Empty,
}

/// The mathematical value of an instruction.
pub enum ProgramView {
    Add(TaskView),
    Edit { id: Seq<char>, name: Seq<char>, due: Option<DateTime> },
    Remove(Seq<char>),
    Empty,
}

impl View for Program {
    type V = ProgramView;

    open spec fn view(&self) -> ProgramView {
        match self {
            Program::Add(t) => ProgramView::Add(t@),
            Program::Edit { id, name, due } => ProgramView::Edit {
                id: id@,
                name: name@,
                due: *due,
            },
            Program::Remove(id) => ProgramView::Remove(id@),
            Program::Empty => ProgramView::Empty,
        }
    }
}

/// What the grammar assigns to a line.  An added task draws a fresh
/// random identifier, so only its name and due date are determined.
pub enum SpecProg {
    Add { name: Seq<char>, due: Option<DateTime> },
    Edit { id: Seq<char>, name: Seq<char>, due: Option<DateTime> },
    Remove { id: Seq<char> },
    Empty,
}

/// Whether the instruction `p` is the one the grammar assigns.
pub open spec fn program_matches(p: ProgramView, sp: SpecProg) -> bool {
    match sp {
        SpecProg::Add { name, due } => p matches ProgramView::Add(t) && t.name == name && t.due
            == due,
        SpecProg::Edit { id, name, due } => p == (ProgramView::Edit { id, name, due }),
        SpecProg::Remove { id } => p == ProgramView::Remove(id),
        SpecProg::Empty => p == ProgramView::Empty,
    }
}

/// The keyword `new`.
pub open spec fn kw_new() -> Seq<u8> {
    seq![0x6eu8, 0x65u8, 0x77u8]
}

/// The keyword `Now`.
pub open spec fn kw_now() -> Seq<u8> {
    seq![0x4eu8, 0x6fu8, 0x77u8]
}

/// The keyword `edit`.
pub open spec fn kw_edit() -> Seq<u8> {
    seq![0x65u8, 0x64u8, 0x69u8, 0x74u8]
}

/// The keyword `remove`.
pub open spec fn kw_remove() -> Seq<u8> {
    seq![0x72u8, 0x65u8, 0x6du8, 0x6fu8, 0x76u8, 0x65u8]
}

/// The character reported in an error at byte offset `i`: the
/// character at the nearest boundary, or NUL at the end of the line.
pub open spec fn char_for_err(s: Seq<u8>, i: int) -> char {
    let b = ceil_boundary(s, i);
    if b >= s.len() {
        '\0'
    } else {
        first_char_at(s, b)
    }
}

/// The error for a missing or wrong token at `i`: end-of-line when the
/// line is exhausted, otherwise the unexpected character, at column
/// `i`.
pub open spec fn field_err(s: Seq<u8>, i: int) -> ErrView {
    if i >= s.len() {
        ErrView { col: i, kind: TokenError::UnexpectedEOF }
    } else {
        ErrView { col: i, kind: TokenError::UnexpectedToken(char_for_err(s, i)) }
    }
}

/// `Time := Hour ":" Minute`, parsed at `i`.  The hour is a digit run;
/// the minute runs to the next whitespace and must be all digits.  An
/// out-of-range field is `InvalidDue` at the field's starting column.
/// Returns the value and the position after the minute.
pub open spec fn spec_time(s: Seq<u8>, i: int) -> (Result<Time, ErrView>, int) {
    let he = digits_end(s, i);
    if he == i {
        (Err(field_err(s, i)), i)
    } else {
        let h = digits_value(s.subrange(i, he));
        if h > 23 {
            (Err(ErrView { col: i, kind: TokenError::InvalidDue }), i)
        } else if he >= s.len() || s[he] != 0x3a {
            (Err(field_err(s, he)), he)
        } else {
            let ms = he + 1;
            let me = token_end(s, ms);
            let de = digits_end(s, ms);
            if me == ms || de != me {
                (Err(ErrView { col: ms, kind: TokenError::InvalidDue }), ms)
            } else {
                let m = digits_value(s.subrange(ms, me));
                if m > 59 {
                    (Err(ErrView { col: ms, kind: TokenError::InvalidDue }), ms)
                } else {
                    (Ok(Time { hour: h as u32, minute: m as u32 }), me)
                }
            }
        }
    }
}

/// `Date := Year "-" Month "-" Day`, parsed at `i`.  Year and month
/// are digit runs split by `-`; the day runs to the next whitespace
/// and must be all digits.  An out-of-range field is `InvalidDue` at
/// the field's starting column; the day's range depends on the year
/// and month already read.  Returns the date and the position after
/// the day.
pub open spec fn spec_date(s: Seq<u8>, i: int) -> (Result<Date, ErrView>, int) {
    let ye = digits_end(s, i);
    if ye == i {
        (Err(field_err(s, i)), i)
    } else {
        let y = digits_value(s.subrange(i, ye));
        if y > MAX_YEAR {
            (Err(ErrView { col: i, kind: TokenError::InvalidDue }), i)
        } else if ye >= s.len() || s[ye] != 0x2d {
            (Err(field_err(s, ye)), ye)
        } else {
            let ms = ye + 1;
            let me = digits_end(s, ms);
            if me == ms {
                (Err(field_err(s, ms)), ms)
            } else {
                let m = digits_value(s.subrange(ms, me));
                if m < 1 || m > 12 {
                    (Err(ErrView { col: ms, kind: TokenError::InvalidDue }), ms)
                } else if me >= s.len() || s[me] != 0x2d {
                    (Err(field_err(s, me)), me)
                } else {
                    let ds = me + 1;
                    let dte = token_end(s, ds);
                    let dde = digits_end(s, ds);
                    if dte == ds || dde != dte {
                        (Err(ErrView { col: ds, kind: TokenError::InvalidDue }), ds)
                    } else {
                        let d = digits_value(s.subrange(ds, dte));
                        if d < 1 || d > days_in_month(y, m) {
                            (Err(ErrView { col: ds, kind: TokenError::InvalidDue }), ds)
                        } else {
                            (
                                Ok(Date { year: y as i32, month: m as u32, day: d as u32 }),
                                dte,
                            )
                        }
                    }
                }
            }
        }
    }
}

/// `DateTime := "Now" | Date WS Time`, parsed at `i`.  The exact token
/// `Now` stands for an absent due instant.
pub open spec fn spec_datetime(s: Seq<u8>, i: int) -> (Result<Option<DateTime>, ErrView>, int) {
    if i >= s.len() {
        (Err(ErrView { col: i, kind: TokenError::UnexpectedEOF }), i)
    } else if s.subrange(i, token_end(s, i)) == kw_now() {
        (Ok(None), i + 3)
    } else {
        let d = spec_date(s, i);
        match d.0 {
            Err(e) => (Err(e), d.1),
            Ok(date) => {
                let j = skip_white(s, d.1);
                let t = spec_time(s, j);
                match t.0 {
                    Err(e) => (Err(e), t.1),
                    Ok(time) => (Ok(Some(DateTime { date, time })), t.1),
                }
            },
        }
    }
}

/// `Name := remainder of the line, trimmed`; empty after trimming is
/// `InvalidTaskName` at the first non-whitespace position (the end of
/// the line when blank).
pub open spec fn spec_name_at(s: Seq<u8>, i: int) -> Result<Seq<char>, ErrView> {
    let p = skip_white(s, i);
    let nm = spec_trim(decode_utf8(tail_from(s, p)));
    if nm.len() == 0 {
        Err(ErrView { col: p, kind: TokenError::InvalidTaskName })
    } else {
        Ok(nm)
    }
}

/// The tail of `AddLine` after the `new` keyword: `WS DateTime WS
/// Name`.
pub open spec fn spec_add_tail(s: Seq<u8>, i: int) -> Result<SpecProg, ErrView> {
    let p = skip_white(s, i);
    let dt = spec_datetime(s, p);
    match dt.0 {
        Err(e) => Err(e),
        Ok(due) => match spec_name_at(s, dt.1) {
            Err(e) => Err(e),
            Ok(name) => Ok(SpecProg::Add { name, due }),
        },
    }
}

/// `AddLine := "new" WS DateTime WS Name`, with the cursor on the
/// first token; any other token here is unexpected.
pub open spec fn spec_addline(s: Seq<u8>, i: int) -> Result<SpecProg, ErrView> {
    if s.subrange(i, token_end(s, i)) == kw_new() {
        spec_add_tail(s, i + 3)
    } else {
        Err(field_err(s, i))
    }
}

/// The tail of `EditLine` once the identifier prefix is read: `WS
/// DateTime WS Name`.
pub open spec fn spec_edit_tail(s: Seq<u8>, id: Seq<char>, p: int) -> Result<SpecProg, ErrView> {
    let q = skip_white(s, p);
    let dt = spec_datetime(s, q);
    match dt.0 {
        Err(e) => Err(e),
        Ok(due) => match spec_name_at(s, dt.1) {
            Err(e) => Err(e),
            Ok(name) => Ok(SpecProg::Edit { id, name, due }),
        },
    }
}

/// `EditLine`, with the cursor on the identifier prefix at `i`.  After
/// the prefix an action token is tried: `remove` discards the rest of
/// the line, `new` here is a hard error, `edit` continues with the
/// date; any other token is no action at all, and the date is
/// re-parsed from just after the prefix — the attempt consumes
/// nothing.
pub open spec fn spec_editline(s: Seq<u8>, i: int) -> Result<SpecProg, ErrView> {
    let j = token_end(s, i);
    let id = decode_utf8(s.subrange(i, j));
    let k = skip_white(s, j);
    let ke = token_end(s, k);
    let atok = s.subrange(k, ke);
    if atok == kw_remove() {
        Ok(SpecProg::Remove { id })
    } else if atok == kw_new() {
        Err(field_err(s, k))
    } else if atok == kw_edit() {
        spec_edit_tail(s, id, ke)
    } else {
        spec_edit_tail(s, id, j)
    }
}

/// Builds the error for a missing or wrong token at `p`.
fn make_field_error(text: &str, p: usize) -> (e: ParseError)
    ensures
        e@ == field_err(text.spec_bytes(), p as int),
{
    let ghost s = text.spec_bytes();
    proof {
        assert(s == encode_utf8(text@));
    }
    let n = text.as_bytes().len();
    let b = ceil_char_boundary_at(text, p);
    let c = match char_and_width(text, b) {
        None => '\0',
        Some((c2, _)) => c2,
    };
    if p >= n {
        ParseError { col: p, kind: TokenError::UnexpectedEOF }
    } else {
        ParseError { col: p, kind: TokenError::UnexpectedToken(c) }
    }
}

/// Copies the slice between the boundaries `a` and `b` out of the
/// text.
fn substring_to_owned(text: &str, a: usize, b: usize) -> (r: String)
    requires
        is_char_boundary(text.spec_bytes(), a as int),
        is_char_boundary(text.spec_bytes(), b as int),
        a <= b <= text.spec_bytes().len(),
    ensures
        r@ == decode_utf8(text.spec_bytes().subrange(a as int, b as int)),
{
    let ghost s = text.spec_bytes();
    proof {
        assert(s == encode_utf8(text@));
        lemma_boundary_in_tail(s, a as int, b as int);
    }
    let (_, tail) = text.split_at(a);
    proof {
        assert(tail.spec_bytes() =~= tail_from(s, a as int));
    }
    let (tok, _) = tail.split_at(b - a);
    proof {
        assert(tok.spec_bytes() =~= s.subrange(a as int, b as int));
        assert(decode_utf8(encode_utf8(tok@)) == tok@);
    }
    tok.to_owned()
}

/// Whether the bytes from `a` to `b` spell `new`.
fn token_is_new(text: &str, a: usize, b: usize) -> (r: bool)
    requires
        a <= b <= text.spec_bytes().len(),
    ensures
        r == (text.spec_bytes().subrange(a as int, b as int) == kw_new()),
{
    let ghost s = text.spec_bytes();
    let bytes = text.as_bytes();
    let r = b - a == 3 && bytes[a] == 0x6e && bytes[a + 1] == 0x65 && bytes[a + 2] == 0x77;
    proof {
        let sub = s.subrange(a as int, b as int);
        if r {
            assert(sub =~= kw_new());
        } else if sub == kw_new() {
            assert(sub.len() == 3);
            assert(s[a as int] == sub[0] && s[a + 1] == sub[1] && s[a + 2] == sub[2]);
            assert(false);
        }
    }
    r
}

/// Whether the bytes from `a` to `b` spell `Now`.
fn token_is_now(text: &str, a: usize, b: usize) -> (r: bool)
    requires
        a <= b <= text.spec_bytes().len(),
    ensures
        r == (text.spec_bytes().subrange(a as int, b as int) == kw_now()),
{
    let ghost s = text.spec_bytes();
    let bytes = text.as_bytes();
    let r = b - a == 3 && bytes[a] == 0x4e && bytes[a + 1] == 0x6f && bytes[a + 2] == 0x77;
    proof {
        let sub = s.subrange(a as int, b as int);
        if r {
            assert(sub =~= kw_now());
        } else if sub == kw_now() {
            assert(sub.len() == 3);
            assert(s[a as int] == sub[0] && s[a + 1] == sub[1] && s[a + 2] == sub[2]);
            assert(false);
        }
    }
    r
}

/// Whether the bytes from `a` to `b` spell `edit`.
fn token_is_edit(text: &str, a: usize, b: usize) -> (r: bool)
    requires
        a <= b <= text.spec_bytes().len(),
    ensures
        r == (text.spec_bytes().subrange(a as int, b as int) == kw_edit()),
{
    let ghost s = text.spec_bytes();
    let bytes = text.as_bytes();
    let r = b - a == 4 && bytes[a] == 0x65 && bytes[a + 1] == 0x64 && bytes[a + 2] == 0x69
        && bytes[a + 3] == 0x74;
    proof {
        let sub = s.subrange(a as int, b as int);
        if r {
            assert(sub =~= kw_edit());
        } else if sub == kw_edit() {
            assert(sub.len() == 4);
            assert(s[a as int] == sub[0] && s[a + 1] == sub[1] && s[a + 2] == sub[2] && s[a + 3]
                == sub[3]);
            assert(false);
        }
    }
    r
}

/// Whether the bytes from `a` to `b` spell `remove`.
fn token_is_remove(text: &str, a: usize, b: usize) -> (r: bool)
    requires
        a <= b <= text.spec_bytes().len(),
    ensures
        r == (text.spec_bytes().subrange(a as int, b as int) == kw_remove()),
{
    let ghost s = text.spec_bytes();
    let bytes = text.as_bytes();
    let r = b - a == 6 && bytes[a] == 0x72 && bytes[a + 1] == 0x65 && bytes[a + 2] == 0x6d
        && bytes[a + 3] == 0x6f && bytes[a + 4] == 0x76 && bytes[a + 5] == 0x65;
    proof {
        let sub = s.subrange(a as int, b as int);
        if r {
            assert(sub =~= kw_remove());
        } else if sub == kw_remove() {
            assert(sub.len() == 6);
            assert(s[a as int] == sub[0] && s[a + 1] == sub[1] && s[a + 2] == sub[2] && s[a + 3]
                == sub[3] && s[a + 4] == sub[4] && s[a + 5] == sub[5]);
            assert(false);
        }
    }
    r
}

/// `Line := Empty | AddLine | EditLine`, with the cursor at `i`: a
/// blank remainder is the empty instruction; a first token `new`
/// starts an addition; anything else is an identifier prefix starting
/// an edit.
pub open spec fn spec_line(s: Seq<u8>, i: int) -> Result<SpecProg, ErrView> {
    let p = skip_white(s, i);
    if p >= s.len() {
        Ok(SpecProg::Empty)
    } else if s.subrange(p, token_end(s, p)) == kw_new() {
        spec_addline(s, p)
    } else {
        spec_editline(s, p)
    }
}

/// The single-pass, left-to-right parser over one line of input.
pub struct Parser<'a> {
    text: &'a str,
    position: usize,
}

impl<'a> Parser<'a> {
    /// The bytes of the line.
    pub closed spec fn s(&self) -> Seq<u8> {
        self.text.spec_bytes()
    }

    /// The cursor, a byte offset into the line.
    pub closed spec fn pos(&self) -> int {
        self.position as int
    }

    /// The cursor always sits on a character boundary.
    pub open spec fn wf(&self) -> bool {
        is_char_boundary(self.s(), self.pos()) && self.pos() <= self.s().len()
    }

    pub fn new(text: &'a str) -> (r: Parser<'a>)
        ensures
            r.s() == text.spec_bytes(),
            r.pos() == 0,
            r.wf(),
    {
        proof {
            assert(text.spec_bytes() == encode_utf8(text@));
            assert(is_char_boundary(text.spec_bytes(), 0));
        }
        Parser { text, position: 0 }
    }

    /// The current cursor, as a byte offset.
    pub fn position(&self) -> (r: usize)
        ensures
            r as int == self.pos(),
    {
        self.position
    }

    /// Advances the cursor to the first non-whitespace character at or
    /// after the nearest boundary.
    pub fn skip_whitespace(&mut self)
        ensures
            final(self).s() == old(self).s(),
            final(self).pos() == skip_white(old(self).s(), old(self).pos()),
            final(self).wf(),
    {
        self.position = skip_white_from(self.text, self.position);
    }

    /// Parses `Time := Hour ":" Minute`.
    pub fn time(&mut self) -> (r: Result<Time, ParseError>)
        requires
            old(self).wf(),
        ensures
            final(self).s() == old(self).s(),
            final(self).wf(),
            match r {
                Ok(t) => spec_time(old(self).s(), old(self).pos()).0 == Ok::<Time, ErrView>(t)
                    && final(self).pos() == spec_time(old(self).s(), old(self).pos()).1,
                Err(e) => spec_time(old(self).s(), old(self).pos()).0 == Err::<Time, ErrView>(e@),
            },
    {
        let ghost s = self.s();
        proof {
            assert(s == encode_utf8(self.text@));
        }
        let n = self.text.as_bytes().len();
        let (he, hv) = scan_digits(self.text, self.position);
        if he == self.position {
            return Err(make_field_error(self.text, self.position));
        }
        if hv > 23 {
            return Err(ParseError { col: self.position, kind: TokenError::InvalidDue });
        }
        let bytes = self.text.as_bytes();
        if he >= n || bytes[he] != 0x3a {
            return Err(make_field_error(self.text, he));
        }
        proof {
            lemma_ascii_step(s, he as int);
        }
        let ms = he + 1;
        let me = token_end_from(self.text, ms);
        let (de, mv) = scan_digits(self.text, ms);
        if me == ms || de != me {
            return Err(ParseError { col: ms, kind: TokenError::InvalidDue });
        }
        if mv > 59 {
            return Err(ParseError { col: ms, kind: TokenError::InvalidDue });
        }
        self.position = me;
        Ok(Time { hour: hv as u32, minute: mv as u32 })
    }

    /// Parses `Date := Year "-" Month "-" Day`.
    pub fn date(&mut self) -> (r: Result<Date, ParseError>)
        requires
            old(self).wf(),
        ensures
            final(self).s() == old(self).s(),
            final(self).wf(),
            match r {
                Ok(d) => spec_date(old(self).s(), old(self).pos()).0 == Ok::<Date, ErrView>(d)
                    && final(self).pos() == spec_date(old(self).s(), old(self).pos()).1,
                Err(e) => spec_date(old(self).s(), old(self).pos()).0 == Err::<Date, ErrView>(e@),
            },
    {
        let ghost s = self.s();
        proof {
            assert(s == encode_utf8(self.text@));
        }
        let n = self.text.as_bytes().len();
        let (ye, yv) = scan_digits(self.text, self.position);
        if ye == self.position {
            return Err(make_field_error(self.text, self.position));
        }
        if yv > 262142 {
            return Err(ParseError { col: self.position, kind: TokenError::InvalidDue });
        }
        let bytes = self.text.as_bytes();
        if ye >= n || bytes[ye] != 0x2d {
            return Err(make_field_error(self.text, ye));
        }
        proof {
            lemma_ascii_step(s, ye as int);
        }
        let ms = ye + 1;
        let (me, mv) = scan_digits(self.text, ms);
        if me == ms {
            return Err(make_field_error(self.text, ms));
        }
        if mv < 1 || mv > 12 {
            return Err(ParseError { col: ms, kind: TokenError::InvalidDue });
        }
        if me >= n || bytes[me] != 0x2d {
            return Err(make_field_error(self.text, me));
        }
        proof {
            lemma_ascii_step(s, me as int);
        }
        let ds = me + 1;
        let dte = token_end_from(self.text, ds);
        let (dde, dv) = scan_digits(self.text, ds);
        if dte == ds || dde != dte {
            return Err(ParseError { col: ds, kind: TokenError::InvalidDue });
        }
        let leap = (yv % 4 == 0 && yv % 100 != 0) || yv % 400 == 0;
        let max_day: u64 = if mv == 2 {
            if leap {
                29
            } else {
                28
            }
        } else if mv == 4 || mv == 6 || mv == 9 || mv == 11 {
            30
        } else {
            31
        };
        if dv < 1 || dv > max_day {
            return Err(ParseError { col: ds, kind: TokenError::InvalidDue });
        }
        self.position = dte;
        Ok(Date { year: yv as i32, month: mv as u32, day: dv as u32 })
    }

    /// Parses `DateTime := "Now" | Date WS Time`; the exact token
    /// `Now` means an absent due instant.
    pub fn datetime(&mut self) -> (r: Result<Option<DateTime>, ParseError>)
        requires
            old(self).wf(),
        ensures
            final(self).s() == old(self).s(),
            final(self).wf(),
            match r {
                Ok(o) => spec_datetime(old(self).s(), old(self).pos()).0 == Ok::<
                    Option<DateTime>,
                    ErrView,
                >(o) && final(self).pos() == spec_datetime(old(self).s(), old(self).pos()).1,
                Err(e) => spec_datetime(old(self).s(), old(self).pos()).0 == Err::<
                    Option<DateTime>,
                    ErrView,
                >(e@),
            },
    {
        let ghost s = self.s();
        proof {
            assert(s == encode_utf8(self.text@));
        }
        let n = self.text.as_bytes().len();
        if self.position >= n {
            return Err(ParseError { col: self.position, kind: TokenError::UnexpectedEOF });
        }
        let te = token_end_from(self.text, self.position);
        if token_is_now(self.text, self.position, te) {
            proof {
                assert(s.subrange(self.pos(), te as int).len() == 3);
            }
            self.position = te;
            return Ok(None);
        }
        let date = match self.date() {
            Ok(d) => d,
            Err(e) => {
                return Err(e);
            },
        };
        self.skip_whitespace();
        let time = match self.time() {
            Ok(t) => t,
            Err(e) => {
                return Err(e);
            },
        };
        Ok(Some(DateTime { date, time }))
    }

    /// Parses `Name`: the remainder of the line, trimmed; it must be a
    /// valid task name.  Consumes the line.
    pub fn name(&mut self) -> (r: Result<TaskName, ParseError>)
        requires
            old(self).wf(),
        ensures
            final(self).s() == old(self).s(),
            final(self).wf(),
            match r {
                Ok(nm) => spec_name_at(old(self).s(), old(self).pos()) == Ok::<Seq<char>, ErrView>(
                    nm@,
                ) && final(self).pos() == old(self).s().len(),
                Err(e) => spec_name_at(old(self).s(), old(self).pos()) == Err::<Seq<char>, ErrView>(
                    e@,
                ),
            },
    {
        let ghost s = self.s();
        proof {
            assert(s == encode_utf8(self.text@));
        }
        self.skip_whitespace();
        let (_, rest) = self.text.split_at(self.position);
        proof {
            assert(rest.spec_bytes() =~= tail_from(s, self.pos()));
            assert(decode_utf8(encode_utf8(rest@)) == rest@);
        }
        match TaskName::new(rest) {
            None => Err(ParseError { col: self.position, kind: TokenError::InvalidTaskName }),
            Some(nm) => {
                let n = self.text.as_bytes().len();
                self.position = n;
                Ok(nm)
            },
        }
    }

    /// Reads the identifier prefix: the token up to the next
    /// whitespace.
    pub fn id(&mut self) -> (r: Result<String, ParseError>)
        requires
            old(self).wf(),
        ensures
            final(self).s() == old(self).s(),
            final(self).wf(),
            r matches Ok(st) && st@ == decode_utf8(
                old(self).s().subrange(
                    old(self).pos(),
                    token_end(old(self).s(), old(self).pos()),
                ),
            ) && final(self).pos() == token_end(old(self).s(), old(self).pos()),
    {
        let te = token_end_from(self.text, self.position);
        let st = substring_to_owned(self.text, self.position, te);
        self.position = te;
        Ok(st)
    }

    /// Parses `AddLine := "new" WS DateTime WS Name` with the cursor
    /// on the first token.
    pub fn add(&mut self) -> (r: Result<Program, ParseError>)
        requires
            old(self).wf(),
        ensures
            final(self).s() == old(self).s(),
            final(self).wf(),
            match spec_addline(old(self).s(), old(self).pos()) {
                Ok(sp) => r matches Ok(p) && program_matches(p@, sp) && final(self).pos() == old(
                    self,
                ).s().len(),
                Err(ev) => r matches Err(e) && e@ == ev,
            },
    {
        let ghost s = self.s();
        proof {
            assert(s == encode_utf8(self.text@));
        }
        let te = token_end_from(self.text, self.position);
        if !token_is_new(self.text, self.position, te) {
            return Err(make_field_error(self.text, self.position));
        }
        proof {
            assert(s.subrange(self.pos(), te as int).len() == 3);
        }
        self.position = te;
        self.skip_whitespace();
        let due = match self.datetime() {
            Ok(d) => d,
            Err(e) => {
                return Err(e);
            },
        };
        let name = match self.name() {
            Ok(nm) => nm,
            Err(e) => {
                return Err(e);
            },
        };
        Ok(Program::Add(Task::new(name).with_due(due)))
    }

    /// The tail of `EditLine` after the identifier prefix (and any
    /// action token): `WS DateTime WS Name`.
    fn edit_tail(&mut self, id: String) -> (r: Result<Program, ParseError>)
        requires
            old(self).wf(),
        ensures
            final(self).s() == old(self).s(),
            final(self).wf(),
            match spec_edit_tail(old(self).s(), id@, old(self).pos()) {
                Ok(sp) => r matches Ok(p) && program_matches(p@, sp) && final(self).pos() == old(
                    self,
                ).s().len(),
                Err(ev) => r matches Err(e) && e@ == ev,
            },
    {
        self.skip_whitespace();
        let due = match self.datetime() {
            Ok(d) => d,
            Err(e) => {
                return Err(e);
            },
        };
        let name = match self.name() {
            Ok(nm) => nm,
            Err(e) => {
                return Err(e);
            },
        };
        Ok(Program::Edit { id, name, due })
    }

    /// Parses `EditLine` with the cursor on the identifier prefix.  A
    /// failed action attempt consumes nothing: the date is re-parsed
    /// from just after the prefix.
    pub fn edit(&mut self) -> (r: Result<Program, ParseError>)
        requires
            old(self).wf(),
        ensures
            final(self).s() == old(self).s(),
            final(self).wf(),
            match spec_editline(old(self).s(), old(self).pos()) {
                Ok(sp) => r matches Ok(p) && program_matches(p@, sp) && final(self).pos() == old(
                    self,
                ).s().len(),
                Err(ev) => r matches Err(e) && e@ == ev,
            },
    {
        let ghost s = self.s();
        proof {
            assert(s == encode_utf8(self.text@));
        }
        let id_str = match self.id() {
            Ok(st) => st,
            Err(e) => {
                return Err(e);
            },
        };
        let j = self.position;
        let k = skip_white_from(self.text, j);
        let ke = token_end_from(self.text, k);
        if token_is_remove(self.text, k, ke) {
            let n = self.text.as_bytes().len();
            self.position = n;
            return Ok(Program::Remove(id_str));
        }
        if token_is_new(self.text, k, ke) {
            proof {
                assert(s.subrange(k as int, ke as int).len() == 3);
                assert(k < s.len());
            }
            return Err(make_field_error(self.text, k));
        }
        if token_is_edit(self.text, k, ke) {
            self.position = ke;
            return self.edit_tail(id_str);
        }
        self.position = j;
        self.edit_tail(id_str)
    }

    /// Dispatches one instruction: blank line, `AddLine` or
    /// `EditLine`.
    fn instruction(&mut self) -> (r: Result<Program, ParseError>)
        requires
            old(self).wf(),
        ensures
            final(self).s() == old(self).s(),
            final(self).wf(),
            match spec_line(old(self).s(), old(self).pos()) {
                Ok(sp) => r matches Ok(p) && program_matches(p@, sp) && final(self).pos() == old(
                    self,
                ).s().len(),
                Err(ev) => r matches Err(e) && e@ == ev,
            },
    {
        self.skip_whitespace();
        let n = self.text.as_bytes().len();
        if self.position >= n {
            return Ok(Program::Empty);
        }
        let te = token_end_from(self.text, self.position);
        if token_is_new(self.text, self.position, te) {
            self.add()
        } else {
            self.edit()
        }
    }

    /// Parses the line into exactly the instruction the grammar
    /// assigns to it, or the error of the first violated production,
    /// with its byte-offset column.
    pub fn parse(&mut self) -> (r: Result<Program, ParseError>)
        requires
            old(self).wf(),
        ensures
            final(self).s() == old(self).s(),
            final(self).wf(),
            match spec_line(old(self).s(), old(self).pos()) {
                Ok(sp) => r matches Ok(p) && program_matches(p@, sp),
                Err(ev) => r matches Err(e) && e@ == ev,
            },
    {
        let instruction = match self.instruction() {
            Ok(p) => p,
            Err(e) => {
                return Err(e);
            },
        };
        let n = self.text.as_bytes().len();
        if self.position < n {
            let b = ceil_char_boundary_at(self.text, self.position);
            let c = match char_and_width(self.text, b) {
                None => '\0',
                Some((c2, _)) => c2,
            };
            return Err(ParseError { col: self.position, kind: TokenError::ExpectedEOF(c) });
        }
        Ok(instruction)
    }
}

} // verus!
