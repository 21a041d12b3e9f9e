//! Column and cell layout for rendering tasks as text lines.

use vstd::prelude::*;

use crate::task::{id_hex_bytes, DateTime, Task, TaskView};

verus! {

broadcast use vstd::utf8::encode_utf8_valid_utf8, vstd::utf8::encode_utf8_decode_utf8;

use vstd::std_specs::iter::IteratorSpec;
use vstd::string::{StringExecFns, StringSliceAdditionalSpecFns};
use vstd::utf8::{decode_utf8, encode_scalar, encode_utf8, is_char_boundary};

/// Whether a cell takes part in the line at all.
#[derive(Debug, Clone, Copy, PartialEq, Eq, Structural)]
pub enum Visibility {
    Visible,
    Hidden,
}

/// The width policy of a cell: padded to at least the given number of
/// characters, or truncated to at most that many bytes and padded up
/// to it.
#[derive(Debug, Clone, Copy, PartialEq, Eq, Structural)]
pub enum Size {
    Min(usize),
    Max(usize),
}

/// Blank space kept around a cell's text.
#[derive(Debug, Clone, Copy, PartialEq, Eq, Structural)]
pub struct Margin {
    pub left: usize,
    pub right: usize,
}

impl Margin {
    pub fn new(left: usize, right: usize) -> (r: Margin)
        ensures
            r == (Margin { left, right }),
    {
        Margin { left, right }
    }
}

impl Default for Margin {
    fn default() -> (r: Margin)
        ensures
            r == (Margin { left: 0, right: 0 }),
    {
        Margin { left: 0, right: 0 }
    }
}

/// The mathematical value of a cell.
pub struct CellView {
    pub content: Seq<char>,
    pub visibility: Visibility,
    pub margin: Margin,
    pub size: Size,
}

/// One slot of a rendered line: its text and how to lay it out.
#[derive(Debug)]
pub struct Cell {
    content: String,
    visibility: Visibility,
    margin: Margin,
    size: Size,
}

impl View for Cell {
    type V = CellView;

    closed spec fn view(&self) -> CellView {
        CellView {
            content: self.content@,
            visibility: self.visibility,
            margin: self.margin,
            size: self.size,
        }
    }
}

impl Clone for Cell {
    fn clone(&self) -> (r: Self)
        ensures
            r@ == self@,
    {
        Cell {
            content: self.content.clone(),
            visibility: self.visibility,
            margin: self.margin,
            size: self.size,
        }
    }
}

impl Cell {
    /// A visible cell with the given text, no margin and no minimum
    /// width.
    pub fn new(content: String) -> (r: Cell)
        ensures
            r@ == (CellView {
                content: content@,
                visibility: Visibility::Visible,
                margin: Margin { left: 0, right: 0 },
                size: Size::Min(0),
            }),
    {
        Cell {
            content,
            visibility: Visibility::Visible,
            margin: Margin { left: 0, right: 0 },
            size: Size::Min(0),
        }
    }

    pub fn visibility(&self) -> (r: Visibility)
        ensures
            r == self@.visibility,
    {
        self.visibility
    }

    pub fn with_visibility(self, visibility: Visibility) -> (r: Cell)
        ensures
            r@ == (CellView { visibility, ..self@ }),
    {
        Cell { visibility, ..self }
    }

    pub fn with_margin(self, margin: Margin) -> (r: Cell)
        ensures
            r@ == (CellView { margin, ..self@ }),
    {
        Cell { margin, ..self }
    }

    pub fn with_size(self, size: Size) -> (r: Cell)
        ensures
            r@ == (CellView { size, ..self@ }),
    {
        Cell { size, ..self }
    }

    pub fn with_content(self, content: String) -> (r: Cell)
        ensures
            r@ == (CellView { content: content@, ..self@ }),
    {
        Cell { content, ..self }
    }

    pub fn content(&self) -> (r: &str)
        ensures
            r@ == self@.content,
    {
        self.content.as_str()
    }
}

impl Default for Cell {
    fn default() -> (r: Cell)
        ensures
            r@ == (CellView {
                content: Seq::empty(),
                visibility: Visibility::Visible,
                margin: Margin { left: 0, right: 0 },
                size: Size::Min(0),
            }),
    {
        Cell {
            content: String::new(),
            visibility: Visibility::Visible,
            margin: Margin { left: 0, right: 0 },
            size: Size::Min(0),
        }
    }
}

/// `n` spaces.
pub open spec fn spaces(n: int) -> Seq<char> {
    Seq::new(
        if n < 0 {
            0
        } else {
            n as nat
        },
        |i: int| ' ',
    )
}

/// `s` padded on the right with spaces to at least `w` characters.
pub open spec fn pad_to(s: Seq<char>, w: int) -> Seq<char> {
    s + spaces(w - s.len())
}

/// `content` cut to its first `x` bytes, when `x` lands on a character
/// boundary within it; the whole text otherwise.
pub open spec fn truncated(content: Seq<char>, x: int) -> Seq<char> {
    let bytes = encode_utf8(content);
    if x <= bytes.len() && is_char_boundary(bytes, x) {
        decode_utf8(bytes.take(x))
    } else {
        content
    }
}

/// What a cell prints: nothing when hidden; otherwise its text —
/// truncated under a `Max` policy — padded to the policy width and
/// wrapped in its margins.
pub open spec fn spec_render_cell(c: CellView) -> Seq<char> {
    match c.visibility {
        Visibility::Hidden => Seq::empty(),
        Visibility::Visible => {
            let body = match c.size {
                Size::Min(x) => pad_to(c.content, x as int),
                Size::Max(x) => pad_to(truncated(c.content, x as int), x as int),
            };
            spaces(c.margin.left as int) + body + spaces(c.margin.right as int)
        },
    }
}

/// A UTF-8 encoding is at least as long as the character sequence it
/// encodes.
proof fn lemma_encode_len(chars: Seq<char>)
    ensures
        encode_utf8(chars).len() >= chars.len(),
    decreases chars.len(),
{
    if chars.len() > 0 {
        lemma_encode_len(chars.drop_first());
        vstd::utf8::char_is_scalar(chars[0]);
        assert(encode_scalar(chars[0] as u32).len() >= 1);
    }
}

/// The number of characters in a slice.
fn char_count(s: &str) -> (r: usize)
    ensures
        r == s@.len(),
{
    broadcast use vstd::string::axiom_spec_iter, vstd::string::next_postcondition;

    proof {
        assert(s.spec_bytes() == encode_utf8(s@));
        lemma_encode_len(s@);
    }
    let n = s.as_bytes().len();
    let mut it = s.chars();
    let mut count: usize = 0;
    loop
        invariant
            n == s.spec_bytes().len(),
            s@.len() <= n,
            it.remaining() == s@.skip(count as int),
            count <= s@.len(),
        decreases s@.len() - count,
    {
        match it.next() {
            None => {
                proof {
                    assert(s@.skip(count as int).len() == 0);
                }
                return count;
            },
            Some(_) => {
                proof {
                    assert(s@.skip(count as int).drop_first() =~= s@.skip(count + 1));
                }
                count += 1;
            },
        }
    }
}

/// Appends `n` spaces.
fn push_spaces(s: &mut String, n: usize)
    ensures
        final(s)@ == old(s)@ + spaces(n as int),
{
    let mut i: usize = 0;
    proof {
        reveal_strlit(" ");
        assert(s@ + spaces(0) =~= s@);
    }
    while i < n
        invariant
            i <= n,
            s@ == old(s)@ + spaces(i as int),
        decreases n - i,
    {
        s.append(" ");
        proof {
            reveal_strlit(" ");
            assert(" "@ =~= seq![' ']);
            assert(old(s)@ + spaces(i + 1) =~= (old(s)@ + spaces(i as int)) + seq![' ']);
        }
        i += 1;
    }
}

/// Renders one cell as its printed text.
pub fn render_cell(c: &Cell) -> (r: String)
    ensures
        r@ == spec_render_cell(c@),
{
    let mut out = String::new();
    match c.visibility() {
        Visibility::Hidden => {
            proof {
                assert(out@ =~= spec_render_cell(c@));
            }
            out
        },
        Visibility::Visible => {
            let margin = c.margin;
            let size = c.size;
            push_spaces(&mut out, margin.left);
            let content = c.content();
            proof {
                assert(content.spec_bytes() == encode_utf8(content@));
            }
            let clen = char_count(content);
            let width: usize = match size {
                Size::Min(x) => {
                    out.append(content);
                    x
                },
                Size::Max(x) => {
                    let bytes_len = content.as_bytes().len();
                    if x <= bytes_len && content.is_char_boundary(x) {
                        let (head, _) = content.split_at(x);
                        proof {
                            assert(head.spec_bytes() =~= encode_utf8(content@).take(x as int));
                            assert(decode_utf8(encode_utf8(head@)) == head@);
                        }
                        out.append(head);
                    } else {
                        out.append(content);
                    }
                    x
                },
            };
            let body_len = match size {
                Size::Min(_) => clen,
                Size::Max(x) => {
                    let bytes_len = content.as_bytes().len();
                    if x <= bytes_len && content.is_char_boundary(x) {
                        let (head, _) = content.split_at(x);
                        proof {
                            assert(head.spec_bytes() =~= encode_utf8(content@).take(x as int));
                            assert(decode_utf8(encode_utf8(head@)) == head@);
                        }
                        char_count(head)
                    } else {
                        clen
                    }
                },
            };
            if body_len < width {
                push_spaces(&mut out, width - body_len);
            }
            push_spaces(&mut out, margin.right);
            proof {
                let body = match c@.size {
                    Size::Min(x) => pad_to(c@.content, x as int),
                    Size::Max(x) => pad_to(truncated(c@.content, x as int), x as int),
                };
                assert(out@ =~= spaces(c@.margin.left as int) + body + spaces(
                    c@.margin.right as int,
                ));
            }
            out
        },
    }
}

/// Ten to the `k`.
pub open spec fn pow10(k: int) -> int
    decreases k,
{
    if k <= 0 {
        1
    } else {
        10 * pow10(k - 1)
    }
}

/// The `w` decimal digit bytes of `v`, zero-padded, most significant
/// first.
pub open spec fn dec_fixed_bytes(v: int, w: int) -> Seq<u8>
    decreases w,
{
    if w <= 0 {
        Seq::empty()
    } else {
        dec_fixed_bytes(v / 10, w - 1).push((0x30 + (v % 10)) as u8)
    }
}

proof fn lemma_dec_len(v: int, w: int)
    ensures
        dec_fixed_bytes(v, w).len() == if w <= 0 {
            0int
        } else {
            w
        },
    decreases w,
{
    if w > 0 {
        lemma_dec_len(v / 10, w - 1);
    }
}

proof fn lemma_pow10_pos(k: int)
    ensures
        pow10(k) >= 1,
    decreases k,
{
    if k > 0 {
        lemma_pow10_pos(k - 1);
    }
}

proof fn lemma_dec_index(v: int, w: int, j: int)
    requires
        v >= 0,
        0 <= j < w,
    ensures
        dec_fixed_bytes(v, w).len() == w,
        dec_fixed_bytes(v, w)[j] == (0x30 + ((v / pow10(w - 1 - j)) % 10)) as u8,
    decreases w,
{
    lemma_pow10_pos(w - 1 - j);
    if j == w - 1 {
        if w > 1 {
            lemma_dec_index(v / 10, w - 1, w - 2);
        }
    } else {
        lemma_dec_index(v / 10, w - 1, j);
        lemma_pow10_pos(w - 2 - j);
        vstd::arithmetic::div_mod::lemma_div_denominator(v, 10, pow10(w - 2 - j));
        assert(10 * pow10(w - 2 - j) == pow10(w - 1 - j));
    }
}

/// Appends the `w`-digit zero-padded decimal rendering of `v`, where
/// `p` is ten to the `w - 1`.
fn push_dec(out: &mut Vec<u8>, v: u64, w: usize, p: u64)
    requires
        p as int == pow10(w as int - 1),
        w >= 1,
    ensures
        final(out)@ == old(out)@ + dec_fixed_bytes(v as int, w as int),
{
    let ghost target = dec_fixed_bytes(v as int, w as int);
    proof {
        lemma_dec_index(v as int, w as int, 0);
    }
    let mut p2 = p;
    let mut j: usize = 0;
    while j < w
        invariant
            j <= w,
            target == dec_fixed_bytes(v as int, w as int),
            target.len() == w,
            j < w ==> p2 as int == pow10(w as int - 1 - j),
            out@.len() == old(out)@.len() + j,
            forall|k: int| 0 <= k < old(out)@.len() ==> out@[k] == old(out)@[k],
            forall|k: int| 0 <= k < j ==> out@[old(out)@.len() + k] == target[k],
        decreases w - j,
    {
        proof {
            lemma_dec_index(v as int, w as int, j as int);
            lemma_pow10_pos(w as int - 1 - j);
        }
        let d = (v / p2) % 10;
        out.push(0x30 + (d as u8));
        if j + 1 < w {
            proof {
                assert(pow10(w as int - 1 - j) == 10 * pow10(w as int - 2 - j));
                lemma_pow10_pos(w as int - 2 - j);
            }
            p2 = p2 / 10;
        }
        j += 1;
    }
    proof {
        assert(out@ =~= old(out)@ + target);
    }
}

/// Every byte is in the ASCII range.
pub open spec fn all_ascii(s: Seq<u8>) -> bool {
    forall|k: int| 0 <= k < s.len() ==> s[k] < 0x80
}

proof fn lemma_ascii_concat(a: Seq<u8>, b: Seq<u8>)
    requires
        all_ascii(a),
        all_ascii(b),
    ensures
        all_ascii(a + b),
{
    assert forall|k: int| 0 <= k < (a + b).len() implies (a + b)[k] < 0x80 by {
        if k < a.len() {
            assert((a + b)[k] == a[k]);
        } else {
            assert((a + b)[k] == b[k - a.len()]);
        }
    }
}

/// The printed form of a due instant: `YYYY-MM-DD HH:MM` as bytes,
/// with the year shown in four to six digits as its size requires and
/// signed when negative.
pub open spec fn date_time_bytes(dt: DateTime) -> Seq<u8> {
    let y = dt.date.year as int;
    let ybytes = if y < 0 {
        seq![0x2du8] + dec_fixed_bytes(-y, year_width(-y))
    } else {
        dec_fixed_bytes(y, year_width(y))
    };
    ybytes + seq![0x2du8] + dec_fixed_bytes(dt.date.month as int, 2) + seq![0x2du8]
        + dec_fixed_bytes(dt.date.day as int, 2) + seq![0x20u8] + dec_fixed_bytes(
        dt.time.hour as int,
        2,
    ) + seq![0x3au8] + dec_fixed_bytes(dt.time.minute as int, 2)
}

/// How many digits the year prints: at least four, more when needed.
pub open spec fn year_width(y: int) -> int {
    if y >= 100000 {
        6
    } else if y >= 10000 {
        5
    } else {
        4
    }
}

/// The printed form of an optional due instant, as characters:
/// `Now` when absent.
pub open spec fn spec_due_text(due: Option<DateTime>) -> Seq<char> {
    match due {
        None => seq!['N', 'o', 'w'],
        Some(dt) => date_time_bytes(dt).map_values(|b: u8| b as char),
    }
}

/// Digit runs are ASCII.
proof fn lemma_dec_ascii(v: int, w: int)
    requires
        v >= 0,
    ensures
        all_ascii(dec_fixed_bytes(v, w)),
    decreases w,
{
    if w > 0 {
        lemma_dec_ascii(v / 10, w - 1);
        lemma_dec_len(v, w);
        lemma_dec_len(v / 10, w - 1);
        assert forall|k: int| 0 <= k < dec_fixed_bytes(v, w).len() implies dec_fixed_bytes(v, w)[k]
            < 0x80 by {
            if k < w - 1 {
                assert(dec_fixed_bytes(v, w)[k] == dec_fixed_bytes(v / 10, w - 1)[k]);
            }
        }
    }
}

/// Renders an optional due instant as its printed text.
pub fn due_text(due: Option<DateTime>) -> (r: String)
    ensures
        r@ == spec_due_text(due),
{
    match due {
        None => {
            let s = "Now".to_owned();
            proof {
                reveal_strlit("Now");
                assert(s@ =~= seq!['N', 'o', 'w']);
            }
            s
        },
        Some(dt) => {
            proof {
                reveal_with_fuel(pow10, 7);
            }
            let mut out: Vec<u8> = Vec::new();
            let y = dt.date.year;
            let ghost ya: int = if y < 0 {
                -(y as int)
            } else {
                y as int
            };
            if y < 0 {
                out.push(0x2d);
                proof {
                    assert(out@ =~= seq![0x2du8]);
                }
            }
            let a: u64 = if y < 0 {
                if y == i32::MIN {
                    2147483648u64
                } else {
                    (0 - y) as u64
                }
            } else {
                y as u64
            };
            if a >= 100000 {
                push_dec(&mut out, a, 6, 100000);
            } else if a >= 10000 {
                push_dec(&mut out, a, 5, 10000);
            } else {
                push_dec(&mut out, a, 4, 1000);
            }
            let ghost ybytes = if dt.date.year < 0 {
                seq![0x2du8] + dec_fixed_bytes(ya, year_width(ya))
            } else {
                dec_fixed_bytes(ya, year_width(ya))
            };
            proof {
                assert(out@ =~= ybytes);
            }
            out.push(0x2d);
            push_dec(&mut out, dt.date.month as u64, 2, 10);
            out.push(0x2d);
            push_dec(&mut out, dt.date.day as u64, 2, 10);
            out.push(0x20);
            push_dec(&mut out, dt.time.hour as u64, 2, 10);
            out.push(0x3a);
            push_dec(&mut out, dt.time.minute as u64, 2, 10);
            proof {
                assert(out@ =~= date_time_bytes(dt));
                lemma_dec_ascii(ya, year_width(ya));
                lemma_dec_ascii(dt.date.month as int, 2);
                lemma_dec_ascii(dt.date.day as int, 2);
                lemma_dec_ascii(dt.time.hour as int, 2);
                lemma_dec_ascii(dt.time.minute as int, 2);
                assert(all_ascii(seq![0x2du8]));
                assert(all_ascii(seq![0x20u8]));
                assert(all_ascii(seq![0x3au8]));
                lemma_ascii_concat(seq![0x2du8], dec_fixed_bytes(ya, year_width(ya)));
                assert(all_ascii(ybytes));
                lemma_ascii_concat(ybytes, seq![0x2du8]);
                lemma_ascii_concat(ybytes + seq![0x2du8], dec_fixed_bytes(dt.date.month as int, 2));
                let p1 = ybytes + seq![0x2du8] + dec_fixed_bytes(dt.date.month as int, 2);
                lemma_ascii_concat(p1, seq![0x2du8]);
                lemma_ascii_concat(p1 + seq![0x2du8], dec_fixed_bytes(dt.date.day as int, 2));
                let p2 = p1 + seq![0x2du8] + dec_fixed_bytes(dt.date.day as int, 2);
                lemma_ascii_concat(p2, seq![0x20u8]);
                lemma_ascii_concat(p2 + seq![0x20u8], dec_fixed_bytes(dt.time.hour as int, 2));
                let p3 = p2 + seq![0x20u8] + dec_fixed_bytes(dt.time.hour as int, 2);
                lemma_ascii_concat(p3, seq![0x3au8]);
                lemma_ascii_concat(p3 + seq![0x3au8], dec_fixed_bytes(dt.time.minute as int, 2));
                assert(all_ascii(date_time_bytes(dt)));
            }
            crate::task::ascii_to_string(out)
        },
    }
}

/// The printable fields of a task.
#[derive(Debug, Clone, Copy, PartialEq, Eq, Hash, Structural)]
pub enum Field {
    Id,
    Name,
    Time,
}

/// A column: the prototype cell every entry of that column is built
/// from.
#[derive(Debug)]
pub struct Column {
    cell: Cell,
}

impl View for Column {
    type V = CellView;

    closed spec fn view(&self) -> CellView {
        self.cell@
    }
}

impl Clone for Column {
    fn clone(&self) -> (r: Self)
        ensures
            r@ == self@,
    {
        Column { cell: self.cell.clone() }
    }
}

impl Column {
    /// A new column using `cell` as the prototype.
    pub fn new(cell: Cell) -> (r: Column)
        ensures
            r@ == cell@,
    {
        Column { cell }
    }

    /// A copy of the prototype cell.
    pub fn cell(&self) -> (r: Cell)
        ensures
            r@ == self@,
    {
        self.cell.clone()
    }
}

/// The columns a formatter was configured with, as mathematical
/// values.
pub struct ColumnsView {
    pub id: Option<CellView>,
    pub name: Option<CellView>,
    pub time: Option<CellView>,
}

/// The configured prototype for a field, or the default cell.
pub open spec fn col_or_default(c: Option<CellView>) -> CellView {
    match c {
        Some(v) => v,
        None => CellView {
            content: Seq::empty(),
            visibility: Visibility::Visible,
            margin: Margin { left: 0, right: 0 },
            size: Size::Min(0),
        },
    }
}

/// The hexadecimal identifier, as characters.
pub open spec fn id_hex_chars(id: u128) -> Seq<char> {
    id_hex_bytes(id).map_values(|b: u8| b as char)
}

/// The foreground escape for high-intensity red.
pub open spec fn fg_light_red_seq() -> Seq<char> {
    seq!['\u{1b}', '[', '3', '8', ';', '5', ';', '9', 'm']
}

/// The foreground reset escape.
pub open spec fn fg_reset_seq() -> Seq<char> {
    seq!['\u{1b}', '[', '3', '9', 'm']
}

/// Relies on termion's `color::LightRed::fg_str`: the constant ANSI
/// escape sequence selecting high-intensity red.
#[verifier::external_body]
fn fg_light_red() -> (r: &'static str)
    ensures
        r@ == fg_light_red_seq(),
{
    termion::color::LightRed.fg_str()
}

/// Relies on termion's `color::Reset::fg_str`: the constant ANSI
/// escape sequence restoring the default foreground.
#[verifier::external_body]
fn fg_reset() -> (r: &'static str)
    ensures
        r@ == fg_reset_seq(),
{
    termion::color::Reset.fg_str()
}

/// Renders one task as a text line.
pub trait TaskFormatter {
    /// The line this formatter assigns to a task.
    spec fn spec_format(&self, t: TaskView) -> Seq<char>;

    fn format(&self, task: &Task) -> (r: String)
        ensures
            r@ == self.spec_format(task@),
    ;
}

/// The line of the "due today" view: the identifier cell, then the
/// due instant in high-intensity red, a `: ` separator and the name.
pub open spec fn spec_format_today(f: ColumnsView, t: TaskView) -> Seq<char> {
    let idcell = CellView { content: id_hex_chars(t.id), ..col_or_default(f.id) };
    spec_render_cell(idcell) + fg_light_red_seq() + spec_due_text(t.due) + fg_reset_seq() + seq![
        ':',
        ' ',
    ] + t.name
}

/// The line of the full listing: identifier, due instant and name
/// cells, each laid out by its configured column.
pub open spec fn spec_format_list(f: ColumnsView, t: TaskView) -> Seq<char> {
    let idcell = CellView { content: id_hex_chars(t.id), ..col_or_default(f.id) };
    let timecell = CellView { content: spec_due_text(t.due), ..col_or_default(f.time) };
    let namecell = CellView { content: t.name, ..col_or_default(f.name) };
    spec_render_cell(idcell) + spec_render_cell(timecell) + spec_render_cell(namecell)
}

/// The formatter of the "due today" view.
#[derive(Debug)]
pub struct TodayFormatter {
    id: Option<Column>,
    name: Option<Column>,
    time: Option<Column>,
}

/// The formatter of the full listing.
#[derive(Debug)]
pub struct ListFormatter {
    id: Option<Column>,
    name: Option<Column>,
    time: Option<Column>,
}

/// The view of a field-to-column assignment.
pub open spec fn columns_view(
    id: Option<Column>,
    name: Option<Column>,
    time: Option<Column>,
) -> ColumnsView {
    ColumnsView {
        id: match id {
            Some(c) => Some(c@),
            None => None,
        },
        name: match name {
            Some(c) => Some(c@),
            None => None,
        },
        time: match time {
            Some(c) => Some(c@),
            None => None,
        },
    }
}

impl View for TodayFormatter {
    type V = ColumnsView;

    closed spec fn view(&self) -> ColumnsView {
        columns_view(self.id, self.name, self.time)
    }
}

impl View for ListFormatter {
    type V = ColumnsView;

    closed spec fn view(&self) -> ColumnsView {
        columns_view(self.id, self.name, self.time)
    }
}

impl TodayFormatter {
    pub fn new() -> (r: TodayFormatter)
        ensures
            r@ == (ColumnsView { id: None, name: None, time: None }),
    {
        TodayFormatter { id: None, name: None, time: None }
    }

    /// The column configured for `field`, if any.
    pub fn column(&self, field: Field) -> (r: Option<&Column>)
        ensures
            match field {
                Field::Id => r matches Some(c) && Some(c@) == self@.id || r is None && self@.id
                    is None,
                Field::Name => r matches Some(c) && Some(c@) == self@.name || r is None
                    && self@.name is None,
                Field::Time => r matches Some(c) && Some(c@) == self@.time || r is None
                    && self@.time is None,
            },
    {
        match field {
            Field::Id => self.id.as_ref(),
            Field::Name => self.name.as_ref(),
            Field::Time => self.time.as_ref(),
        }
    }

    /// Assigns the column prototype for `field`.
    pub fn insert(&mut self, field: Field, column: Column)
        ensures
            field == Field::Id ==> final(self)@ == (ColumnsView {
                id: Some(column@),
                ..old(self)@
            }),
            field == Field::Name ==> final(self)@ == (ColumnsView {
                name: Some(column@),
                ..old(self)@
            }),
            field == Field::Time ==> final(self)@ == (ColumnsView {
                time: Some(column@),
                ..old(self)@
            }),
    {
        match field {
            Field::Id => {
                self.id = Some(column);
            },
            Field::Name => {
                self.name = Some(column);
            },
            Field::Time => {
                self.time = Some(column);
            },
        }
    }
}

impl Default for TodayFormatter {
    fn default() -> (r: TodayFormatter)
        ensures
            r@ == (ColumnsView { id: None, name: None, time: None }),
    {
        TodayFormatter::new()
    }
}

impl TaskFormatter for TodayFormatter {
    open spec fn spec_format(&self, t: TaskView) -> Seq<char> {
        spec_format_today(self@, t)
    }

    fn format(&self, task: &Task) -> (r: String) {
        let idcol: Cell = match &self.id {
            Some(col) => col.cell(),
            None => Cell::default(),
        };
        let idcell = idcol.with_content(task.id().to_hex());
        let mut out = render_cell(&idcell);
        out.append(fg_light_red());
        let ts = due_text(task.due());
        out.append(ts.as_str());
        out.append(fg_reset());
        let sep = ": ";
        proof {
            reveal_strlit(": ");
            assert(sep@ =~= seq![':', ' ']);
        }
        out.append(sep);
        out.append(task.name());
        proof {
            assert(out@ =~= spec_format_today(self@, task@));
        }
        out
    }
}

impl ListFormatter {
    pub fn new() -> (r: ListFormatter)
        ensures
            r@ == (ColumnsView { id: None, name: None, time: None }),
    {
        ListFormatter { id: None, name: None, time: None }
    }

    /// The column configured for `field`, if any.
    pub fn column(&self, field: Field) -> (r: Option<&Column>)
        ensures
            match field {
                Field::Id => r matches Some(c) && Some(c@) == self@.id || r is None && self@.id
                    is None,
                Field::Name => r matches Some(c) && Some(c@) == self@.name || r is None
                    && self@.name is None,
                Field::Time => r matches Some(c) && Some(c@) == self@.time || r is None
                    && self@.time is None,
            },
    {
        match field {
            Field::Id => self.id.as_ref(),
            Field::Name => self.name.as_ref(),
            Field::Time => self.time.as_ref(),
        }
    }

    /// Assigns the column prototype for `field`.
    pub fn insert(&mut self, field: Field, column: Column)
        ensures
            field == Field::Id ==> final(self)@ == (ColumnsView {
                id: Some(column@),
                ..old(self)@
            }),
            field == Field::Name ==> final(self)@ == (ColumnsView {
                name: Some(column@),
                ..old(self)@
            }),
            field == Field::Time ==> final(self)@ == (ColumnsView {
                time: Some(column@),
                ..old(self)@
            }),
    {
        match field {
            Field::Id => {
                self.id = Some(column);
            },
            Field::Name => {
                self.name = Some(column);
            },
            Field::Time => {
                self.time = Some(column);
            },
        }
    }
}

impl Default for ListFormatter {
    fn default() -> (r: ListFormatter)
        ensures
            r@ == (ColumnsView { id: None, name: None, time: None }),
    {
        ListFormatter::new()
    }
}

impl TaskFormatter for ListFormatter {
    open spec fn spec_format(&self, t: TaskView) -> Seq<char> {
        spec_format_list(self@, t)
    }

    fn format(&self, task: &Task) -> (r: String) {
        let idcol: Cell = match &self.id {
            Some(col) => col.cell(),
            None => Cell::default(),
        };
        let idcell = idcol.with_content(task.id().to_hex());
        let timecol: Cell = match &self.time {
            Some(col) => col.cell(),
            None => Cell::default(),
        };
        let timecell = timecol.with_content(due_text(task.due()));
        let namecol: Cell = match &self.name {
            Some(col) => col.cell(),
            None => Cell::default(),
        };
        let namecell = namecol.with_content(task.name().to_owned());
        let mut out = render_cell(&idcell);
        let t2 = render_cell(&timecell);
        out.append(t2.as_str());
        let n2 = render_cell(&namecell);
        out.append(n2.as_str());
        proof {
            assert(out@ =~= spec_format_list(self@, task@));
        }
        out
    }
}

} // verus!
