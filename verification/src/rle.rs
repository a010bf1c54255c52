//! Run-length encoded patterns.
//!
//! A pattern is text in lines. A line whose first byte after leading blanks
//! is `#` is a comment. The first line that starts with `x` is the header,
//! `x = <width>, y = <height>`, with anything after the height left unread.
//! Every line that starts with none of `#`, `|`, `x` and `=` is data; the data
//! lines are read as one run of bytes. In the data, a number sets the run
//! count of the next tag, `o` is a run of live cells, `b` a run of dead ones,
//! `$` ends the row, `!` ends the pattern, and any other byte is passed over.
//! Rows run towards growing `y`.

use vstd::prelude::*;

verus! {

/// Why a pattern could not be read or placed.
#[derive(Debug, Clone, Copy, PartialEq, Eq, Structural)]
pub enum RleError {
    /// No line starts with `x`.
    MissingHeader,
    /// The header does not give a width and a height that fit in an `i32`.
    BadHeader,
    /// A run count or a coordinate does not fit in an `i32`.
    TooLarge,
    /// A cell lies where the frame cannot grow to, or the population would
    /// not fit in a `usize`.
    OutOfReach,
}

/// A pattern as read: the size that its header states, and its live cells
/// in the order in which the data gives them.
#[derive(Debug)]
pub struct Pattern {
    pub width: i32,
    pub height: i32,
    pub cells: Vec<(i32, i32)>,
}

/// A blank: a space, a tab, a line feed, a vertical tab, a form feed or a
/// carriage return.
pub open spec fn is_space(b: u8) -> bool {
    b == 32 || (9 <= b <= 13)
}

/// A decimal digit.
pub open spec fn is_digit(b: u8) -> bool {
    48 <= b <= 57
}

/// The end of the line that holds position `i`: the position of the next
/// line feed, or the end of the text.
pub open spec fn line_end(s: Seq<u8>, i: int) -> int
    decreases s.len() - i,
{
    if i < 0 || i >= s.len() || s[i] == 10 {
        i
    } else {
        line_end(s, i + 1)
    }
}

/// The first position from `i` on, before `e`, that holds no blank.
pub open spec fn skip_spaces(s: Seq<u8>, i: int, e: int) -> int
    decreases e - i,
{
    if i >= e || !is_space(s[i]) {
        i
    } else {
        skip_spaces(s, i + 1, e)
    }
}

/// The first position from `i` on, before `e`, that holds neither a blank
/// nor a comma.
pub open spec fn skip_separators(s: Seq<u8>, i: int, e: int) -> int
    decreases e - i,
{
    if i >= e || !(is_space(s[i]) || s[i] == 44) {
        i
    } else {
        skip_separators(s, i + 1, e)
    }
}

/// The first position from `i` on, before `e`, that holds no digit.
pub open spec fn digits_end(s: Seq<u8>, i: int, e: int) -> int
    decreases e - i,
{
    if i >= e || !is_digit(s[i]) {
        i
    } else {
        digits_end(s, i + 1, e)
    }
}

/// The value of the decimal digits from `i` to `e`.
pub open spec fn number(s: Seq<u8>, i: int, e: int) -> int
    decreases e - i,
{
    if i >= e {
        0
    } else {
        number(s, i, e - 1) * 10 + (s[e - 1] - 48)
    }
}

/// The first byte of the line from `i` to `e` after its leading blanks,
/// if it has one.
pub open spec fn line_head(s: Seq<u8>, i: int, e: int) -> Option<u8> {
    let k = skip_spaces(s, i, e);
    if k < e {
        Some(s[k])
    } else {
        None
    }
}

/// Whether the line from `i` to `e` is the header: it starts with `x`.
pub open spec fn is_header_line(s: Seq<u8>, i: int, e: int) -> bool {
    line_head(s, i, e) == Some(120u8)
}

/// Whether the line from `i` to `e` is data: it starts with none of `#`,
/// `|`, `x` and `=`.
pub open spec fn is_data_line(s: Seq<u8>, i: int, e: int) -> bool {
    match line_head(s, i, e) {
        Some(b) => b != 35 && b != 124 && b != 120 && b != 61,
        None => true,
    }
}

/// The start of the first header line among the lines from `i` on, or
/// `None` where there is none. `i` is the start of a line.
pub open spec fn header_start(s: Seq<u8>, i: int) -> Option<int>
    decreases s.len() - i,
{
    if i < 0 || i >= s.len() {
        None
    } else {
        let e = line_end(s, i);
        if is_header_line(s, i, e) {
            Some(i)
        } else if i <= e < s.len() {
            header_start(s, e + 1)
        } else {
            None
        }
    }
}

/// The data lines among the lines from `i` on, one after the other. `i` is
/// the start of a line.
pub open spec fn data_from(s: Seq<u8>, i: int) -> Seq<u8>
    decreases s.len() - i,
{
    if i < 0 || i >= s.len() {
        Seq::empty()
    } else {
        let e = line_end(s, i);
        let line = if is_data_line(s, i, e) {
            s.subrange(i, e)
        } else {
            Seq::empty()
        };
        if i <= e < s.len() {
            line + data_from(s, e + 1)
        } else {
            line
        }
    }
}

/// A number that starts at `i` in the line up to `e`: its value and the
/// position after it. `None` where no digit stands at `i` or the value does
/// not fit in an `i32`.
pub open spec fn number_at(s: Seq<u8>, i: int, e: int) -> Option<(int, int)> {
    let d = digits_end(s, i, e);
    if d > i && number(s, i, d) <= i32::MAX {
        Some((number(s, i, d), d))
    } else {
        None
    }
}

/// The key `key`, an equals sign and a number, with blanks between them at
/// will, from `i` on in the line up to `e`: the number and the position
/// after it.
pub open spec fn field_at(s: Seq<u8>, i: int, e: int, key: u8) -> Option<(int, int)> {
    if i < e && s[i] == key {
        let k = skip_spaces(s, i + 1, e);
        if k < e && s[k] == 61 {
            number_at(s, skip_spaces(s, k + 1, e), e)
        } else {
            None
        }
    } else {
        None
    }
}

/// The width and the height that the header line from `i` to `e` states.
pub open spec fn header_size(s: Seq<u8>, i: int, e: int) -> Option<(int, int)> {
    match field_at(s, skip_spaces(s, i, e), e, 120) {
        Some((w, k)) => match field_at(s, skip_separators(s, k, e), e, 121) {
            Some((h, _)) => Some((w, h)),
            None => None,
        },
        None => None,
    }
}

/// A run of `n` cells of row `y` from column `x` on.
pub open spec fn row(x: int, y: int, n: int) -> Seq<(int, int)> {
    Seq::new(n as nat, |k: int| (x + k, y))
}

/// The live cells that the data gives from position `i` on, at column `x`
/// of row `y`, with run count `run`; `in_number` tells whether the byte
/// before `i` was a digit of that count. `None` where a run count or a
/// coordinate outgrows an `i32`.
pub open spec fn scan(d: Seq<u8>, i: int, x: int, y: int, run: int, in_number: bool) -> Option<
    Seq<(int, int)>,
>
    decreases d.len() - i,
{
    if i < 0 || i >= d.len() {
        Some(Seq::empty())
    } else {
        let b = d[i];
        if is_digit(b) {
            let r = if in_number {
                run * 10 + (b - 48)
            } else {
                (b - 48) as int
            };
            if r > i32::MAX {
                None
            } else {
                scan(d, i + 1, x, y, r, true)
            }
        } else if b == 111 {
            if x + run > i32::MAX {
                None
            } else {
                match scan(d, i + 1, x + run, y, 1, false) {
                    Some(rest) => Some(row(x, y, run) + rest),
                    None => None,
                }
            }
        } else if b == 98 {
            if x + run > i32::MAX {
                None
            } else {
                scan(d, i + 1, x + run, y, 1, false)
            }
        } else if b == 36 {
            let dy = if run == 0 {
                1
            } else {
                run
            };
            if y + dy > i32::MAX {
                None
            } else {
                scan(d, i + 1, 0, y + dy, 1, false)
            }
        } else if b == 33 {
            Some(Seq::empty())
        } else {
            scan(d, i + 1, x, y, run, false)
        }
    }
}

/// What a text holds as a pattern: its width, its height and its live
/// cells, or the reason why it is none.
pub open spec fn pattern_of(s: Seq<u8>) -> Result<(int, int, Seq<(int, int)>), RleError> {
    match header_start(s, 0) {
        None => Err(RleError::MissingHeader),
        Some(i) => match header_size(s, i, line_end(s, i)) {
            None => Err(RleError::BadHeader),
            Some((w, h)) => match scan(data_from(s, 0), 0, 0, 0, 1, false) {
                None => Err(RleError::TooLarge),
                Some(cells) => Ok((w, h, cells)),
            },
        },
    }
}

/// The digits from `i` on end at or after `i`, before `e`, and only
/// digits stand before their end.
pub proof fn lemma_digits_end(s: Seq<u8>, i: int, e: int)
    requires
        i <= e,
    ensures
        i <= digits_end(s, i, e) <= e,
        forall|k: int| i <= k < digits_end(s, i, e) ==> is_digit(#[trigger] s[k]),
    decreases e - i,
{
    if i < e && is_digit(s[i]) {
        lemma_digits_end(s, i + 1, e);
    }
}

/// The value of a run of digits is no less than that of a shorter run
/// from the same start.
pub proof fn lemma_number_monotonic(s: Seq<u8>, i: int, a: int, b: int)
    requires
        i <= a <= b,
        forall|k: int| i <= k < b ==> is_digit(#[trigger] s[k]),
    ensures
        0 <= number(s, i, a) <= number(s, i, b),
    decreases b - i,
{
    if b > i {
        if a == b {
            lemma_number_monotonic(s, i, a - 1, b - 1);
        } else {
            lemma_number_monotonic(s, i, a, b - 1);
        }
        assert(is_digit(s[b - 1]));
    }
}

/// Finds the end of the line that holds `i`.
fn find_line_end(text: &[u8], i: usize) -> (e: usize)
    requires
        i <= text@.len(),
    ensures
        e == line_end(text@, i as int),
        i <= e <= text@.len(),
{
    let mut j: usize = i;
    while j < text.len() && text[j] != 10
        invariant
            i <= j <= text@.len(),
            line_end(text@, i as int) == line_end(text@, j as int),
        decreases text@.len() - j,
    {
        j = j + 1;
    }
    j
}

/// Passes over blanks.
fn skip_blank(text: &[u8], i: usize, e: usize) -> (k: usize)
    requires
        i <= e <= text@.len(),
    ensures
        k == skip_spaces(text@, i as int, e as int),
        i <= k <= e,
{
    let mut j: usize = i;
    while j < e && (text[j] == 32 || (9 <= text[j] && text[j] <= 13))
        invariant
            i <= j <= e <= text@.len(),
            skip_spaces(text@, i as int, e as int) == skip_spaces(text@, j as int, e as int),
        decreases e - j,
    {
        j = j + 1;
    }
    j
}

/// Passes over blanks and commas.
fn skip_sep(text: &[u8], i: usize, e: usize) -> (k: usize)
    requires
        i <= e <= text@.len(),
    ensures
        k == skip_separators(text@, i as int, e as int),
        i <= k <= e,
{
    let mut j: usize = i;
    while j < e && (text[j] == 32 || (9 <= text[j] && text[j] <= 13) || text[j] == 44)
        invariant
            i <= j <= e <= text@.len(),
            skip_separators(text@, i as int, e as int) == skip_separators(
                text@,
                j as int,
                e as int,
            ),
        decreases e - j,
    {
        j = j + 1;
    }
    j
}

/// Reads the number that starts at `i`.
fn read_number(text: &[u8], i: usize, e: usize) -> (r: Option<(i32, usize)>)
    requires
        i <= e <= text@.len(),
    ensures
        match r {
            Some((v, k)) => number_at(text@, i as int, e as int) == Some((v as int, k as int))
                && i < k <= e,
            None => number_at(text@, i as int, e as int) is None,
        },
{
    let ghost s = text@;
    let ghost d = digits_end(s, i as int, e as int);
    proof {
        lemma_digits_end(s, i as int, e as int);
    }
    let mut j: usize = i;
    let mut v: i64 = 0;
    while j < e && 48 <= text[j] && text[j] <= 57
        invariant
            i <= j <= e <= s.len(),
            s == text@,
            d == digits_end(s, i as int, e as int),
            d == digits_end(s, j as int, e as int),
            j <= d <= e,
            forall|k: int| i <= k < d ==> is_digit(#[trigger] s[k]),
            v == number(s, i as int, j as int),
            0 <= v <= i32::MAX,
        decreases e - j,
    {
        let digit: i64 = (text[j] - 48) as i64;
        let next: i64 = v * 10 + digit;
        proof {
            assert(number(s, i as int, j + 1) == next);
            lemma_digits_end(s, j + 1, e as int);
        }
        if next > i32::MAX as i64 {
            proof {
                lemma_number_monotonic(s, i as int, j + 1, d);
            }
            return None;
        }
        v = next;
        j = j + 1;
    }
    if j > i {
        Some((v as i32, j))
    } else {
        None
    }
}

/// Reads `key = <number>` at `i`.
fn read_field(text: &[u8], i: usize, e: usize, key: u8) -> (r: Option<(i32, usize)>)
    requires
        i <= e <= text@.len(),
    ensures
        match r {
            Some((v, k)) => field_at(text@, i as int, e as int, key) == Some((v as int, k as int))
                && i < k <= e,
            None => field_at(text@, i as int, e as int, key) is None,
        },
{
    if i < e && text[i] == key {
        let k = skip_blank(text, i + 1, e);
        if k < e && text[k] == 61 {
            let n = skip_blank(text, k + 1, e);
            read_number(text, n, e)
        } else {
            None
        }
    } else {
        None
    }
}

/// Reads the width and the height off the header line from `i` to `e`.
fn read_header(text: &[u8], i: usize, e: usize) -> (r: Option<(i32, i32)>)
    requires
        i <= e <= text@.len(),
    ensures
        match r {
            Some((w, h)) => header_size(text@, i as int, e as int) == Some((w as int, h as int)),
            None => header_size(text@, i as int, e as int) is None,
        },
{
    let start = skip_blank(text, i, e);
    match read_field(text, start, e, 120) {
        Some((w, k)) => {
            let next = skip_sep(text, k, e);
            match read_field(text, next, e, 121) {
                Some((h, _)) => Some((w, h)),
                None => None,
            }
        },
        None => None,
    }
}

/// Finds the start of the first header line.
fn find_header(text: &[u8]) -> (r: Option<usize>)
    ensures
        match r {
            Some(i) => header_start(text@, 0) == Some(i as int) && i < text@.len(),
            None => header_start(text@, 0) is None,
        },
{
    let mut i: usize = 0;
    while i < text.len()
        invariant
            i <= text@.len(),
            header_start(text@, 0) == header_start(text@, i as int),
        decreases text@.len() - i,
    {
        let e = find_line_end(text, i);
        let k = skip_blank(text, i, e);
        if k < e && text[k] == 120 {
            return Some(i);
        }
        if e < text.len() {
            i = e + 1;
        } else {
            return None;
        }
    }
    None
}

/// Collects the data lines, one after the other.
fn data_lines(text: &[u8]) -> (out: Vec<u8>)
    ensures
        out@ == data_from(text@, 0),
{
    let mut out: Vec<u8> = Vec::new();
    let mut i: usize = 0;
    while i < text.len()
        invariant
            i <= text@.len(),
            data_from(text@, 0) == out@ + data_from(text@, i as int),
        decreases text@.len() - i,
    {
        let e = find_line_end(text, i);
        let k = skip_blank(text, i, e);
        let ghost before = out@;
        if !(k < e && (text[k] == 35 || text[k] == 124 || text[k] == 120 || text[k] == 61)) {
            let mut j: usize = i;
            while j < e
                invariant
                    i <= j <= e <= text@.len(),
                    out@ == before + text@.subrange(i as int, j as int),
                decreases e - j,
            {
                out.push(text[j]);
                proof {
                    assert(text@.subrange(i as int, j + 1) == text@.subrange(
                        i as int,
                        j as int,
                    ).push(text@[j as int]));
                }
                j = j + 1;
            }
        } else {
            proof {
                assert(out@ == before + Seq::<u8>::empty());
            }
        }
        if e < text.len() {
            proof {
                let line = if is_data_line(text@, i as int, e as int) {
                    text@.subrange(i as int, e as int)
                } else {
                    Seq::empty()
                };
                assert(data_from(text@, i as int) == line + data_from(text@, e + 1));
                assert(out@ + data_from(text@, e + 1) == before + (line + data_from(
                    text@,
                    e + 1,
                )));
            }
            i = e + 1;
        } else {
            proof {
                assert(data_from(text@, text@.len() as int) == Seq::<u8>::empty());
                assert(out@ + Seq::<u8>::empty() == out@);
            }
            i = text.len();
        }
    }
    proof {
        assert(data_from(text@, i as int) == Seq::<u8>::empty());
        assert(out@ + Seq::<u8>::empty() == out@);
    }
    out
}

/// What is read so far, followed by what the rest of the data gives.
pub open spec fn followed_by(acc: Seq<(int, int)>, rest: Option<Seq<(int, int)>>) -> Option<
    Seq<(int, int)>,
> {
    match rest {
        Some(r) => Some(acc + r),
        None => None,
    }
}

/// Reads the live cells off the data.
fn read_cells(data: &Vec<u8>) -> (r: Option<Vec<(i32, i32)>>)
    ensures
        match r {
            Some(v) => scan(data@, 0, 0, 0, 1, false) == Some(crate::grid::points(v@)),
            None => scan(data@, 0, 0, 0, 1, false) is None,
        },
{
    let ghost full = scan(data@, 0, 0, 0, 1, false);
    let mut cells: Vec<(i32, i32)> = Vec::new();
    let mut x: i32 = 0;
    let mut y: i32 = 0;
    let mut run: i32 = 1;
    let mut in_number = false;
    let mut i: usize = 0;
    proof {
        assert(crate::grid::points(cells@) + scan(data@, 0, 0, 0, 1, false)->Some_0 =~= scan(
            data@,
            0,
            0,
            0,
            1,
            false,
        )->Some_0);
    }
    while i < data.len()
        invariant
            i <= data@.len(),
            0 <= x,
            0 <= y,
            0 <= run,
            full == scan(data@, 0, 0, 0, 1, false),
            full == followed_by(
                crate::grid::points(cells@),
                scan(data@, i as int, x as int, y as int, run as int, in_number),
            ),
        decreases data@.len() - i,
    {
        let b = data[i];
        let ghost acc = crate::grid::points(cells@);
        if 48 <= b && b <= 57 {
            let digit: i64 = (b - 48) as i64;
            let next: i64 = if in_number {
                run as i64 * 10 + digit
            } else {
                digit
            };
            if next > i32::MAX as i64 {
                return None;
            }
            run = next as i32;
            in_number = true;
        } else if b == 111 {
            if x as i64 + run as i64 > i32::MAX as i64 {
                return None;
            }
            let mut k: i32 = 0;
            while k < run
                invariant
                    0 <= k <= run,
                    x + run <= i32::MAX,
                    crate::grid::points(cells@) == acc + row(x as int, y as int, k as int),
                decreases run - k,
            {
                let ghost held = cells@;
                cells.push((x + k, y));
                proof {
                    assert(crate::grid::points(cells@) =~= crate::grid::points(held).push(
                        (x + k, y as int),
                    ));
                    assert(row(x as int, y as int, k + 1) =~= row(x as int, y as int, k as int).push(
                        (x + k, y as int),
                    ));
                    assert(crate::grid::points(cells@) =~= acc + row(
                        x as int,
                        y as int,
                        k + 1,
                    ));
                }
                k = k + 1;
            }
            proof {
                let rest = scan(data@, i + 1, x + run, y as int, 1, false);
                if rest is Some {
                    assert(crate::grid::points(cells@) + rest->Some_0 =~= acc + (row(
                        x as int,
                        y as int,
                        run as int,
                    ) + rest->Some_0));
                }
            }
            x = x + run;
            run = 1;
            in_number = false;
        } else if b == 98 {
            if x as i64 + run as i64 > i32::MAX as i64 {
                return None;
            }
            x = x + run;
            run = 1;
            in_number = false;
        } else if b == 36 {
            let dy: i32 = if run == 0 {
                1
            } else {
                run
            };
            if y as i64 + dy as i64 > i32::MAX as i64 {
                return None;
            }
            y = y + dy;
            x = 0;
            run = 1;
            in_number = false;
        } else if b == 33 {
            proof {
                assert(acc + Seq::<(int, int)>::empty() =~= acc);
            }
            return Some(cells);
        } else {
            in_number = false;
        }
        i = i + 1;
    }
    proof {
        assert(crate::grid::points(cells@) + Seq::<(int, int)>::empty() =~= crate::grid::points(
            cells@,
        ));
    }
    Some(cells)
}

/// Reads a pattern: finds and reads the header, then reads the cells off
/// the data lines.
pub fn parse_rle(text: &[u8]) -> (r: Result<Pattern, RleError>)
    ensures
        match r {
            Ok(p) => pattern_of(text@) == Ok::<(int, int, Seq<(int, int)>), RleError>(p@),
            Err(e) => pattern_of(text@) == Err::<(int, int, Seq<(int, int)>), RleError>(e),
        },
{
    let start = match find_header(text) {
        Some(i) => i,
        None => {
            return Err(RleError::MissingHeader);
        },
    };
    let end = find_line_end(text, start);
    let (width, height) = match read_header(text, start, end) {
        Some(size) => size,
        None => {
            return Err(RleError::BadHeader);
        },
    };
    let data = data_lines(text);
    match read_cells(&data) {
        Some(cells) => Ok(Pattern { width, height, cells }),
        None => Err(RleError::TooLarge),
    }
}

impl Pattern {
    /// The pattern as plain values: width, height and cells.
    pub open spec fn view(&self) -> (int, int, Seq<(int, int)>) {
        (self.width as int, self.height as int, crate::grid::points(self.cells@))
    }
}

} // verus!
