//! The text form of a puzzle, as a statement about bytes.
//!
//! A puzzle is written in thirteen lines of thirteen bytes each. The first,
//! fifth, ninth and thirteenth line are borders, `+---+---+---+`; the others
//! are rows, `|ccc|ccc|ccc|`, with one byte for each cell. A cell byte is a
//! digit from `1` to `9`, or one of the blanks: a space, `0`, `x`, `X`, `_`.
//! Every line but the last ends in a line break: a line feed, a carriage
//! return, or a carriage return followed by a line feed. What follows the
//! last border is not looked at.
//!
//! The text is read as a row of 181 items: thirteen bytes and a line break
//! for each of the first twelve lines, thirteen bytes for the last.

use super::number::{number_of, Number};
use vstd::prelude::*;

verus! {

/// The corner byte of a border, `+`.
pub const PLUS: u8 = 43;

/// The filling byte of a border, `-`.
pub const DASH: u8 = 45;

/// The byte between the boxes of a row, `|`.
pub const BAR: u8 = 124;

/// The line feed.
pub const LF: u8 = 10;

/// The carriage return.
pub const CR: u8 = 13;

/// The space, the first of the bytes that stand for an empty cell.
pub const SPACE: u8 = 32;

/// The digit zero, `0`.
pub const ZERO: u8 = 48;

/// The digit nine, `9`.
pub const NINE: u8 = 57;

/// The lower-case `x`.
pub const LOWER_X: u8 = 120;

/// The upper-case `X`.
pub const UPPER_X: u8 = 88;

/// The underscore, `_`.
pub const UNDERSCORE: u8 = 95;

/// Whether the item `k` is the line break at the end of its line.
pub open spec fn is_break_item(k: int) -> bool {
    k % 14 == 13
}

/// Whether the item `k` stands in a border line.
pub open spec fn in_border(k: int) -> bool {
    (k / 14) % 4 == 0
}

/// Whether the item `k` is the byte of a cell.
pub open spec fn is_cell_item(k: int) -> bool {
    !is_break_item(k) && !in_border(k) && (k % 14) % 4 != 0
}

/// The byte that the text must hold at an item that is neither a line break
/// nor a cell: `+` and `-` in a border, `|` in a row.
pub open spec fn frame_byte(k: int) -> u8 {
    if in_border(k) {
        if (k % 14) % 4 == 0 {
            PLUS
        } else {
            DASH
        }
    } else {
        BAR
    }
}

/// The cell, in row-major order, that the cell item `k` stands for.
pub open spec fn cell_of_item(k: int) -> int {
    let line = k / 14;
    let col = k % 14;
    (line - 1 - line / 4) * 9 + (col - 1 - col / 4)
}

/// The item that holds the byte of the cell `c`.
pub open spec fn item_of_cell(c: int) -> int {
    let row = c / 9;
    let col = c % 9;
    14 * (row + 1 + row / 3) + (col + 1 + col / 3)
}

/// How many cell items come before the item `k`.
pub open spec fn cells_before(k: int) -> int {
    let line = k / 14;
    let col = k % 14;
    9 * (line - (line + 3) / 4) + if in_border(k) {
        0
    } else {
        col - (col + 3) / 4
    }
}

/// Whether `b` stands for an empty cell: a space, `0`, `x`, `X` or `_`.
pub open spec fn is_blank_byte(b: u8) -> bool {
    b == SPACE || b == ZERO || b == LOWER_X || b == UPPER_X || b == UNDERSCORE
}

/// Whether `b` may stand in a cell: a blank, or a digit from `1` to `9`.
pub open spec fn is_cell_byte(b: u8) -> bool {
    is_blank_byte(b) || ZERO < b <= NINE
}

/// What the cell byte `b` stands for.
pub open spec fn cell_of_byte(b: u8) -> Number {
    if ZERO < b <= NINE {
        number_of(b - ZERO)
    } else {
        Number::Empty
    }
}

/// How many bytes the item `k` takes when it starts at `pos`: two for a
/// carriage return with a line feed behind it, one for everything else.
pub open spec fn item_width(s: Seq<u8>, k: int, pos: int) -> int {
    if is_break_item(k) && 0 <= pos && pos + 1 < s.len() && s[pos] == CR && s[pos + 1] == LF {
        2
    } else {
        1
    }
}

/// Whether the text holds what the item `k` asks for at `pos`.
pub open spec fn item_ok(s: Seq<u8>, k: int, pos: int) -> bool {
    &&& 0 <= pos < s.len()
    &&& if is_break_item(k) {
        s[pos] == CR || s[pos] == LF
    } else if is_cell_item(k) {
        is_cell_byte(s[pos])
    } else {
        s[pos] == frame_byte(k)
    }
}

/// Where the item `k` starts, given that the items before it take the
/// bytes that they take.
pub open spec fn item_pos(s: Seq<u8>, k: int) -> int
    decreases k,
{
    if k <= 0 {
        0
    } else {
        item_pos(s, k - 1) + item_width(s, k - 1, item_pos(s, k - 1))
    }
}

/// Whether the text holds what the item `k` asks for, at its place.
pub open spec fn item_fits(s: Seq<u8>, k: int) -> bool {
    item_ok(s, k, item_pos(s, k))
}

/// Whether the text holds what each of the first `k` items asks for.
pub open spec fn items_fit(s: Seq<u8>, k: int) -> bool {
    forall|j: int| 0 <= j < k ==> #[trigger] item_fits(s, j)
}

/// The first item from `k` on that the text does not hold, or 181 if it
/// holds them all.
pub open spec fn first_bad(s: Seq<u8>, k: int) -> int
    decreases 181 - k,
{
    if k >= 181 {
        181
    } else if !item_fits(s, k) {
        k
    } else {
        first_bad(s, k + 1)
    }
}

/// What is wrong at the place where reading stopped.
#[derive(Copy, Clone, Debug, PartialEq, Eq, Structural)]
pub enum ErrorKind {
    /// The text holds `found` where the frame of the grid asks for `needed`.
    Expected { found: u8, needed: u8 },
    /// A line ends without a line break.
    MissingNewline,
    /// A cell holds a byte that is neither a digit nor a blank.
    NotADigit,
    /// The text ends inside a line.
    UnexpectedEnd,
}

/// What is wrong with the item `k`, if the text does not hold it.
pub open spec fn kind_at(s: Seq<u8>, k: int) -> ErrorKind {
    let pos = item_pos(s, k);
    if is_break_item(k) {
        ErrorKind::MissingNewline
    } else if pos >= s.len() {
        ErrorKind::UnexpectedEnd
    } else if is_cell_item(k) {
        ErrorKind::NotADigit
    } else {
        ErrorKind::Expected { found: s[pos], needed: frame_byte(k) }
    }
}

/// Where and why reading stops at the item `k`.
pub struct Fault {
    /// The line of the item, counted from one.
    pub line_no: int,
    /// The place of the item in its line, counted from zero.
    pub col: int,
    /// The place of the item in the text, counted from zero.
    pub pos: int,
    /// What is wrong there.
    pub kind: ErrorKind,
}

/// The fault at the item `k`.
pub open spec fn fault_at(s: Seq<u8>, k: int) -> Fault {
    Fault { line_no: 1 + k / 14, col: k % 14, pos: item_pos(s, k), kind: kind_at(s, k) }
}

/// The cells that a text holds, in row-major order.
pub open spec fn cells_of_text(s: Seq<u8>) -> Seq<Number> {
    Seq::new(81, |c: int| cell_of_byte(s[item_pos(s, item_of_cell(c))]))
}

/// What reading a text gives: the cells of the puzzle if the text holds all
/// items, else the fault at the first item that it does not hold.
pub open spec fn text_outcome(s: Seq<u8>) -> Result<Seq<Number>, Fault> {
    let k = first_bad(s, 0);
    if k >= 181 {
        Ok(cells_of_text(s))
    } else {
        Err(fault_at(s, k))
    }
}

/// As long as the text holds every item before `k`, the first item that it
/// does not hold is found from `k` on.
pub proof fn lemma_first_bad_from(s: Seq<u8>, k: int)
    requires
        0 <= k <= 181,
        items_fit(s, k),
    ensures
        first_bad(s, 0) == first_bad(s, k),
    decreases k,
{
    if k > 0 {
        assert(item_fits(s, k - 1));
        lemma_first_bad_from(s, k - 1);
    }
}

/// The byte that a cell is written with: a space for an empty cell, the
/// digit for the others.
pub open spec fn byte_of_cell(n: Number) -> u8 {
    if n == Number::Empty {
        SPACE
    } else {
        (ZERO + n.digit()) as u8
    }
}

/// The byte at the place `q` of the text that the grid `g` is written as.
pub open spec fn render_byte(g: Seq<Number>, q: int) -> u8 {
    if is_break_item(q) {
        LF
    } else if is_cell_item(q) {
        byte_of_cell(g[cell_of_item(q)])
    } else {
        frame_byte(q)
    }
}

/// The text that the grid `g` is written as: thirteen lines, each of them
/// ended by a line feed.
pub open spec fn render_text(g: Seq<Number>) -> Seq<u8> {
    Seq::new(182, |q: int| render_byte(g, q))
}

/// The same text as characters.
pub open spec fn render_chars(g: Seq<Number>) -> Seq<char> {
    Seq::new(182, |q: int| render_byte(g, q) as char)
}

/// In the text that a grid is written as, every item takes one byte.
pub proof fn lemma_render_item_pos(g: Seq<Number>, k: int)
    requires
        0 <= k <= 181,
    ensures
        item_pos(render_text(g), k) == k,
    decreases k,
{
    if k > 0 {
        lemma_render_item_pos(g, k - 1);
    }
}

/// A cell is read as it was written.
pub proof fn lemma_byte_of_cell(n: Number)
    ensures
        is_cell_byte(byte_of_cell(n)),
        cell_of_byte(byte_of_cell(n)) == n,
        byte_of_cell(n) < 128,
{
}

/// The item of a cell is a cell item, and it stands for that cell.
pub proof fn lemma_item_of_cell(c: int)
    requires
        0 <= c < 81,
    ensures
        0 <= item_of_cell(c) < 181,
        is_cell_item(item_of_cell(c)),
        cell_of_item(item_of_cell(c)) == c,
{
}

/// The text that a grid is written as holds every item.
proof fn lemma_render_fits(g: Seq<Number>, k: int)
    requires
        g.len() == 81,
        0 <= k < 181,
    ensures
        item_fits(render_text(g), k),
{
    lemma_render_item_pos(g, k);
    let s = render_text(g);
    assert(s[k] == render_byte(g, k));
    if is_cell_item(k) {
        lemma_byte_of_cell(g[cell_of_item(k)]);
    }
}

/// Writing a grid and reading the text again gives the grid back.
pub proof fn lemma_read_what_was_written(g: Seq<Number>)
    requires
        g.len() == 81,
    ensures
        text_outcome(render_text(g)) == Ok::<Seq<Number>, Fault>(g),
{
    let s = render_text(g);
    assert forall|k: int| 0 <= k < 181 implies #[trigger] item_fits(s, k) by {
        lemma_render_fits(g, k);
    }
    lemma_first_bad_from(s, 181);
    assert forall|c: int| 0 <= c < 81 implies cells_of_text(s)[c] == g[c] by {
        let k = item_of_cell(c);
        lemma_item_of_cell(c);
        lemma_render_item_pos(g, k);
        assert(s[k] == render_byte(g, k));
        lemma_byte_of_cell(g[c]);
    }
    assert(cells_of_text(s) =~= g);
}

/// Every byte of the text of a grid is an ASCII byte.
proof fn lemma_render_byte_small(g: Seq<Number>, q: int)
    ensures
        render_byte(g, q) < 128,
        (render_byte(g, q) as char) as u8 == render_byte(g, q),
        '\0' <= render_byte(g, q) as char <= '\u{7f}',
{
    if is_cell_item(q) {
        lemma_byte_of_cell(g[cell_of_item(q)]);
    }
}

/// The text of a grid holds nothing but ASCII, so that its characters and
/// its bytes are the same.
pub proof fn lemma_render_is_ascii(g: Seq<Number>)
    requires
        g.len() == 81,
    ensures
        vstd::utf8::is_ascii_chars(render_chars(g)),
        vstd::utf8::encode_utf8(render_chars(g)) == render_text(g),
{
    let chars = render_chars(g);
    assert forall|i: int| 0 <= i < chars.len() implies '\0' <= #[trigger] chars[i] <= '\u{7f}' by {
        lemma_render_byte_small(g, i);
    }
    vstd::utf8::is_ascii_chars_encode_utf8(chars);
    assert forall|i: int| 0 <= i < 182 implies vstd::utf8::encode_utf8(chars)[i] == render_text(
        g,
    )[i] by {
        assert(chars[i] as u8 == vstd::utf8::encode_utf8(chars)[i]);
        lemma_render_byte_small(g, i);
    }
    assert(vstd::utf8::encode_utf8(chars) =~= render_text(g));
}

/// What a reader knows when it stands at the start of the item `k`, at the
/// byte `pos`, with `idx` cells read into `grid`: the text holds every item
/// before `k`, the cells read so far are those of the text, the others are
/// still empty, and `solved` says whether none of the cells read is empty.
pub open spec fn read_state(
    s: Seq<u8>,
    k: int,
    pos: int,
    idx: int,
    grid: Seq<Number>,
    solved: bool,
) -> bool {
    &&& 0 <= k <= 181
    &&& pos == item_pos(s, k)
    &&& pos <= s.len()
    &&& items_fit(s, k)
    &&& idx == cells_before(k)
    &&& grid.len() == 81
    &&& forall|c: int|
        0 <= c < idx ==> #[trigger] grid[c] == cell_of_byte(s[item_pos(s, item_of_cell(c))])
    &&& forall|c: int| idx <= c < 81 ==> #[trigger] grid[c] == Number::Empty
    &&& solved == (forall|c: int| 0 <= c < idx ==> #[trigger] grid[c] != Number::Empty)
}

/// How the count of cells goes on from one item to the next.
pub proof fn lemma_cells_before_step(k: int)
    requires
        0 <= k < 181,
    ensures
        0 <= cells_before(k) <= 81,
        is_cell_item(k) ==> cells_before(k + 1) == cells_before(k) + 1 && cells_before(k) < 81
            && item_of_cell(cells_before(k)) == k,
        !is_cell_item(k) ==> cells_before(k + 1) == cells_before(k),
{
}

/// Reading an item of the frame or a line break moves the reader on and
/// leaves the cells as they are.
pub proof fn lemma_read_frame(
    s: Seq<u8>,
    k: int,
    pos: int,
    idx: int,
    grid: Seq<Number>,
    solved: bool,
)
    requires
        read_state(s, k, pos, idx, grid, solved),
        k < 181,
        !is_cell_item(k),
        item_fits(s, k),
    ensures
        read_state(s, k + 1, pos + item_width(s, k, pos), idx, grid, solved),
{
    lemma_cells_before_step(k);
    assert forall|j: int| 0 <= j < k + 1 implies #[trigger] item_fits(s, j) by {}
    assert(item_pos(s, k + 1) == item_pos(s, k) + item_width(s, k, item_pos(s, k)));
}

/// Reading a cell moves the reader on by one byte and puts what the byte
/// stands for into the next cell.
pub proof fn lemma_read_cell(
    s: Seq<u8>,
    k: int,
    pos: int,
    idx: int,
    grid: Seq<Number>,
    solved: bool,
)
    requires
        read_state(s, k, pos, idx, grid, solved),
        k < 181,
        is_cell_item(k),
        item_fits(s, k),
    ensures
        idx < 81,
        read_state(
            s,
            k + 1,
            pos + 1,
            idx + 1,
            grid.update(idx, cell_of_byte(s[pos])),
            solved && cell_of_byte(s[pos]) != Number::Empty,
        ),
{
    lemma_cells_before_step(k);
    let n = cell_of_byte(s[pos]);
    let grid2 = grid.update(idx, n);
    assert forall|j: int| 0 <= j < k + 1 implies #[trigger] item_fits(s, j) by {}
    assert(item_pos(s, k + 1) == item_pos(s, k) + item_width(s, k, item_pos(s, k)));
    assert forall|c: int| 0 <= c < idx + 1 implies #[trigger] grid2[c] == cell_of_byte(
        s[item_pos(s, item_of_cell(c))],
    ) by {
        if c < idx {
            assert(grid[c] == cell_of_byte(s[item_pos(s, item_of_cell(c))]));
        }
    }
    if solved && n != Number::Empty {
        assert forall|c: int| 0 <= c < idx + 1 implies #[trigger] grid2[c] != Number::Empty by {
            if c < idx {
                assert(grid[c] != Number::Empty);
            }
        }
    } else if !solved {
        let c = choose|c: int| 0 <= c < idx && #[trigger] grid[c] == Number::Empty;
        assert(grid2[c] == Number::Empty);
    } else {
        assert(grid2[idx] == Number::Empty);
    }
}

} // verus!
