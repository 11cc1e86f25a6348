//! Pattern import: plaintext and run-length-encoded patterns placed on a
//! fresh dense board, anchored at the interior's top-left cell `(1, 1)`.
use vstd::prelude::*;
use crate::dense::{new_blank_board, set_cell, side_fits, DenseBoard};
use crate::rules::in_interior;

verus! {

pub const NEWLINE: u8 = 0x0a;

pub const COMMENT: u8 = 0x21;

pub const LIVE: u8 = 0x4f;

/// Index of the first byte of the line that holds byte `k`.
pub open spec fn line_start(s: Seq<u8>, k: int) -> int
    decreases k,
{
    if k <= 0 {
        0
    } else if s[k - 1] == NEWLINE {
        k
    } else {
        line_start(s, k - 1)
    }
}

/// A UTF-8 continuation byte, one that does not start a character.
pub open spec fn is_continuation(c: u8) -> bool {
    0x80 <= c <= 0xbf
}

/// Column of byte `k`: the number of characters between the start of its
/// line and it, each character counted at its first byte.
pub open spec fn col_of(s: Seq<u8>, k: int) -> int
    decreases k,
{
    if k <= 0 {
        0
    } else if s[k - 1] == NEWLINE {
        0
    } else if is_continuation(s[k - 1]) {
        col_of(s, k - 1)
    } else {
        col_of(s, k - 1) + 1
    }
}

/// Byte `k` lies on a comment line, one that begins with `!`.
pub open spec fn in_comment(s: Seq<u8>, k: int) -> bool {
    s[line_start(s, k)] == COMMENT
}

/// Row of byte `k`: the number of non-comment lines that end before it.
pub open spec fn row_of(s: Seq<u8>, k: int) -> int
    decreases k,
{
    if k <= 0 {
        0
    } else if s[k - 1] == NEWLINE && !in_comment(s, k - 1) {
        row_of(s, k - 1) + 1
    } else {
        row_of(s, k - 1)
    }
}

/// Byte `k` of a plaintext pattern is an `O` outside comments and lands at
/// board cell `(x, y)`.
pub open spec fn plaintext_hit(s: Seq<u8>, k: int, x: int, y: int) -> bool {
    &&& s[k] == LIVE
    &&& !in_comment(s, k)
    &&& x == col_of(s, k) + 1
    &&& y == row_of(s, k) + 1
}

/// The live cells of plaintext pattern `s` on an `n x n` interior: each `O`
/// of a non-comment line, columns counted in characters and rows in
/// non-comment lines from `(1, 1)`, with cells beyond the interior dropped.
pub open spec fn plaintext_cells(n: int, s: Seq<u8>) -> Set<(int, int)> {
    Set::new(
        |p: (int, int)|
            in_interior(n, p.0, p.1) && exists|k: int|
                0 <= k < s.len() && #[trigger] plaintext_hit(s, k, p.0, p.1),
    )
}

/// `b` is valid UTF-8.
pub uninterp spec fn utf8_valid(b: Seq<u8>) -> bool;

/// Relies on `std::str::from_utf8`: it succeeds exactly on valid UTF-8.
#[verifier::external_body]
fn is_utf8(b: &[u8]) -> (r: bool)
    ensures
        r == utf8_valid(b@),
{
    std::str::from_utf8(b).is_ok()
}

/// Reads a plaintext pattern onto a fresh board; text that is not valid
/// UTF-8 is refused.
pub fn import_plaintext(n: usize, bytes: &Vec<u8>) -> (r: Result<DenseBoard, DecodeError>)
    requires
        side_fits(n as int),
    ensures
        !utf8_valid(bytes@) ==> r == Err::<DenseBoard, DecodeError>(DecodeError::InvalidText),
        utf8_valid(bytes@) ==> (r matches Ok(b) && b.wf() && b.side() == n && b.live()
            == plaintext_cells(n as int, bytes@)),
{
    if is_utf8(bytes.as_slice()) {
        Ok(decode_plaintext(n, bytes))
    } else {
        Err(DecodeError::InvalidText)
    }
}

/// Reads plaintext pattern text onto a fresh board: `O` is live, any other
/// character dead, and a line beginning with `!` is a comment.
pub fn decode_plaintext(n: usize, bytes: &Vec<u8>) -> (r: DenseBoard)
    requires
        side_fits(n as int),
    ensures
        r.wf(),
        r.side() == n,
        r.live() == plaintext_cells(n as int, bytes@),
{
    let ghost s = bytes@;
    let mut board = new_blank_board(n);
    let mut col: usize = 0;
    let mut row: usize = 0;
    let mut ls: usize = 0;
    let mut comment = false;
    let mut i: usize = 0;
    while i < bytes.len()
        invariant
            s == bytes@,
            i <= s.len(),
            col <= i,
            row <= i,
            ls <= i,
            ls == line_start(s, i as int),
            col == col_of(s, i as int),
            row == row_of(s, i as int),
            ls < i ==> comment == (s[ls as int] == COMMENT),
            board.wf(),
            board.side() == n,
            forall|p: (int, int)|
                #[trigger] board.live().contains(p) == (in_interior(n as int, p.0, p.1) && exists|
                    k: int,
                | 0 <= k < i && #[trigger] plaintext_hit(s, k, p.0, p.1)),
        decreases s.len() - i,
    {
        let b = bytes[i];
        if ls == i {
            comment = b == COMMENT;
        }
        assert(comment == in_comment(s, i as int));
        let ghost before = board.live();
        if b == LIVE && !comment && col < n && row < n {
            set_cell(&mut board, col + 1, row + 1);
        }
        proof {
            assert forall|p: (int, int)|
                #[trigger] board.live().contains(p) == (in_interior(n as int, p.0, p.1) && exists|
                    k: int,
                | 0 <= k < i + 1 && #[trigger] plaintext_hit(s, k, p.0, p.1)) by {
                if plaintext_hit(s, i as int, p.0, p.1) {
                } else {
                    if exists|k: int| 0 <= k < i + 1 && #[trigger] plaintext_hit(s, k, p.0, p.1) {
                        let k = choose|k: int| 0 <= k < i + 1 && #[trigger] plaintext_hit(s, k, p.0, p.1);
                        assert(k < i);
                    }
                }
            }
        }
        if b == NEWLINE {
            if !comment {
                row += 1;
            }
            col = 0;
            ls = i + 1;
        } else if !(b >= 0x80 && b <= 0xbf) {
            col += 1;
        }
        i += 1;
    }
    assert(board.live() =~= plaintext_cells(n as int, s));
    board
}

/// A pattern could not be decoded.
#[derive(Clone, Copy, Debug, PartialEq, Eq, Structural)]
pub enum DecodeError {
    /// The plaintext input is not valid UTF-8.
    InvalidText,
    /// The run-length-encoded input is malformed.
    InvalidRle,
    /// The run-length-encoded input lies outside the limits within which
    /// the decoder's integer arithmetic cannot overflow.
    OutOfLimits,
}

/// Largest run count that the decoder is handed.
pub const MAX_RUN: u64 = 999_999_999;

/// Largest number of live cells that the decoder is asked to list.
pub const MAX_RLE_CELLS: u64 = 0x40_0000;

/// Largest input, in bytes, that the decoder is handed.
pub const MAX_RLE_LEN: u64 = 0x1_0000_0000;

pub open spec fn is_digit(c: u8) -> bool {
    0x30 <= c <= 0x39
}

pub open spec fn is_space(c: u8) -> bool {
    c == 0x20 || c == 0x09 || c == 0x0a || c == 0x0c || c == 0x0d
}

/// A byte that ends a run in a pattern line: `b . o $ !` or a state letter
/// `A`..`X`.
pub open spec fn ends_run(c: u8) -> bool {
    c == 0x62 || c == 0x2e || c == 0x6f || c == 0x24 || c == 0x21 || (0x41 <= c <= 0x58)
}

/// A byte that ends a run of live cells: `o` or a state letter `A`..`X`.
pub open spec fn live_state(c: u8) -> bool {
    c == 0x6f || (0x41 <= c <= 0x58)
}

/// The line starting at byte `ls` is one that the decoder skips: a comment
/// (`#`) or a header (`x ` or `x=`).
pub open spec fn skipped_line(s: Seq<u8>, ls: int) -> bool {
    s[ls] == 0x23 || (s[ls] == 0x78 && ls + 1 < s.len() && (s[ls + 1] == 0x20 || s[ls + 1]
        == 0x3d))
}

/// Byte `k` lies on a line that the decoder reads as a pattern line.
pub open spec fn on_pattern_line(s: Seq<u8>, k: int) -> bool {
    !skipped_line(s, line_start(s, k))
}

/// The run count pending before byte `k`: digits of pattern lines append to
/// it, a byte that ends a run clears it, and any other byte of a pattern
/// line that is not white space (a state prefix) makes a zero count one.
pub open spec fn run_value(s: Seq<u8>, k: int) -> int
    decreases k,
{
    if k <= 0 {
        0
    } else if !on_pattern_line(s, k - 1) || is_space(s[k - 1]) {
        run_value(s, k - 1)
    } else if is_digit(s[k - 1]) {
        run_value(s, k - 1) * 10 + (s[k - 1] - 0x30)
    } else if ends_run(s[k - 1]) {
        0
    } else if run_value(s, k - 1) == 0 {
        1
    } else {
        run_value(s, k - 1)
    }
}

/// Live cells listed by the runs that end before byte `k`.
pub open spec fn live_total(s: Seq<u8>, k: int) -> int
    decreases k,
{
    if k <= 0 {
        0
    } else if on_pattern_line(s, k - 1) && live_state(s[k - 1]) {
        live_total(s, k - 1) + if run_value(s, k - 1) == 0 {
            1
        } else {
            run_value(s, k - 1)
        }
    } else {
        live_total(s, k - 1)
    }
}

/// The state prefix `y` is pending before byte `k`: the last byte of a
/// pattern line before `k` that is neither a digit nor white space is `y`.
pub open spec fn y_pending(s: Seq<u8>, k: int) -> bool
    decreases k,
{
    if k <= 0 {
        false
    } else if !on_pattern_line(s, k - 1) || is_digit(s[k - 1]) || is_space(s[k - 1]) {
        y_pending(s, k - 1)
    } else {
        s[k - 1] == 0x79
    }
}

/// Byte `k` of a pattern line is a state `P`..`X` after the prefix `y`: a
/// state number past 255.
pub open spec fn state_too_large(s: Seq<u8>, k: int) -> bool {
    on_pattern_line(s, k) && 0x50 <= s[k] <= 0x58 && y_pending(s, k)
}

/// A line starting at byte `k` is a `#CXRLE` line.
pub open spec fn starts_cxrle(s: Seq<u8>, k: int) -> bool {
    &&& line_start(s, k) == k
    &&& k + 6 <= s.len()
    &&& s[k] == 0x23 && s[k + 1] == 0x43 && s[k + 2] == 0x58
    &&& s[k + 3] == 0x52 && s[k + 4] == 0x4c && s[k + 5] == 0x45
}

/// The input stays within the decoder's limits: it is at most `MAX_RLE_LEN`
/// bytes and no run count passes `MAX_RUN`, so that positions summed from
/// runs fit in an `i64`; the runs list at most `MAX_RLE_CELLS` live cells;
/// no state after the prefix `y` goes past 255; and there is no `#CXRLE`
/// line, whose offset could be any 64-bit value.
pub open spec fn rle_within_limits(s: Seq<u8>) -> bool {
    &&& s.len() <= MAX_RLE_LEN
    &&& forall|k: int| 0 <= k <= s.len() ==> #[trigger] run_value(s, k) <= MAX_RUN
    &&& forall|k: int| 0 <= k <= s.len() ==> #[trigger] live_total(s, k) <= MAX_RLE_CELLS
    &&& forall|k: int| 0 <= k < s.len() ==> !#[trigger] state_too_large(s, k)
    &&& forall|k: int| 0 <= k < s.len() ==> !#[trigger] starts_cxrle(s, k)
}

/// Whether `bytes` stays within the decoder's limits.
pub fn check_rle_limits(bytes: &Vec<u8>) -> (r: bool)
    ensures
        r == rle_within_limits(bytes@),
{
    let ghost s = bytes@;
    let len = bytes.len();
    if len as u64 > MAX_RLE_LEN {
        return false;
    }
    let mut ls: usize = 0;
    let mut pattern_line = true;
    let mut run: u64 = 0;
    let mut total: u64 = 0;
    let mut ypend = false;
    let mut i: usize = 0;
    while i < len
        invariant
            s == bytes@,
            len == s.len(),
            len <= MAX_RLE_LEN,
            i <= len,
            ls <= i,
            ls == line_start(s, i as int),
            ls < i ==> pattern_line == on_pattern_line(s, i as int),
            run == run_value(s, i as int),
            total == live_total(s, i as int),
            ypend == y_pending(s, i as int),
            forall|k: int| 0 <= k <= i ==> #[trigger] run_value(s, k) <= MAX_RUN,
            forall|k: int| 0 <= k <= i ==> #[trigger] live_total(s, k) <= MAX_RLE_CELLS,
            forall|k: int| 0 <= k < i ==> !#[trigger] state_too_large(s, k),
            forall|k: int| 0 <= k < i ==> !#[trigger] starts_cxrle(s, k),
        decreases len - i,
    {
        let c = bytes[i];
        if ls == i {
            pattern_line = !(c == 0x23 || (c == 0x78 && 1 < len - i && (bytes[i + 1] == 0x20
                || bytes[i + 1] == 0x3d)));
            if c == 0x23 && 6 <= len - i && bytes[i + 1] == 0x43 && bytes[i + 2] == 0x58
                && bytes[i + 3] == 0x52 && bytes[i + 4] == 0x4c && bytes[i + 5] == 0x45 {
                assert(starts_cxrle(s, i as int));
                return false;
            }
        }
        assert(pattern_line == on_pattern_line(s, i as int));
        assert(!starts_cxrle(s, i as int));
        if pattern_line && c >= 0x50 && c <= 0x58 && ypend {
            assert(state_too_large(s, i as int));
            return false;
        }
        let space = c == 0x20 || c == 0x09 || c == 0x0a || c == 0x0c || c == 0x0d;
        let digit = c >= 0x30 && c <= 0x39;
        if pattern_line && !space {
            if c == 0x6f || (c >= 0x41 && c <= 0x58) {
                total = total + if run == 0 {
                    1
                } else {
                    run
                };
                if total > MAX_RLE_CELLS {
                    assert(live_total(s, i + 1) > MAX_RLE_CELLS);
                    return false;
                }
            }
            if digit {
                run = run * 10 + (c - 0x30) as u64;
                if run > MAX_RUN {
                    assert(run_value(s, i + 1) > MAX_RUN);
                    return false;
                }
            } else if c == 0x62 || c == 0x2e || c == 0x6f || c == 0x24 || c == 0x21 || (c >= 0x41
                && c <= 0x58) {
                run = 0;
            } else if run == 0 {
                run = 1;
            }
            if !digit {
                ypend = c == 0x79;
            }
        }
        if c == NEWLINE {
            ls = i + 1;
        }
        i += 1;
    }
    true
}

/// The live-cell positions that the run-length decoder reads from `b`, or
/// `None` where it reports an error.
pub uninterp spec fn rle_positions(b: Seq<u8>) -> Option<Seq<(i64, i64)>>;

/// Relies on `ca_formats::rle::Rle`: `Rle::new` reads the header, and the
/// iterator yields each live cell's position or an error. It skips lines
/// that start with `#`, `x ` or `x=`. Within the limits its run counts,
/// positions and state numbers cannot overflow.
#[verifier::external_body]
fn decode_rle(bytes: &[u8]) -> (r: Option<Vec<(i64, i64)>>)
    requires
        rle_within_limits(bytes@),
    ensures
        match r {
            Some(v) => rle_positions(bytes@) == Some(v@),
            None => rle_positions(bytes@).is_none(),
        },
{
    let rle = ca_formats::rle::Rle::new(bytes).ok()?;
    rle.map(|c| c.map(|d| d.position)).collect::<Result<Vec<(i64, i64)>, _>>().ok()
}

/// Pattern position `cells[k]` lands at board cell `(x, y)`.
pub open spec fn placed_at(cells: Seq<(i64, i64)>, k: int, x: int, y: int) -> bool {
    cells[k].0 + 1 == x && cells[k].1 + 1 == y
}

/// The live cells of a pattern given by positions relative to its top-left
/// corner, offset by `(1, 1)`, with cells beyond the interior dropped.
pub open spec fn placed_cells(n: int, cells: Seq<(i64, i64)>) -> Set<(int, int)> {
    Set::new(
        |p: (int, int)|
            in_interior(n, p.0, p.1) && exists|k: int|
                0 <= k < cells.len() && #[trigger] placed_at(cells, k, p.0, p.1),
    )
}

/// A fresh board with the pattern positions `cells` made live, each offset by
/// `(1, 1)` into the interior; positions that fall outside are dropped.
pub fn place_cells(n: usize, cells: &Vec<(i64, i64)>) -> (r: DenseBoard)
    requires
        side_fits(n as int),
    ensures
        r.wf(),
        r.side() == n,
        r.live() == placed_cells(n as int, cells@),
{
    let ghost s = cells@;
    let mut board = new_blank_board(n);
    let mut i: usize = 0;
    while i < cells.len()
        invariant
            s == cells@,
            i <= s.len(),
            board.wf(),
            board.side() == n,
            forall|p: (int, int)|
                #[trigger] board.live().contains(p) == (in_interior(n as int, p.0, p.1) && exists|
                    k: int,
                | 0 <= k < i && #[trigger] placed_at(s, k, p.0, p.1)),
        decreases s.len() - i,
    {
        let (x, y) = cells[i];
        if x >= 0 && y >= 0 && (x as u64) < (n as u64) && (y as u64) < (n as u64) {
            set_cell(&mut board, x as usize + 1, y as usize + 1);
        }
        proof {
            assert forall|p: (int, int)|
                #[trigger] board.live().contains(p) == (in_interior(n as int, p.0, p.1) && exists|
                    k: int,
                | 0 <= k < i + 1 && #[trigger] placed_at(s, k, p.0, p.1)) by {
                if placed_at(s, i as int, p.0, p.1) {
                } else {
                    if exists|k: int| 0 <= k < i + 1 && #[trigger] placed_at(s, k, p.0, p.1) {
                        let k = choose|k: int| 0 <= k < i + 1 && #[trigger] placed_at(s, k, p.0, p.1);
                        assert(k < i);
                    }
                }
            }
        }
        i += 1;
    }
    assert(board.live() =~= placed_cells(n as int, s));
    board
}

/// Reads a run-length-encoded pattern onto a fresh board, each decoded
/// position offset by `(1, 1)`; fails exactly where the decoder reports an
/// error.
pub fn import_rle(n: usize, bytes: &Vec<u8>) -> (r: Result<DenseBoard, DecodeError>)
    requires
        side_fits(n as int),
    ensures
        !rle_within_limits(bytes@) ==> r == Err::<DenseBoard, DecodeError>(DecodeError::OutOfLimits),
        rle_within_limits(bytes@) ==> match rle_positions(bytes@) {
            None => r == Err::<DenseBoard, DecodeError>(DecodeError::InvalidRle),
            Some(cells) => r matches Ok(b) && b.wf() && b.side() == n && b.live() == placed_cells(
                n as int,
                cells,
            ),
        },
{
    if !check_rle_limits(bytes) {
        return Err(DecodeError::OutOfLimits);
    }
    match decode_rle(bytes.as_slice()) {
        Some(cells) => Ok(place_cells(n, &cells)),
        None => Err(DecodeError::InvalidRle),
    }
}

/// Replaces `board` by the run-length-encoded pattern in `bytes`, on a board
/// of the same size. On a decode error the board is left unchanged.
pub fn load_rle(board: &mut DenseBoard, bytes: &Vec<u8>) -> (r: Result<(), DecodeError>)
    requires
        old(board).wf(),
    ensures
        !rle_within_limits(bytes@) ==> r == Err::<(), DecodeError>(DecodeError::OutOfLimits)
            && *final(board) == *old(board),
        rle_within_limits(bytes@) ==> match rle_positions(bytes@) {
            None => r == Err::<(), DecodeError>(DecodeError::InvalidRle) && *final(board)
                == *old(board),
            Some(cells) => r == Ok::<(), DecodeError>(()) && final(board).wf() && final(board).side()
                == old(board).side() && final(board).live() == placed_cells(old(board).side(), cells),
        },
{
    let n = board.size();
    proof {
        board.lemma_wf_fits();
    }
    match import_rle(n, bytes) {
        Ok(b) => {
            *board = b;
            Ok(())
        },
        Err(e) => Err(e),
    }
}

} // verus!
