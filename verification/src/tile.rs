//! Tiles: an id and a square matrix of bits, and the text they are read from.
use crate::error::InputFault;
use crate::grid::{rectangular, Bitmap};
use crate::manipulation::Manipulation;
use crate::text::{all_digits, chars_of, decimal_value, read_decimal};
use vstd::prelude::*;

verus! {

/// The number that names a tile.
#[derive(Debug, Clone, Copy, PartialEq, Eq, Hash, Structural)]
pub struct TileId {
    pub val: i32,
}

impl TileId {
    /// The id with the value `n`.
    pub fn from(n: i32) -> (r: TileId)
        ensures
            r.val == n,
    {
        TileId { val: n }
    }
}

/// A square bitmap with an id.
pub struct Tile {
    pub id: TileId,
    pub d: Bitmap,
}

/// Whether every cell of `rows` is 0 or 1.
pub open spec fn binary(rows: Seq<Seq<u8>>) -> bool {
    forall|i: int, j: int|
        0 <= i < rows.len() && 0 <= j < rows[i].len() ==> (#[trigger] rows[i][j]) <= 1
}

/// The value of a cell that is written as `c`: 1 for `#`, 0 for `.`, and 2
/// for anything else.
pub open spec fn decode_cell(c: char) -> u8 {
    if c == '#' {
        1
    } else if c == '.' {
        0
    } else {
        2
    }
}

/// The index of the first line feed of `s` at or after `from`, or the length
/// of `s` if there is none.
pub open spec fn line_end(s: Seq<char>, from: int) -> int
    decreases s.len() - from,
{
    if from >= s.len() {
        s.len() as int
    } else if s[from] == '\n' {
        from
    } else {
        line_end(s, from + 1)
    }
}

/// Whether `line` is a header: `Tile `, at least one decimal digit, a colon,
/// with a number that fits in `i32`.
pub open spec fn is_header(line: Seq<char>) -> bool {
    &&& line.len() >= 7
    &&& line.subrange(0, 5) == seq!['T', 'i', 'l', 'e', ' ']
    &&& line.last() == ':'
    &&& all_digits(line.subrange(5, line.len() - 1))
    &&& decimal_value(line.subrange(5, line.len() - 1)) <= i32::MAX
}

/// The id that a header gives.
pub open spec fn header_id(line: Seq<char>) -> int {
    decimal_value(line.subrange(5, line.len() - 1)) as int
}

/// Whether the text after a header of length `h` is `n` lines of `n`
/// characters, each line begun by a line feed, with no line feed elsewhere.
/// The square must be small enough to be held in memory.
pub open spec fn is_square(s: Seq<char>, h: int, n: int) -> bool {
    &&& n >= 1
    &&& n * n <= isize::MAX
    &&& s.len() == h + n * (n + 1)
    &&& forall|r: int| 0 <= r < n ==> #[trigger] s[h + r * (n + 1)] == '\n'
    &&& forall|r: int, c: int|
        0 <= r < n && 0 <= c < n ==> #[trigger] s[h + r * (n + 1) + 1 + c] != '\n'
}

/// The cell in row `r` and column `c` of a tile text with a header of length
/// `h` and `n` rows.
pub open spec fn text_cell(s: Seq<char>, h: int, n: int, r: int, c: int) -> char {
    s[h + r * (n + 1) + 1 + c]
}

/// The matrix that a well-shaped tile text holds.
pub open spec fn text_rows(s: Seq<char>, h: int, n: int) -> Seq<Seq<u8>> {
    Seq::new(n as nat, |r: int| Seq::new(n as nat, |c: int| decode_cell(text_cell(s, h, n, r, c))))
}

/// The size of the square that the first line after the header suggests: the
/// length of that line.
pub open spec fn suggested_size(s: Seq<char>, h: int) -> int {
    line_end(s, h + 1) - h - 1
}

/// What is wrong with the text of a tile, if anything.  A bad header is
/// reported before a bad shape, and a bad shape before a bad cell.
pub open spec fn text_fault(s: Seq<char>) -> Option<InputFault> {
    let h = line_end(s, 0);
    let n = suggested_size(s, h);
    if !is_header(s.subrange(0, h)) {
        Some(InputFault::BadHeader)
    } else if !is_square(s, h, n) {
        Some(InputFault::NotSquare)
    } else if !binary(text_rows(s, h, n)) {
        Some(InputFault::BadCharacter)
    } else {
        None
    }
}

/// The value of the cell in row `r` and column `c` of a tile whose rows are
/// `width` characters wide and separated by one character, in the characters
/// `s` that follow the header line.
pub fn decode_ascii_tile(r: usize, c: usize, width: usize, s: &Vec<char>) -> (v: u8)
    requires
        width < usize::MAX,
        (width + 1) * r + c < s.len(),
    ensures
        v == decode_cell(s[(width + 1) * r + c]),
{
    assert((width + 1) * r <= (width + 1) * r + c);
    let pos: usize = (width + 1) * r + c;
    let ch = s[pos];
    if ch == '#' {
        1
    } else if ch == '.' {
        0
    } else {
        2
    }
}

/// The characters of `s` from the index `from` on.
fn tail_of(s: &Vec<char>, from: usize) -> (r: Vec<char>)
    requires
        from <= s.len(),
    ensures
        r@ == s@.subrange(from as int, s.len() as int),
{
    let mut out: Vec<char> = Vec::new();
    let mut i: usize = from;
    while i < s.len()
        invariant
            from <= i <= s.len(),
            out@ == s@.subrange(from as int, i as int),
        decreases s.len() - i,
    {
        out.push(s[i]);
        assert(out@ =~= s@.subrange(from as int, i + 1));
        i += 1;
    }
    out
}

/// Finds the end of the line that starts at `from`.
fn find_line_end(s: &Vec<char>, from: usize) -> (r: usize)
    ensures
        r == line_end(s@, from as int),
        from <= s.len() ==> from <= r <= s.len(),
        from <= r < s.len() ==> s[r as int] == '\n',
        forall|k: int| from <= k < r && k < s.len() ==> s[k] != '\n',
{
    let mut i: usize = from;
    while i < s.len() && s[i] != '\n'
        invariant
            from <= i,
            from <= s.len() ==> i <= s.len(),
            line_end(s@, from as int) == line_end(s@, i as int),
            forall|k: int| from <= k < i && k < s.len() ==> s[k] != '\n',
        decreases s.len() - i,
    {
        i += 1;
    }
    if i > s.len() {
        s.len()
    } else {
        i
    }
}

/// Reads the id from the header line `s[0..h]`, if it is one.
fn read_header(s: &Vec<char>, h: usize) -> (r: Option<i32>)
    requires
        h <= s.len(),
    ensures
        r is Some <==> is_header(s@.subrange(0, h as int)),
        r matches Some(id) ==> id == header_id(s@.subrange(0, h as int)),
{
    let ghost line = s@.subrange(0, h as int);
    if h < 7 {
        return None;
    }
    if s[0] != 'T' || s[1] != 'i' || s[2] != 'l' || s[3] != 'e' || s[4] != ' ' {
        assert(line.subrange(0, 5)[0] == s[0] && line.subrange(0, 5)[1] == s[1] && line.subrange(
            0,
            5,
        )[2] == s[2] && line.subrange(0, 5)[3] == s[3] && line.subrange(0, 5)[4] == s[4]);
        return None;
    }
    assert(line.subrange(0, 5) =~= seq!['T', 'i', 'l', 'e', ' ']);
    if s[h - 1] != ':' {
        return None;
    }
    assert(line.subrange(5, line.len() - 1) =~= s@.subrange(5, h - 1));
    match read_decimal(s, 5, h - 1, 0x7fff_ffff) {
        Some(v) => Some(v as i32),
        None => None,
    }
}

impl Tile {
    /// The number of rows, which is also the number of columns.
    pub open spec fn size(&self) -> nat {
        self.d.height()
    }

    /// A tile is a square of bits with at least one row.
    pub open spec fn wf(&self) -> bool {
        &&& self.d.wf()
        &&& self.d.height() == self.d.width()
        &&& 1 <= self.d.height() <= isize::MAX
        &&& binary(self.d@)
    }

    /// Reads a tile from its text: a header line `Tile <id>:` and, for a tile
    /// of size `n`, `n` lines of `n` characters `#` (1) or `.` (0).  Lines
    /// are separated by one line feed and the last line has none.
    pub fn from_string(s: &str) -> (r: Result<Tile, InputFault>)
        ensures
            r is Ok <==> text_fault(s@) is None,
            r matches Err(e) ==> text_fault(s@) == Some(e),
            r matches Ok(t) ==> {
                &&& t.wf()
                &&& t.id.val == header_id(s@.subrange(0, line_end(s@, 0)))
                &&& t.size() == suggested_size(s@, line_end(s@, 0))
                &&& t.d@ == text_rows(s@, line_end(s@, 0), suggested_size(s@, line_end(s@, 0)))
            },
    {
        let chars = chars_of(s);
        let h = find_line_end(&chars, 0);
        let id = match read_header(&chars, h) {
            Some(id) => id,
            None => {
                return Err(InputFault::BadHeader);
            },
        };
        if h >= chars.len() {
            assert(line_end(chars@, h + 1) == chars.len()) by {
                reveal_with_fuel(line_end, 2);
            }
            return Err(InputFault::NotSquare);
        }
        let first_end = find_line_end(&chars, h + 1);
        let n: usize = first_end - h - 1;
        let ghost hh = h as int;
        let ghost nn = n as int;
        if n < 1 || (chars.len() - h) / (n + 1) != n || (chars.len() - h) % (n + 1) != 0 {
            proof {
                if nn >= 1 && is_square(chars@, hh, nn) {
                    vstd::arithmetic::div_mod::lemma_fundamental_div_mod_converse(
                        chars.len() - h,
                        nn + 1,
                        nn,
                        0,
                    );
                }
            }
            return Err(InputFault::NotSquare);
        }
        proof {
            vstd::arithmetic::div_mod::lemma_fundamental_div_mod(chars.len() - h, nn + 1);
            assert((nn + 1) * nn == nn * (nn + 1)) by (nonlinear_arith);
            assert(nn * (nn + 1) == nn * nn + nn) by (nonlinear_arith);
            assert(nn <= nn * nn) by (nonlinear_arith)
                requires
                    nn >= 1,
            ;
        }
        if n * n > isize::MAX as usize {
            return Err(InputFault::NotSquare);
        }
        let tiledata = tail_of(&chars, h + 1);
        let mut flat: Vec<u8> = Vec::new();
        let mut bad_cell = false;
        let mut r: usize = 0;
        while r < n
            invariant
                0 <= r <= n,
                n >= 1,
                hh == h,
                nn == n,
                chars@ == s@,
                hh == line_end(s@, 0),
                nn == suggested_size(s@, hh),
                is_header(s@.subrange(0, hh)),
                chars.len() == hh + nn * (nn + 1),
                flat.len() == r * n,
                tiledata@ == chars@.subrange(hh + 1, chars.len() as int),
                forall|k: int| 0 <= k < r ==> #[trigger] chars[hh + k * (nn + 1)] == '\n',
                forall|k: int, c: int|
                    0 <= k < r && 0 <= c < nn ==> #[trigger] chars[hh + k * (nn + 1) + 1 + c]
                        != '\n',
                forall|i: int|
                    0 <= i < flat.len() ==> #[trigger] flat[i] == decode_cell(
                        text_cell(chars@, hh, nn, i / nn, i % nn),
                    ),
                bad_cell <==> exists|i: int| 0 <= i < flat.len() && #[trigger] flat[i] > 1,
            decreases n - r,
        {
            proof {
                lemma_row_in_text(hh, nn, r as int);
            }
            let row_start: usize = h + r * (n + 1);
            assert(chars@[hh + (r as int) * (nn + 1)] == chars[row_start as int]);
            if chars[row_start] != '\n' {
                assert(!is_square(chars@, hh, nn));
                return Err(InputFault::NotSquare);
            }
            let mut c: usize = 0;
            while c < n
                invariant
                    0 <= c <= n,
                    0 <= r < n,
                    n >= 1,
                    hh == h,
                    nn == n,
                    chars@ == s@,
                    hh == line_end(s@, 0),
                    nn == suggested_size(s@, hh),
                    is_header(s@.subrange(0, hh)),
                    row_start == hh + r * (nn + 1),
                    tiledata@ == chars@.subrange(hh + 1, chars.len() as int),
                    row_start + nn < chars.len(),
                    chars.len() == hh + nn * (nn + 1),
                    flat.len() == r * n + c,
                    forall|k: int, c: int|
                        0 <= k < r && 0 <= c < nn ==> #[trigger] chars[hh + k * (nn + 1) + 1 + c]
                            != '\n',
                    forall|k: int| 0 <= k < c ==> #[trigger] chars[hh + r * (nn + 1) + 1 + k] != '\n',
                    forall|i: int|
                        0 <= i < flat.len() ==> #[trigger] flat[i] == decode_cell(
                            text_cell(chars@, hh, nn, i / nn, i % nn),
                        ),
                    bad_cell <==> exists|i: int| 0 <= i < flat.len() && #[trigger] flat[i] > 1,
                decreases n - c,
            {
                let ch = chars[row_start + 1 + c];
                assert(chars@[hh + (r as int) * (nn + 1) + 1 + (c as int)] == ch);
                if ch == '\n' {
                    assert(!is_square(chars@, hh, nn));
                    return Err(InputFault::NotSquare);
                }
                proof {
                    crate::grid::lemma_cell_index(r as int, c as int, nn);
                    assert((nn + 1) * r == r * (nn + 1)) by (nonlinear_arith);
                }
                let v = decode_ascii_tile(r, c, n, &tiledata);
                let ghost before = flat@;
                flat.push(v);
                if v > 1 {
                    bad_cell = true;
                }
                proof {
                    assert(flat[r * n + c] == v);
                    if bad_cell && v <= 1 {
                        let w = choose|i: int| 0 <= i < before.len() && #[trigger] before[i] > 1;
                        assert(flat[w] > 1);
                    }
                    if !bad_cell {
                        assert forall|i: int| 0 <= i < flat.len() implies !(#[trigger] flat[i]
                            > 1) by {
                            if i < before.len() {
                                assert(before[i] == flat[i]);
                            }
                        }
                    }
                }
                c += 1;
            }
            proof {
                assert((r + 1) * n == r * n + n) by (nonlinear_arith);
            }
            r += 1;
        }
        assert(is_square(chars@, hh, nn));
        let ghost want = text_rows(chars@, hh, nn);
        proof {
            assert(bad_cell <==> !binary(want)) by {
                if bad_cell {
                    let w = choose|i: int| 0 <= i < flat.len() && #[trigger] flat[i] > 1;
                    assert(w < nn * nn);
                    vstd::arithmetic::div_mod::lemma_fundamental_div_mod(w, nn);
                    vstd::arithmetic::div_mod::lemma_div_pos_is_pos(w, nn);
                    vstd::arithmetic::div_mod::lemma_mod_bound(w, nn);
                    assert(w / nn < nn) by (nonlinear_arith)
                        requires
                            w < nn * nn,
                            w == nn * (w / nn) + w % nn,
                            0 <= w % nn,
                            nn > 0,
                    ;
                    assert(want[w / nn][w % nn] > 1);
                }
                if !binary(want) {
                    let (i, j) = choose|i: int, j: int|
                        0 <= i < want.len() && 0 <= j < want[i].len() && !((
                        #[trigger] want[i][j]) <= 1);
                    crate::grid::lemma_cell_index(i, j, nn);
                    assert((i + 1) * nn <= nn * nn) by (nonlinear_arith)
                        requires
                            i + 1 <= nn,
                            0 <= nn,
                    ;
                    assert(flat[i * nn + j] > 1);
                }
            }
        }
        if bad_cell {
            return Err(InputFault::BadCharacter);
        }

        match Bitmap::from_flat(n, n, flat) {
            Some(d) => {
                proof {
                    assert forall|i: int| 0 <= i < nn implies d@[i] =~= want[i] by {
                        assert forall|j: int| 0 <= j < nn implies d@[i][j] == want[i][j] by {
                            crate::grid::lemma_cell_index(i, j, nn);
                            assert((i + 1) * nn <= nn * nn) by (nonlinear_arith)
                                requires
                                    i + 1 <= nn,
                                    0 <= nn,
                            ;
                        }
                    }
                    assert(d@ =~= want);
                }
                Ok(Tile { id: TileId { val: id }, d })
            },
            None => {
                proof {
                    assert(false);
                }
                Err(InputFault::NotSquare)
            },
        }
    }

    /// The matrix of the tile after a manipulation.
    pub fn manipulated(&self, how: &Manipulation) -> (r: Bitmap)
        requires
            self.wf(),
        ensures
            r.wf(),
            r.width() == self.size(),
            r.height() == self.size(),
            r@ == how.apply(self.d@, self.size()),
            binary(r@),
    {
        proof {
            lemma_apply_binary(*how, self.d@, self.size());
        }
        how.on(&self.d)
    }

    /// The matrix of the tile after a manipulation, without its outermost
    /// rows and columns.
    pub fn interior(&self, how: &Manipulation) -> (r: Bitmap)
        requires
            self.wf(),
            self.size() >= 2,
        ensures
            r.wf(),
            r.width() == self.size() - 2,
            r.height() == self.size() - 2,
            r@ == interior_rows(how.apply(self.d@, self.size()), self.size()),
    {
        let whole = self.manipulated(how);
        let n = whole.nrows();
        let band = whole.sliced(0, 1, n - 1, 1);
        let r = band.sliced(1, 1, n - 1, 1);
        proof {
            let want = interior_rows(how.apply(self.d@, self.size()), self.size());
            assert forall|i: int| 0 <= i < r@.len() implies r@[i] =~= want[i] by {}
            assert(r@ =~= want);
        }
        r
    }
}

/// A manipulation of a square of bits is a square of bits.
pub proof fn lemma_apply_binary(how: Manipulation, rows: Seq<Seq<u8>>, n: nat)
    requires
        rectangular(rows, n),
        rows.len() == n,
        binary(rows),
    ensures
        binary(how.apply(rows, n)),
        rectangular(how.apply(rows, n), n),
        how.apply(rows, n).len() == n,
{
    let out = how.apply(rows, n);
    assert forall|i: int, j: int| 0 <= i < out.len() && 0 <= j < out[i].len() implies (
    #[trigger] out[i][j]) <= 1 by {
        let flipped = if how.flip {
            crate::manipulation::mirror_rows(rows, n)
        } else {
            rows
        };
        assert forall|a: int, b: int| 0 <= a < n && 0 <= b < n implies (#[trigger] flipped[a][b])
            <= 1 by {
            assert(rows[a].len() == n);
            if how.flip {
                assert(rows[a][n - 1 - b] <= 1);
            } else {
                assert(rows[a][b] <= 1);
            }
        }
        match how.rot {
            crate::manipulation::Rotation::Zero => {
                assert(flipped[i][j] <= 1);
            },
            crate::manipulation::Rotation::One => {
                assert(flipped[j][n - 1 - i] <= 1);
            },
            crate::manipulation::Rotation::Two => {
                assert(flipped[n - 1 - i][n - 1 - j] <= 1);
            },
            crate::manipulation::Rotation::Three => {
                assert(flipped[n - 1 - j][i] <= 1);
            },
        }
    }
}

/// A square of size `n` without its outermost rows and columns.
pub open spec fn interior_rows(rows: Seq<Seq<u8>>, n: nat) -> Seq<Seq<u8>> {
    Seq::new((n - 2) as nat, |i: int| Seq::new((n - 2) as nat, |j: int| rows[i + 1][j + 1]))
}

/// Row `r` of a tile text lies inside the text.
proof fn lemma_row_in_text(h: int, n: int, r: int)
    requires
        0 <= r < n,
        0 <= h,
    ensures
        h <= h + r * (n + 1),
        h + r * (n + 1) + n < h + n * (n + 1),
        r * (n + 1) >= 0,
{
    assert(r * (n + 1) >= 0) by (nonlinear_arith)
        requires
            0 <= r,
            0 <= n,
    ;
    assert(r * (n + 1) + n < n * (n + 1)) by (nonlinear_arith)
        requires
            0 <= r < n,
    ;
}

} // verus!
