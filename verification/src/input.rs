//! Reading starting patterns from text: a grid of `*` (alive) and `.` (dead)
//! characters, or lines of whitespace-separated coordinate pairs.
use vstd::prelude::*;
use crate::ppair::{pack, pack_spec, PPair};

verus! {

/// A dead grid position.
pub const BLANK: char = '.';

/// A live grid position.
pub const FILLED: char = '*';

/// What reading a grid has gathered so far: the live cells, the column of the
/// next grid character in the current line, and the current row.
pub struct GridScan {
    pub cells: Seq<i64>,
    pub x: int,
    pub y: int,
}

/// One character of a grid: `*` is a live cell and `.` a dead one, each
/// taking one column; a line break ends the line, moving down one row, or 50
/// rows after a line without grid characters; anything else is ignored.
pub open spec fn grid_step(st: GridScan, c: char) -> GridScan {
    if c == '\n' {
        GridScan { cells: st.cells, x: 0, y: st.y + if st.x == 0 { 50int } else { 1int } }
    } else if c == FILLED {
        GridScan { cells: st.cells.push(pack_spec(st.x as i32, st.y as i32)), x: st.x + 1, y: st.y }
    } else if c == BLANK {
        GridScan { cells: st.cells, x: st.x + 1, y: st.y }
    } else {
        st
    }
}

/// The result of reading the characters of `s` in order.
pub open spec fn grid_scan(s: Seq<char>) -> GridScan
    decreases s.len(),
{
    if s.len() == 0 {
        GridScan { cells: Seq::empty(), x: 0, y: 0 }
    } else {
        grid_step(grid_scan(s.drop_last()), s.last())
    }
}

/// Reading `s` keeps the column and row within `i32`.
pub open spec fn grid_ok(s: Seq<char>) -> bool
    decreases s.len(),
{
    if s.len() == 0 {
        true
    } else {
        grid_ok(s.drop_last()) && grid_scan(s).x <= i32::MAX && grid_scan(s).y <= i32::MAX
    }
}

proof fn lemma_grid_scan_nonneg(s: Seq<char>)
    ensures
        grid_scan(s).x >= 0,
        grid_scan(s).y >= 0,
    decreases s.len(),
{
    if s.len() > 0 {
        lemma_grid_scan_nonneg(s.drop_last());
    }
}

/// The live cells of a grid given as text: line by line from row 0 down,
/// `*` and `.` taking one column each from column 0, other characters
/// ignored, and a line without `*` or `.` counting as 50 rows.
pub fn readfilegrid(contents: &Vec<char>) -> (cells: Vec<PPair>)
    requires
        grid_ok(contents@),
    ensures
        cells@ == grid_scan(contents@).cells,
{
    let mut cells: Vec<PPair> = Vec::new();
    let mut ycnt: i32 = 0;
    let mut xcnt: i32 = 0;
    let mut i: usize = 0;
    while i < contents.len()
        invariant
            i <= contents@.len(),
            grid_ok(contents@.take(i as int)),
            grid_ok(contents@),
            cells@ == grid_scan(contents@.take(i as int)).cells,
            xcnt == grid_scan(contents@.take(i as int)).x,
            ycnt == grid_scan(contents@.take(i as int)).y,
        decreases contents@.len() - i,
    {
        let ch = contents[i];
        proof {
            assert(contents@.take(i + 1).drop_last() =~= contents@.take(i as int));
            assert(contents@.take(i + 1).last() == ch);
            lemma_grid_ok_prefix(contents@, i + 1);
            lemma_grid_scan_nonneg(contents@.take(i as int));
        }
        if ch == '\n' {
            if xcnt == 0 {
                ycnt = ycnt + 50;
            } else {
                ycnt = ycnt + 1;
            }
            xcnt = 0;
        } else if ch == FILLED || ch == BLANK {
            if ch != BLANK {
                cells.push(pack(xcnt, ycnt));
            }
            xcnt = xcnt + 1;
        }
        i = i + 1;
    }
    proof {
        assert(contents@.take(contents@.len() as int) =~= contents@);
    }
    cells
}

/// `l` holds a grid character (`*` or `.`).
pub open spec fn has_grid_char(l: Seq<char>) -> bool {
    exists|i: int| 0 <= i < l.len() && (#[trigger] l[i] == FILLED || l[i] == BLANK)
}

/// The number of grid characters (`*` or `.`) in `l`.
pub open spec fn grid_char_count(l: Seq<char>) -> nat
    decreases l.len(),
{
    if l.len() == 0 {
        0
    } else {
        grid_char_count(l.drop_last()) + if l.last() == FILLED || l.last() == BLANK {
            1nat
        } else {
            0nat
        }
    }
}

/// The live cells of a line `l` of a grid read at row `y`: each `*` at the
/// column given by the number of grid characters before it.
pub open spec fn line_cells(l: Seq<char>, y: int) -> Seq<i64>
    decreases l.len(),
{
    if l.len() == 0 {
        Seq::empty()
    } else if l.last() == FILLED {
        line_cells(l.drop_last(), y).push(pack_spec(grid_char_count(l.drop_last()) as i32, y as i32))
    } else {
        line_cells(l.drop_last(), y)
    }
}

proof fn lemma_grid_line_prefix(s: Seq<char>, l: Seq<char>)
    requires
        grid_scan(s).x == 0,
        forall|i: int| 0 <= i < l.len() ==> l[i] != '\n',
    ensures
        grid_scan(s + l).y == grid_scan(s).y,
        grid_scan(s + l).x == grid_char_count(l),
        grid_scan(s + l).cells == grid_scan(s).cells + line_cells(l, grid_scan(s).y),
        grid_char_count(l) > 0 <==> has_grid_char(l),
    decreases l.len(),
{
    if l.len() == 0 {
        assert(s + l =~= s);
        assert(grid_scan(s).cells + line_cells(l, grid_scan(s).y) =~= grid_scan(s).cells);
    } else {
        let l0 = l.drop_last();
        lemma_grid_line_prefix(s, l0);
        assert(grid_scan(s).cells + line_cells(l0, grid_scan(s).y).push(
            pack_spec(grid_char_count(l0) as i32, grid_scan(s).y as i32),
        ) =~= (grid_scan(s).cells + line_cells(l0, grid_scan(s).y)).push(
            pack_spec(grid_char_count(l0) as i32, grid_scan(s).y as i32),
        ));
        assert((s + l).drop_last() =~= s + l0);
        assert((s + l).last() == l.last());
        if has_grid_char(l0) {
            let i = choose|i: int| 0 <= i < l0.len() && (#[trigger] l0[i] == FILLED || l0[i] == BLANK);
            assert(l[i] == l0[i]);
        }
        if has_grid_char(l) && !(l.last() == FILLED || l.last() == BLANK) {
            let i = choose|i: int| 0 <= i < l.len() && (#[trigger] l[i] == FILLED || l[i] == BLANK);
            assert(l0[i] == l[i]);
        }
        if l.last() == FILLED || l.last() == BLANK {
            assert(l[l.len() - 1] == l.last());
        }
    }
}

/// Reading a whole line of a grid, from the start of a line: its live cells
/// are those of `line_cells` at the current row; a line holding any grid
/// character (`*` or `.`, live or not) then moves down one row, a line without
/// any moves down 50 rows, and the next line starts at column 0.
pub proof fn lemma_grid_line(s: Seq<char>, l: Seq<char>)
    requires
        s.len() == 0 || s.last() == '\n',
        forall|i: int| 0 <= i < l.len() ==> l[i] != '\n',
    ensures
        grid_scan(s + l + seq!['\n']).y == grid_scan(s).y + if has_grid_char(l) {
            1int
        } else {
            50int
        },
        grid_scan(s + l + seq!['\n']).x == 0,
        grid_scan(s + l + seq!['\n']).cells == grid_scan(s).cells + line_cells(l, grid_scan(s).y),
{
    if s.len() > 0 {
        assert(grid_scan(s).x == 0);
    }
    lemma_grid_line_prefix(s, l);
    let t = s + l + seq!['\n'];
    assert(t.drop_last() =~= s + l);
    assert(t.last() == '\n');
}

/// Every prefix of a readable grid is readable.
proof fn lemma_grid_ok_prefix(s: Seq<char>, k: int)
    requires
        0 <= k <= s.len(),
        grid_ok(s),
    ensures
        grid_ok(s.take(k)),
    decreases s.len() - k,
{
    if k < s.len() {
        lemma_grid_ok_prefix(s, k + 1);
        assert(s.take(k + 1).drop_last() =~= s.take(k));
    } else {
        assert(s.take(k) =~= s);
    }
}

/// Whether reading `contents` as a grid keeps the column and row within
/// `i32`.
pub fn grid_fits(contents: &Vec<char>) -> (r: bool)
    ensures
        r == grid_ok(contents@),
{
    let mut ycnt: i64 = 0;
    let mut xcnt: i64 = 0;
    let mut i: usize = 0;
    while i < contents.len()
        invariant
            i <= contents@.len(),
            grid_ok(contents@.take(i as int)),
            xcnt == grid_scan(contents@.take(i as int)).x,
            ycnt == grid_scan(contents@.take(i as int)).y,
            0 <= xcnt <= i32::MAX,
            0 <= ycnt <= i32::MAX,
        decreases contents@.len() - i,
    {
        let ch = contents[i];
        proof {
            assert(contents@.take(i + 1).drop_last() =~= contents@.take(i as int));
            assert(contents@.take(i + 1).last() == ch);
        }
        if ch == '\n' {
            if xcnt == 0 {
                ycnt = ycnt + 50;
            } else {
                ycnt = ycnt + 1;
            }
            xcnt = 0;
        } else if ch == FILLED || ch == BLANK {
            xcnt = xcnt + 1;
        }
        if xcnt > i32::MAX as i64 || ycnt > i32::MAX as i64 {
            proof {
                assert(!grid_ok(contents@.take(i + 1)));
                lemma_grid_ok_prefix_mono(contents@, i + 1);
            }
            return false;
        }
        i = i + 1;
    }
    proof {
        assert(contents@.take(contents@.len() as int) =~= contents@);
    }
    true
}

/// A grid with an unreadable prefix is unreadable.
proof fn lemma_grid_ok_prefix_mono(s: Seq<char>, k: int)
    requires
        0 <= k <= s.len(),
        !grid_ok(s.take(k)),
    ensures
        !grid_ok(s),
{
    if grid_ok(s) {
        lemma_grid_ok_prefix(s, k);
    }
}

/// `c` is white space in Unicode's sense (as `char::is_whitespace`).
pub open spec fn is_whitespace(c: char) -> bool {
    let u = c as u32;
    ||| 0x9 <= u <= 0xd
    ||| u == 0x20
    ||| u == 0x85
    ||| u == 0xa0
    ||| u == 0x1680
    ||| 0x2000 <= u <= 0x200a
    ||| u == 0x2028
    ||| u == 0x2029
    ||| u == 0x202f
    ||| u == 0x205f
    ||| u == 0x3000
}

/// `c` ends a line of coordinates.
pub open spec fn is_line_break(c: char) -> bool {
    c == '\n' || c == '\r'
}

/// `c` is an ASCII decimal digit.
pub open spec fn is_digit(c: char) -> bool {
    '0' <= c <= '9'
}

/// Every character of `d` is an ASCII decimal digit.
pub open spec fn all_digits(d: Seq<char>) -> bool {
    forall|i: int| 0 <= i < d.len() ==> #[trigger] is_digit(d[i])
}

/// The number that the decimal digits `d` spell.
pub open spec fn digits_value(d: Seq<char>) -> int
    decreases d.len(),
{
    if d.len() == 0 {
        0
    } else {
        digits_value(d.drop_last()) * 10 + ((d.last() as u32) - 48)
    }
}

/// The `i32` a word spells, as `str::parse::<i32>` reads it: an optional `+`
/// or `-`, then one or more ASCII digits, the value within `i32`.
pub open spec fn parse_i32(t: Seq<char>) -> Option<i32> {
    let signed = t.len() > 0 && (t[0] == '-' || t[0] == '+');
    let body = if signed { t.drop_first() } else { t };
    let v = if t.len() > 0 && t[0] == '-' { -digits_value(body) } else { digits_value(body) };
    if body.len() > 0 && all_digits(body) && i32::MIN <= v <= i32::MAX {
        Some(v as i32)
    } else {
        None
    }
}

/// What reading coordinate lines has gathered so far: the packed pairs of
/// finished lines, the numbers read from the current line (the first two at
/// most), and the current word.
pub struct CoordScan {
    pub out: Seq<i64>,
    pub nums: Seq<i32>,
    pub word: Seq<char>,
}

/// Ends the current word: if it spells an `i32` and fewer than two numbers
/// were read from the line, the number is kept.
pub open spec fn end_word(st: CoordScan) -> CoordScan {
    CoordScan {
        out: st.out,
        nums: if st.word.len() > 0 && parse_i32(st.word) is Some && st.nums.len() < 2 {
            st.nums.push(parse_i32(st.word)->0)
        } else {
            st.nums
        },
        word: Seq::empty(),
    }
}

/// Ends the current line: if two numbers were read, their pair is kept.
pub open spec fn end_line(st: CoordScan) -> CoordScan {
    CoordScan {
        out: if st.nums.len() >= 2 {
            st.out.push(pack_spec(st.nums[0], st.nums[1]))
        } else {
            st.out
        },
        nums: Seq::empty(),
        word: st.word,
    }
}

/// One character of coordinate text.
pub open spec fn coord_step(st: CoordScan, c: char) -> CoordScan {
    if is_line_break(c) {
        end_line(end_word(st))
    } else if is_whitespace(c) {
        end_word(st)
    } else {
        CoordScan { out: st.out, nums: st.nums, word: st.word.push(c) }
    }
}

/// The result of reading the characters of `s` in order.
pub open spec fn coord_scan(s: Seq<char>) -> CoordScan
    decreases s.len(),
{
    if s.len() == 0 {
        CoordScan { out: Seq::empty(), nums: Seq::empty(), word: Seq::empty() }
    } else {
        coord_step(coord_scan(s.drop_last()), s.last())
    }
}

/// The pairs of coordinate text: for each line (lines end at `\n` or `\r`),
/// the first two of its whitespace-separated words that spell an `i32`,
/// packed; lines with fewer are skipped.
pub open spec fn coords_of(s: Seq<char>) -> Seq<i64> {
    end_line(end_word(coord_scan(s))).out
}

/// Reads a word as `str::parse::<i32>` does.
pub fn parse_word(t: &Vec<char>) -> (r: Option<i32>)
    ensures
        r == parse_i32(t@),
{
    let n = t.len();
    if n == 0 {
        assert(parse_i32(t@).is_none());
        return None;
    }
    let first = t[0];
    let neg = first == '-';
    let start: usize = if first == '-' || first == '+' { 1 } else { 0 };
    let ghost body = if start == 1 { t@.drop_first() } else { t@ };
    if start == n {
        assert(parse_i32(t@).is_none());
        return None;
    }
    proof {
        assert(body =~= t@.subrange(start as int, n as int));
    }
    let cap: i64 = 2147483649;
    let mut v: i64 = 0;
    let mut i: usize = start;
    while i < n
        invariant
            n == t@.len(),
            1 <= n,
            start <= i <= n,
            start < n,
            body == t@.subrange(start as int, n as int),
            start == (if t@[0] == '-' || t@[0] == '+' { 1usize } else { 0usize }),
            neg == (t@[0] == '-'),
            body == if t@[0] == '-' || t@[0] == '+' { t@.drop_first() } else { t@ },
            forall|k: int| 0 <= k < i - start ==> #[trigger] is_digit(body[k]),
            0 <= v <= cap,
            cap == 2147483649,
            v == if digits_value(body.take(i - start)) < cap { digits_value(body.take(i - start)) } else { cap as int },
            digits_value(body.take(i - start)) >= 0,
        decreases n - i,
    {
        let c = t[i];
        let ghost k = i - start;
        proof {
            assert(body[k] == c);
            assert(body.take(k + 1).drop_last() =~= body.take(k));
            assert(body.take(k + 1).last() == c);
        }
        if c < '0' || c > '9' {
            proof {
                assert(!is_digit(body[k]));
                let signed = t@.len() > 0 && (t@[0] == '-' || t@[0] == '+');
                let b2 = if signed { t@.drop_first() } else { t@ };
                assert(b2 == body);
                assert(!all_digits(b2));
                assert(parse_i32(t@).is_none());
            }
            return None;
        }
        let dg: i64 = (c as u32 - 48) as i64;
        let nv: i64 = v * 10 + dg;
        v = if nv > cap { cap } else { nv };
        i = i + 1;
    }
    proof {
        assert(body.take(n - start) =~= body);
        assert(body.len() > 0);
        assert(all_digits(body));
        assert(v == if digits_value(body) < cap { digits_value(body) } else { cap as int });
    }
    let ghost dv = digits_value(body);
    if neg {
        if v > 2147483648 {
            assert(parse_i32(t@).is_none());
            None
        } else {
            assert(dv == v);
            assert(parse_i32(t@) == Some((-dv) as i32));
            Some((-v) as i32)
        }
    } else {
        if v > 2147483647 {
            assert(parse_i32(t@).is_none());
            None
        } else {
            assert(parse_i32(t@) == Some(dv as i32));
            Some(v as i32)
        }
    }
}

/// Whether `c` is white space in Unicode's sense.
pub fn is_space(c: char) -> (r: bool)
    ensures
        r == is_whitespace(c),
{
    let u = c as u32;
    (0x9 <= u && u <= 0xd) || u == 0x20 || u == 0x85 || u == 0xa0 || u == 0x1680 || (0x2000 <= u && u
        <= 0x200a) || u == 0x2028 || u == 0x2029 || u == 0x202f || u == 0x205f || u == 0x3000
}

/// Ends the current word (see `end_word`).
fn finish_word(word: &mut Vec<char>, nums: &mut Vec<i32>, Ghost(out): Ghost<Seq<i64>>)
    requires
        old(nums)@.len() <= 2,
    ensures
        end_word(CoordScan { out: out, nums: old(nums)@, word: old(word)@ }) == (CoordScan {
            out: out,
            nums: final(nums)@,
            word: final(word)@,
        }),
        final(nums)@.len() <= 2,
{
    if word.len() > 0 {
        let parsed = parse_word(word);
        if let Some(v) = parsed {
            if nums.len() < 2 {
                nums.push(v);
            }
        }
    }
    word.clear();
}

/// Ends the current line (see `end_line`).
fn finish_line(nums: &mut Vec<i32>, out: &mut Vec<PPair>, Ghost(word): Ghost<Seq<char>>)
    ensures
        end_line(CoordScan { out: old(out)@, nums: old(nums)@, word: word }) == (CoordScan {
            out: final(out)@,
            nums: final(nums)@,
            word: word,
        }),
{
    if nums.len() >= 2 {
        let p = pack(nums[0], nums[1]);
        out.push(p);
    }
    nums.clear();
}

/// The pairs of coordinate text (see `coords_of`): for each line, the first
/// two of its whitespace-separated words that spell an `i32`, packed.
pub fn readfilecoord(contents: &Vec<char>) -> (cells: Vec<PPair>)
    ensures
        cells@ == coords_of(contents@),
{
    let mut out: Vec<PPair> = Vec::new();
    let mut nums: Vec<i32> = Vec::new();
    let mut word: Vec<char> = Vec::new();
    let mut i: usize = 0;
    while i < contents.len()
        invariant
            i <= contents@.len(),
            coord_scan(contents@.take(i as int)) == (CoordScan { out: out@, nums: nums@, word: word@ }),
            nums@.len() <= 2,
        decreases contents@.len() - i,
    {
        let c = contents[i];
        proof {
            assert(contents@.take(i + 1).drop_last() =~= contents@.take(i as int));
            assert(contents@.take(i + 1).last() == c);
        }
        if c == '\n' || c == '\r' {
            finish_word(&mut word, &mut nums, Ghost(out@));
            finish_line(&mut nums, &mut out, Ghost(word@));
        } else if is_space(c) {
            finish_word(&mut word, &mut nums, Ghost(out@));
        } else {
            word.push(c);
        }
        i = i + 1;
    }
    proof {
        assert(contents@.take(contents@.len() as int) =~= contents@);
    }
    finish_word(&mut word, &mut nums, Ghost(out@));
    finish_line(&mut nums, &mut out, Ghost(word@));
    out
}

} // verus!
