//! Minimal P1 (ASCII) PBM reader/writer.
//!
//! Walls are encoded as `1` and walkable cells as `0`. The reader strips `#`
//! comments, splits the rest on whitespace, and reads the magic `P1`, the
//! width, the height, and then the bits; bits may be packed without
//! whitespace. Every other character of the bit section counts towards its
//! size and is rejected: trailing data gives a size mismatch, and a stray
//! character in a section of the right size is named in the error.

use vstd::prelude::*;

use super::cell::{self, Cell, MazeGrid};

verus! {

// ---------------------------------------------------------------------
// Characters
// ---------------------------------------------------------------------

/// Unicode `White_Space`, the set that `char::is_whitespace` tests.
pub open spec fn is_ws(c: char) -> bool {
    let u = c as u32;
    ||| 9 <= u <= 13
    ||| u == 0x20
    ||| u == 0x85
    ||| u == 0xA0
    ||| u == 0x1680
    ||| 0x2000 <= u <= 0x200A
    ||| u == 0x2028
    ||| u == 0x2029
    ||| u == 0x202F
    ||| u == 0x205F
    ||| u == 0x3000
}

/// Among ASCII characters, whitespace is exactly tab, line feed, vertical
/// tab, form feed, carriage return and space, so a file with `\r\n` line
/// endings splits into the same tokens as one with `\n`.
pub proof fn lemma_ascii_whitespace(c: char)
    requires
        (c as u32) < 128,
    ensures
        is_ws(c) <==> (c == '\t' || c == '\n' || c == '\u{0B}' || c == '\u{0C}' || c == '\r' || c == ' '),
{
}

fn is_ws_exec(c: char) -> (b: bool)
    ensures
        b == is_ws(c),
{
    let u = c as u32;
    (9 <= u && u <= 13) || u == 0x20 || u == 0x85 || u == 0xA0 || u == 0x1680 || (0x2000 <= u
        && u <= 0x200A) || u == 0x2028 || u == 0x2029 || u == 0x202F || u == 0x205F || u == 0x3000
}

/// The decimal digit character for `d` in `0..10`.
pub open spec fn digit_char(d: int) -> char {
    (48 + d) as char
}

/// Whether `c` is one of `0`..`9`.
pub open spec fn is_digit(c: char) -> bool {
    48 <= c as u32 <= 57
}

/// Decimal representation of `n`, without leading zeros.
pub open spec fn dec(n: nat) -> Seq<char>
    decreases n,
{
    if n < 10 {
        seq![digit_char(n as int)]
    } else {
        dec(n / 10).push(digit_char((n % 10) as int))
    }
}

// ---------------------------------------------------------------------
// Tokens
// ---------------------------------------------------------------------

/// `s` with every `#` comment removed. A comment runs from `#` up to, but not
/// including, the next line break; `in_comment` says that one is open.
pub open spec fn strip_comments(s: Seq<char>, in_comment: bool) -> Seq<char>
    decreases s.len(),
{
    if s.len() == 0 {
        Seq::empty()
    } else if in_comment {
        if s[0] == '\n' {
            seq!['\n'] + strip_comments(s.drop_first(), false)
        } else {
            strip_comments(s.drop_first(), true)
        }
    } else if s[0] == '#' {
        strip_comments(s.drop_first(), true)
    } else {
        seq![s[0]] + strip_comments(s.drop_first(), false)
    }
}

/// Text without a `#` has no comment, and stripping comments leaves it as it is.
pub proof fn lemma_no_comment_kept(s: Seq<char>)
    requires
        forall|i: int| 0 <= i < s.len() ==> s[i] != '#',
    ensures
        strip_comments(s, false) == s,
    decreases s.len(),
{
    if s.len() > 0 {
        assert(s[0] != '#');
        assert forall|i: int| 0 <= i < s.drop_first().len() implies s.drop_first()[i] != '#' by {
            assert(s[i + 1] != '#');
        }
        lemma_no_comment_kept(s.drop_first());
        assert(strip_comments(s, false) =~= s);
    }
}

/// A comment runs from `#` to the end of its line: the text `c` after the
/// `#` (which holds no line break) is dropped, the line break stays, and the
/// next line is read as if nothing had come before it.
pub proof fn lemma_comment_ends_at_line_break(c: Seq<char>, rest: Seq<char>)
    requires
        forall|i: int| 0 <= i < c.len() ==> c[i] != '\n',
    ensures
        strip_comments(seq!['#'] + c + seq!['\n'] + rest, false) == seq!['\n'] + strip_comments(rest, false),
{
    let s = seq!['#'] + c + seq!['\n'] + rest;
    assert(s[0] == '#');
    assert(s.drop_first() =~= c + seq!['\n'] + rest);
    lemma_comment_tail(c, rest);
}

/// Inside a comment, characters up to the line break are dropped.
proof fn lemma_comment_tail(c: Seq<char>, rest: Seq<char>)
    requires
        forall|i: int| 0 <= i < c.len() ==> c[i] != '\n',
    ensures
        strip_comments(c + seq!['\n'] + rest, true) == seq!['\n'] + strip_comments(rest, false),
    decreases c.len(),
{
    let s = c + seq!['\n'] + rest;
    if c.len() == 0 {
        assert(s[0] == '\n');
        assert(s.drop_first() =~= rest);
    } else {
        assert(s[0] == c[0] && c[0] != '\n');
        assert(s.drop_first() =~= c.drop_first() + seq!['\n'] + rest);
        assert forall|i: int| 0 <= i < c.drop_first().len() implies c.drop_first()[i] != '\n' by {
            assert(c[i + 1] != '\n');
        }
        lemma_comment_tail(c.drop_first(), rest);
    }
}

/// The maximal runs of non-whitespace characters of `s`, in order, the first
/// one prefixed by `cur` (a run already begun).
pub open spec fn words(s: Seq<char>, cur: Seq<char>) -> Seq<Seq<char>>
    decreases s.len(),
{
    if s.len() == 0 {
        if cur.len() > 0 {
            seq![cur]
        } else {
            Seq::empty()
        }
    } else if is_ws(s[0]) {
        if cur.len() > 0 {
            seq![cur] + words(s.drop_first(), Seq::empty())
        } else {
            words(s.drop_first(), Seq::empty())
        }
    } else {
        words(s.drop_first(), cur.push(s[0]))
    }
}

/// The tokens of a PBM text: its words once comments are removed.
pub open spec fn pbm_tokens(s: Seq<char>) -> Seq<Seq<char>> {
    words(strip_comments(s, false), Seq::empty())
}

/// The characters of all tokens, joined.
pub open spec fn concat_all(ts: Seq<Seq<char>>) -> Seq<char>
    decreases ts.len(),
{
    if ts.len() == 0 {
        Seq::empty()
    } else {
        ts[0] + concat_all(ts.drop_first())
    }
}

/// The `0`/`1` characters of `s` as bits, in order; other characters are skipped.
pub open spec fn pixel_bits(s: Seq<char>) -> Seq<u8>
    decreases s.len(),
{
    if s.len() == 0 {
        Seq::empty()
    } else if s[0] == '0' {
        seq![0u8] + pixel_bits(s.drop_first())
    } else if s[0] == '1' {
        seq![1u8] + pixel_bits(s.drop_first())
    } else {
        pixel_bits(s.drop_first())
    }
}

/// `c` is a bit character: `0` or `1`.
pub open spec fn is_bit(c: char) -> bool {
    c == '0' || c == '1'
}

/// The first character of `s` that is not a bit character, if any.
pub open spec fn first_non_bit(s: Seq<char>) -> Option<char>
    decreases s.len(),
{
    if s.len() == 0 {
        None
    } else if !is_bit(s[0]) {
        Some(s[0])
    } else {
        first_non_bit(s.drop_first())
    }
}

// ---------------------------------------------------------------------
// Integers
// ---------------------------------------------------------------------

/// Why a decimal integer could not be read, as `usize::from_str` reports it.
#[derive(Clone, Copy, PartialEq, Eq, Debug, Structural)]
pub enum IntParseError {
    Empty,
    InvalidDigit,
    PosOverflow,
}

/// Read the digits `d` left to right onto `acc`; the first character that is
/// not a digit, or the first digit that takes the value past `usize::MAX`,
/// decides the error.
pub open spec fn scan_digits(d: Seq<char>, acc: int) -> Result<int, IntParseError>
    decreases d.len(),
{
    if d.len() == 0 {
        Ok(acc)
    } else if !is_digit(d[0]) {
        Err(IntParseError::InvalidDigit)
    } else if acc * 10 + (d[0] as u32 - 48) > usize::MAX {
        Err(IntParseError::PosOverflow)
    } else {
        scan_digits(d.drop_first(), acc * 10 + (d[0] as u32 - 48))
    }
}

/// `usize::from_str`: an optional `+`, then at least one decimal digit.
pub open spec fn parse_usize(t: Seq<char>) -> Result<int, IntParseError> {
    if t.len() == 0 {
        Err(IntParseError::Empty)
    } else if t[0] == '+' {
        if t.len() == 1 {
            Err(IntParseError::InvalidDigit)
        } else {
            scan_digits(t.drop_first(), 0)
        }
    } else {
        scan_digits(t, 0)
    }
}

/// The text `ParseIntError` displays for each kind.
pub open spec fn int_error_text(e: IntParseError) -> Seq<char> {
    match e {
        IntParseError::Empty => "cannot parse integer from empty string"@,
        IntParseError::InvalidDigit => "invalid digit found in string"@,
        IntParseError::PosOverflow => "number too large to fit in target type"@,
    }
}

// ---------------------------------------------------------------------
// The format
// ---------------------------------------------------------------------

/// The grid of `h` rows and `w` columns whose cell `(x, y)` is a wall exactly
/// when bit `y * w + x` is 1.
pub open spec fn grid_of_bits(bits: Seq<u8>, w: nat, h: nat) -> Seq<Seq<Cell>> {
    cell::grid_from_fn(h, w, |x: int, y: int| if bits[y * w + x] == 1 { Cell::Wall } else { Cell::Empty })
}

/// What reading a PBM text gives: the maze, or the message of the first
/// check that fails.
pub open spec fn spec_parse_pbm(s: Seq<char>) -> Result<Seq<Seq<Cell>>, Seq<char>> {
    let t = pbm_tokens(s);
    if t.len() == 0 {
        Err("Empty PBM"@)
    } else if t[0] != seq!['P', '1'] {
        Err("Unsupported PBM magic: "@ + t[0] + " (expected P1)"@)
    } else if t.len() < 2 {
        Err("Missing width"@)
    } else if parse_usize(t[1]) is Err {
        Err("Bad width: "@ + int_error_text(parse_usize(t[1])->Err_0))
    } else if t.len() < 3 {
        Err("Missing height"@)
    } else if parse_usize(t[2]) is Err {
        Err("Bad height: "@ + int_error_text(parse_usize(t[2])->Err_0))
    } else {
        let w = parse_usize(t[1])->Ok_0;
        let h = parse_usize(t[2])->Ok_0;
        let body = concat_all(t.skip(3));
        if w == 0 || h == 0 {
            Err("Zero-sized maze"@)
        } else if body.len() != w * h {
            Err(
                "Pixel count mismatch: expected "@ + dec((w * h) as nat) + ", got "@ + dec(
                    body.len(),
                ),
            )
        } else if first_non_bit(body) is Some {
            Err("Bad pixel: "@ + seq![first_non_bit(body)->Some_0] + " (expected 0 or 1)"@)
        } else {
            Ok(grid_of_bits(pixel_bits(body), w as nat, h as nat))
        }
    }
}

/// The character a cell is written as.
pub open spec fn cell_char(c: Cell) -> char {
    if c == Cell::Wall {
        '1'
    } else {
        '0'
    }
}

/// One row of the bit section: the cells' characters separated by single spaces.
pub open spec fn row_text(r: Seq<Cell>) -> Seq<char>
    decreases r.len(),
{
    if r.len() == 0 {
        Seq::empty()
    } else if r.len() == 1 {
        seq![cell_char(r[0])]
    } else {
        row_text(r.drop_last()) + seq![' ', cell_char(r.last())]
    }
}

/// The bit section: each row on a line of its own.
pub open spec fn rows_text(g: Seq<Seq<Cell>>) -> Seq<char>
    decreases g.len(),
{
    if g.len() == 0 {
        Seq::empty()
    } else {
        rows_text(g.drop_last()) + row_text(g.last()) + seq!['\n']
    }
}

/// The text the writer produces: `P1`, then `<cols> <rows>`, then the rows.
pub open spec fn spec_to_pbm(g: Seq<Seq<Cell>>) -> Seq<char> {
    seq!['P', '1', '\n'] + dec(cell::grid_width(g)) + seq![' '] + dec(g.len()) + seq!['\n']
        + rows_text(g)
}

// ---------------------------------------------------------------------
// Executable helpers
// ---------------------------------------------------------------------

/// Appends `c` to `s` by `String::push`, which std documents as appending
/// the given char to the end of the string; the contract claims exactly
/// that: the characters of `s` gain `c` at the end.
#[verifier::external_body]
fn push_char(s: &mut String, c: char)
    ensures
        final(s)@ == old(s)@.push(c),
{
    s.push(c);
}

/// The characters of `s`, in order.
fn chars_of(s: &str) -> (v: Vec<char>)
    ensures
        v@ == s@,
{
    let mut v: Vec<char> = Vec::new();
    for c in it: s.chars()
        invariant
            v@ == it.seq().take(it.index() as int),
            it.seq() == s@,
    {
        v.push(c);
    }
    v
}

fn strip_comments_exec(s: &Vec<char>) -> (out: Vec<char>)
    ensures
        out@ == strip_comments(s@, false),
{
    let mut out: Vec<char> = Vec::new();
    let mut in_comment = false;
    let mut i: usize = 0;
    assert(s@.skip(0) =~= s@);
    while i < s.len()
        invariant
            i <= s.len(),
            out@ + strip_comments(s@.skip(i as int), in_comment) == strip_comments(s@, false),
        decreases s.len() - i,
    {
        let c = s[i];
        proof {
            assert(s@.skip(i as int).drop_first() =~= s@.skip(i + 1));
        }
        if in_comment {
            if c == '\n' {
                out.push(c);
                in_comment = false;
            }
        } else if c == '#' {
            in_comment = true;
        } else {
            out.push(c);
        }
        proof {
            assert(out@ + strip_comments(s@.skip(i + 1), in_comment) =~= strip_comments(s@, false));
        }
        i = i + 1;
    }
    assert(s@.skip(i as int) =~= Seq::<char>::empty());
    assert(out@ =~= out@ + strip_comments(s@.skip(i as int), in_comment));
    out
}

/// The views of a list of character vectors.
pub open spec fn views(v: Seq<Vec<char>>) -> Seq<Seq<char>> {
    v.map_values(|t: Vec<char>| t@)
}

fn words_exec(s: &Vec<char>) -> (toks: Vec<Vec<char>>)
    ensures
        views(toks@) == words(s@, Seq::empty()),
{
    let mut toks: Vec<Vec<char>> = Vec::new();
    let mut cur: Vec<char> = Vec::new();
    let mut i: usize = 0;
    assert(s@.skip(0) =~= s@);
    assert(views(toks@) =~= Seq::<Seq<char>>::empty());
    while i < s.len()
        invariant
            i <= s.len(),
            views(toks@) + words(s@.skip(i as int), cur@) == words(s@, Seq::empty()),
        decreases s.len() - i,
    {
        let c = s[i];
        proof {
            assert(s@.skip(i as int).drop_first() =~= s@.skip(i + 1));
            assert(s@.skip(i as int)[0] == c);
        }
        let ghost cur0 = cur@;
        let ghost toks0 = views(toks@);
        if is_ws_exec(c) {
            if cur.len() > 0 {
                let ghost old_toks = views(toks@);
                let done = cur;
                cur = Vec::new();
                toks.push(done);
                proof {
                    assert(views(toks@) =~= old_toks.push(done@));
                }
            }
        } else {
            cur.push(c);
        }
        proof {
            if is_ws(c) {
                if cur0.len() > 0 {
                    assert(words(s@.skip(i as int), cur0) == seq![cur0] + words(s@.skip(i + 1), Seq::empty()));
                    assert(toks0 + words(s@.skip(i as int), cur0) =~= views(toks@) + words(s@.skip(i + 1), cur@));
                } else {
                    assert(words(s@.skip(i as int), cur0) == words(s@.skip(i + 1), Seq::empty()));
                    assert(cur@ == cur0);
                    assert(cur0 =~= Seq::<char>::empty());
                }
            } else {
                assert(words(s@.skip(i as int), cur0) == words(s@.skip(i + 1), cur0.push(c)));
            }
        }
        i = i + 1;
    }
    assert(s@.skip(i as int) =~= Seq::<char>::empty());
    if cur.len() > 0 {
        let ghost old_toks = views(toks@);
        toks.push(cur);
        proof {
            assert(views(toks@) =~= old_toks + words(s@.skip(i as int), cur@));
        }
    } else {
        assert(views(toks@) =~= views(toks@) + words(s@.skip(i as int), cur@));
    }
    toks
}

// ---------------------------------------------------------------------
// Lemmas on the token specifications
// ---------------------------------------------------------------------

proof fn lemma_concat_push(ts: Seq<Seq<char>>, t: Seq<char>)
    ensures
        concat_all(ts.push(t)) == concat_all(ts) + t,
    decreases ts.len(),
{
    if ts.len() == 0 {
        assert(ts.push(t).drop_first() =~= Seq::<Seq<char>>::empty());
        reveal_with_fuel(concat_all, 2);
        assert(concat_all(ts.push(t)) =~= t);
    } else {
        assert(ts.push(t).drop_first() =~= ts.drop_first().push(t));
        lemma_concat_push(ts.drop_first(), t);
        assert(concat_all(ts.push(t)) =~= concat_all(ts) + t);
    }
}

proof fn lemma_bits_append(a: Seq<char>, b: Seq<char>)
    ensures
        pixel_bits(a + b) == pixel_bits(a) + pixel_bits(b),
    decreases a.len(),
{
    if a.len() == 0 {
        assert(a + b =~= b);
        assert(pixel_bits(a) + pixel_bits(b) =~= pixel_bits(b));
    } else {
        assert((a + b).drop_first() =~= a.drop_first() + b);
        lemma_bits_append(a.drop_first(), b);
        assert(pixel_bits(a + b) =~= pixel_bits(a) + pixel_bits(b));
    }
}

proof fn lemma_bits_one(c: char)
    ensures
        pixel_bits(seq![c]) == (if c == '0' {
            seq![0u8]
        } else if c == '1' {
            seq![1u8]
        } else {
            Seq::<u8>::empty()
        }),
{
    assert(seq![c].drop_first() =~= Seq::<char>::empty());
    reveal_with_fuel(pixel_bits, 2);
    assert(pixel_bits(seq![c]) =~= (if c == '0' {
        seq![0u8]
    } else if c == '1' {
        seq![1u8]
    } else {
        Seq::<u8>::empty()
    }));
}

/// Past a prefix of bit characters, the first non-bit character is that of the rest.
proof fn lemma_first_non_bit_skip(s: Seq<char>, i: int)
    requires
        0 <= i <= s.len(),
        forall|j: int| 0 <= j < i ==> #[trigger] is_bit(s[j]),
    ensures
        first_non_bit(s) == first_non_bit(s.skip(i)),
    decreases i,
{
    if i > 0 {
        assert(is_bit(s[0]));
        assert forall|j: int| 0 <= j < i - 1 implies #[trigger] is_bit(s.drop_first()[j]) by {
            assert(is_bit(s[j + 1]));
        }
        lemma_first_non_bit_skip(s.drop_first(), i - 1);
        assert(s.drop_first().skip(i - 1) =~= s.skip(i));
    } else {
        assert(s.skip(0) =~= s);
    }
}

/// Text made only of bit characters has one bit per character.
proof fn lemma_all_bits_len(s: Seq<char>)
    requires
        first_non_bit(s) is None,
    ensures
        pixel_bits(s).len() == s.len(),
    decreases s.len(),
{
    if s.len() > 0 {
        lemma_all_bits_len(s.drop_first());
    }
}

/// Joining two texts of bit characters gives one.
proof fn lemma_first_non_bit_append(a: Seq<char>, b: Seq<char>)
    requires
        first_non_bit(a) is None,
        first_non_bit(b) is None,
    ensures
        first_non_bit(a + b) is None,
    decreases a.len(),
{
    if a.len() == 0 {
        assert(a + b =~= b);
    } else {
        assert((a + b).drop_first() =~= a.drop_first() + b);
        lemma_first_non_bit_append(a.drop_first(), b);
    }
}

proof fn lemma_scan_nonneg(d: Seq<char>, acc: int)
    requires
        acc >= 0,
    ensures
        scan_digits(d, acc) is Ok ==> scan_digits(d, acc)->Ok_0 >= 0,
    decreases d.len(),
{
    if d.len() > 0 && is_digit(d[0]) && acc * 10 + (d[0] as u32 - 48) <= usize::MAX {
        assert(acc * 10 + (d[0] as u32 - 48) >= 0) by (nonlinear_arith)
            requires
                acc >= 0,
                48 <= d[0] as u32,
        ;
        lemma_scan_nonneg(d.drop_first(), acc * 10 + (d[0] as u32 - 48));
    }
}

/// A number read is never negative.
proof fn lemma_parse_usize_nonneg(t: Seq<char>)
    ensures
        parse_usize(t) is Ok ==> parse_usize(t)->Ok_0 >= 0,
{
    lemma_scan_nonneg(t, 0);
    if t.len() > 0 {
        lemma_scan_nonneg(t.drop_first(), 0);
    }
}

/// In text made only of bit characters, each character is a bit and gives
/// the bit at its own position: 1 for `1`, 0 for `0`.
proof fn lemma_all_bits_index(s: Seq<char>)
    requires
        first_non_bit(s) is None,
    ensures
        pixel_bits(s).len() == s.len(),
        forall|i: int| 0 <= i < s.len() ==> #[trigger] is_bit(s[i]),
        forall|i: int| 0 <= i < s.len() ==> #[trigger] pixel_bits(s)[i] == (if s[i] == '1' { 1u8 } else { 0u8 }),
    decreases s.len(),
{
    if s.len() > 0 {
        lemma_all_bits_index(s.drop_first());
        let r = s.drop_first();
        assert forall|i: int| 0 <= i < s.len() implies #[trigger] is_bit(s[i]) by {
            if i > 0 {
                assert(s[i] == r[i - 1]);
                assert(is_bit(r[i - 1]));
            }
        }
        assert forall|i: int| 0 <= i < s.len() implies #[trigger] pixel_bits(s)[i] == (if s[i] == '1' {
            1u8
        } else {
            0u8
        }) by {
            if i > 0 {
                assert(s[i] == r[i - 1]);
                assert(pixel_bits(r)[i - 1] == (if r[i - 1] == '1' { 1u8 } else { 0u8 }));
            }
        }
    }
}

/// A successful read is the grid the header announces: as many rows as the
/// height and as many cells in each as the width (both read after the magic
/// `P1`), with the cell in column `x` of row `y` a wall exactly when the
/// `(y * width + x)`-th character after the height is `1`; every one of
/// those characters is `0` or `1`.
pub proof fn lemma_parse_cells(s: Seq<char>)
    ensures
        spec_parse_pbm(s) is Ok ==> {
            let g = spec_parse_pbm(s)->Ok_0;
            let t = pbm_tokens(s);
            let w = parse_usize(t[1])->Ok_0;
            let h = parse_usize(t[2])->Ok_0;
            let body = concat_all(t.skip(3));
            &&& t.len() >= 3
            &&& t[0] == seq!['P', '1']
            &&& g.len() == h
            &&& forall|y: int| 0 <= y < h ==> (#[trigger] g[y]).len() == w
            &&& body.len() == w * h
            &&& forall|i: int| 0 <= i < body.len() ==> body[i] == '0' || body[i] == '1'
            &&& forall|y: int, x: int|
                0 <= y < h && 0 <= x < w ==> (#[trigger] g[y][x] == Cell::Wall <==> body[y * w + x] == '1')
        },
{
    if spec_parse_pbm(s) is Ok {
        let t = pbm_tokens(s);
        let w = parse_usize(t[1])->Ok_0;
        let h = parse_usize(t[2])->Ok_0;
        let body = concat_all(t.skip(3));
        let g = spec_parse_pbm(s)->Ok_0;
        assert(w >= 0 && h >= 0) by {
            lemma_parse_usize_nonneg(t[1]);
            lemma_parse_usize_nonneg(t[2]);
        }
        lemma_all_bits_index(body);
        let bits = pixel_bits(body);
        assert(g == grid_of_bits(bits, w as nat, h as nat));
        assert forall|i: int| 0 <= i < body.len() implies body[i] == '0' || body[i] == '1' by {
            assert(is_bit(body[i]));
        }
        assert forall|y: int, x: int| 0 <= y < h && 0 <= x < w implies (#[trigger] g[y][x] == Cell::Wall <==> body[y * w
            + x] == '1') by {
            assert(0 <= y * w + x < w * h) by (nonlinear_arith)
                requires
                    0 <= y < h,
                    0 <= x < w,
            ;
            assert(bits[y * w + x] == (if body[y * w + x] == '1' { 1u8 } else { 0u8 }));
            assert(g[y][x] == (if bits[y * w + x] == 1 { Cell::Wall } else { Cell::Empty }));
        }
    }
}

// ---------------------------------------------------------------------
// Reading
// ---------------------------------------------------------------------

fn parse_usize_exec(t: &Vec<char>) -> (r: Result<usize, IntParseError>)
    ensures
        match r {
            Ok(v) => parse_usize(t@) == Ok::<int, IntParseError>(v as int),
            Err(e) => parse_usize(t@) == Err::<int, IntParseError>(e),
        },
{
    if t.len() == 0 {
        return Err(IntParseError::Empty);
    }
    let mut i: usize = 0;
    if t[0] == '+' {
        if t.len() == 1 {
            return Err(IntParseError::InvalidDigit);
        }
        i = 1;
    }
    let ghost d = t@.skip(i as int);
    assert(t@.skip(1) =~= t@.drop_first());
    assert(t@.skip(0) =~= t@);
    assert(parse_usize(t@) == scan_digits(d, 0));
    let mut acc: usize = 0;
    while i < t.len()
        invariant
            i <= t.len(),
            scan_digits(t@.skip(i as int), acc as int) == parse_usize(t@),
        decreases t.len() - i,
    {
        let c = t[i];
        assert(t@.skip(i as int)[0] == c);
        assert(t@.skip(i as int).drop_first() =~= t@.skip(i + 1));
        let u = c as u32;
        if u < 48 || u > 57 {
            return Err(IntParseError::InvalidDigit);
        }
        let dv = (u - 48) as usize;
        match acc.checked_mul(10) {
            None => {
                return Err(IntParseError::PosOverflow);
            },
            Some(m) => match m.checked_add(dv) {
                None => {
                    return Err(IntParseError::PosOverflow);
                },
                Some(v) => {
                    acc = v;
                },
            },
        }
        i = i + 1;
    }
    assert(t@.skip(i as int) =~= Seq::<char>::empty());
    Ok(acc)
}

/// The characters of all tokens from the fourth on, joined.
fn body_exec(toks: &Vec<Vec<char>>) -> (body: Vec<char>)
    requires
        toks@.len() >= 3,
    ensures
        body@ == concat_all(views(toks@).skip(3)),
{
    let mut body: Vec<char> = Vec::new();
    let mut j: usize = 3;
    assert(views(toks@).subrange(3, 3) =~= Seq::<Seq<char>>::empty());
    while j < toks.len()
        invariant
            3 <= j <= toks@.len(),
            body@ == concat_all(views(toks@).subrange(3, j as int)),
        decreases toks@.len() - j,
    {
        let t = &toks[j];
        let ghost before = body@;
        let mut k: usize = 0;
        assert(before =~= before + t@.take(0));
        while k < t.len()
            invariant
                k <= t@.len(),
                t == toks@[j as int],
                body@ == before + t@.take(k as int),
            decreases t@.len() - k,
        {
            body.push(t[k]);
            assert(body@ =~= before + t@.take(k + 1));
            k = k + 1;
        }
        proof {
            assert(t@.take(k as int) =~= t@);
            assert(views(toks@).subrange(3, j + 1) =~= views(toks@).subrange(3, j as int).push(t@));
            lemma_concat_push(views(toks@).subrange(3, j as int), t@);
        }
        j = j + 1;
    }
    assert(views(toks@).subrange(3, j as int) =~= views(toks@).skip(3));
    body
}

/// The first character of `s` that is not `0` or `1`, if any.
fn first_non_bit_exec(s: &Vec<char>) -> (r: Option<char>)
    ensures
        r == first_non_bit(s@),
{
    let mut i: usize = 0;
    while i < s.len()
        invariant
            i <= s@.len(),
            forall|j: int| 0 <= j < i ==> #[trigger] is_bit(s@[j]),
        decreases s@.len() - i,
    {
        if !(s[i] == '0' || s[i] == '1') {
            proof {
                lemma_first_non_bit_skip(s@, i as int);
                assert(s@.skip(i as int)[0] == s@[i as int]);
            }
            return Some(s[i]);
        }
        i = i + 1;
    }
    proof {
        lemma_first_non_bit_skip(s@, i as int);
        assert(s@.skip(i as int) =~= Seq::<char>::empty());
    }
    None
}

/// The bits of the `0`/`1` characters of `s`, in order.
fn bits_of(s: &Vec<char>) -> (bits: Vec<u8>)
    ensures
        bits@ == pixel_bits(s@),
{
    let mut bits: Vec<u8> = Vec::new();
    let mut k: usize = 0;
    assert(s@.take(0) =~= Seq::<char>::empty());
    while k < s.len()
        invariant
            k <= s@.len(),
            bits@ == pixel_bits(s@.take(k as int)),
        decreases s@.len() - k,
    {
        let c = s[k];
        proof {
            assert(s@.take(k + 1) =~= s@.take(k as int) + seq![c]);
            lemma_bits_append(s@.take(k as int), seq![c]);
            lemma_bits_one(c);
        }
        if c == '0' {
            bits.push(0);
        } else if c == '1' {
            bits.push(1);
        }
        assert(bits@ =~= pixel_bits(s@.take(k + 1)));
        k = k + 1;
    }
    assert(s@.take(k as int) =~= s@);
    bits
}

/// Append the decimal representation of `n`.
pub(crate) fn push_dec(s: &mut String, n: u128)
    ensures
        final(s)@ == old(s)@ + dec(n as nat),
    decreases n,
{
    if n >= 10 {
        push_dec(s, n / 10);
    }
    let d = (n % 10) as u8;
    push_char(s, (48u8 + d) as char);
    proof {
        if n >= 10 {
            assert(final(s)@ =~= old(s)@ + dec(n as nat));
        } else {
            assert(final(s)@ =~= old(s)@ + dec(n as nat));
        }
    }
}

/// Append every character of `v`.
fn push_all(s: &mut String, v: &Vec<char>)
    ensures
        final(s)@ == old(s)@ + v@,
{
    let mut i: usize = 0;
    while i < v.len()
        invariant
            i <= v@.len(),
            s@ == old(s)@ + v@.take(i as int),
        decreases v@.len() - i,
    {
        push_char(s, v[i]);
        assert(v@.take(i + 1) =~= v@.take(i as int).push(v@[i as int]));
        i = i + 1;
    }
    assert(v@.take(i as int) =~= v@);
}

/// Append the text of an integer-parsing error.
fn push_int_error(s: &mut String, e: IntParseError)
    ensures
        final(s)@ == old(s)@ + int_error_text(e),
{
    match e {
        IntParseError::Empty => s.append("cannot parse integer from empty string"),
        IntParseError::InvalidDigit => s.append("invalid digit found in string"),
        IntParseError::PosOverflow => s.append("number too large to fit in target type"),
    }
}

/// The grid described by `bits`, `w` columns by `h` rows.
fn grid_exec(bits: &Vec<u8>, w: usize, h: usize) -> (m: MazeGrid)
    requires
        bits@.len() == w * h,
    ensures
        cell::grid_view(&m) == grid_of_bits(bits@, w as nat, h as nat),
{
    let n = bits.len();
    let mut maze: MazeGrid = Vec::new();
    for y in 0..h
        invariant
            n == bits@.len(),
            bits@.len() == w * h,
            maze@.len() == y,
            forall|j: int|
                0 <= j < y ==> #[trigger] maze@[j]@ == grid_of_bits(bits@, w as nat, h as nat)[j],
    {
        let mut row: Vec<Cell> = Vec::new();
        for x in 0..w
            invariant
                n == bits@.len(),
                bits@.len() == w * h,
                y < h,
                row@ == grid_of_bits(bits@, w as nat, h as nat)[y as int].take(x as int),
        {
            assert(y * w + x < n) by (nonlinear_arith)
                requires
                    y < h,
                    x < w,
                    n == w * h,
            ;
            let i = y * w + x;
            let c = if bits[i] == 1 { Cell::Wall } else { Cell::Empty };
            row.push(c);
            assert(row@ =~= grid_of_bits(bits@, w as nat, h as nat)[y as int].take(x + 1));
        }
        assert(row@ =~= grid_of_bits(bits@, w as nat, h as nat)[y as int]);
        maze.push(row);
    }
    assert(cell::grid_view(&maze) =~= grid_of_bits(bits@, w as nat, h as nat));
    maze
}

/// Parse a P1 PBM from an in-memory string.
///
/// Returns the maze, or a human-readable message naming the first problem
/// found: a missing or wrong magic, a missing or unreadable width or height,
/// a zero dimension, a bit section whose size (every character after the
/// height) is not width times height, or a character there other than `0`
/// and `1`.
pub fn maze_from_pbm_str(contents: &str) -> (r: Result<MazeGrid, String>)
    ensures
        match r {
            Ok(m) => spec_parse_pbm(contents@) == Ok::<Seq<Seq<Cell>>, Seq<char>>(
                cell::grid_view(&m),
            ),
            Err(e) => spec_parse_pbm(contents@) == Err::<Seq<Seq<Cell>>, Seq<char>>(e@),
        },
{
    let chars = chars_of(contents);
    let text = strip_comments_exec(&chars);
    let toks = words_exec(&text);
    let ghost t = pbm_tokens(contents@);
    assert(views(toks@) == t);
    if toks.len() == 0 {
        let mut m = String::new();
        m.append("Empty PBM");
        return Err(m);
    }
    assert(toks@[0]@ == t[0]);
    if !(toks[0].len() == 2 && toks[0][0] == 'P' && toks[0][1] == '1') {
        assert(t[0] != seq!['P', '1']);
        let mut m = String::new();
        m.append("Unsupported PBM magic: ");
        push_all(&mut m, &toks[0]);
        m.append(" (expected P1)");
        return Err(m);
    }
    assert(t[0] =~= seq!['P', '1']);
    if toks.len() < 2 {
        let mut m = String::new();
        m.append("Missing width");
        return Err(m);
    }
    assert(toks@[1]@ == t[1]);
    let width = match parse_usize_exec(&toks[1]) {
        Ok(v) => v,
        Err(e) => {
            let mut m = String::new();
            m.append("Bad width: ");
            push_int_error(&mut m, e);
            return Err(m);
        },
    };
    if toks.len() < 3 {
        let mut m = String::new();
        m.append("Missing height");
        return Err(m);
    }
    assert(toks@[2]@ == t[2]);
    let height = match parse_usize_exec(&toks[2]) {
        Ok(v) => v,
        Err(e) => {
            let mut m = String::new();
            m.append("Bad height: ");
            push_int_error(&mut m, e);
            return Err(m);
        },
    };
    if width == 0 || height == 0 {
        let mut m = String::new();
        m.append("Zero-sized maze");
        return Err(m);
    }
    let body = body_exec(&toks);
    let expected = width.checked_mul(height);
    let matches = match expected {
        Some(e) => body.len() == e,
        None => false,
    };
    if !matches {
        assert((width as u128) * (height as u128) <= u128::MAX) by (nonlinear_arith)
            requires
                width <= u64::MAX,
                height <= u64::MAX,
        ;
        let product = (width as u128) * (height as u128);
        let mut m = String::new();
        m.append("Pixel count mismatch: expected ");
        push_dec(&mut m, product);
        m.append(", got ");
        push_dec(&mut m, body.len() as u128);
        return Err(m);
    }
    match first_non_bit_exec(&body) {
        Some(c) => {
            let mut m = String::new();
            m.append("Bad pixel: ");
            push_char(&mut m, c);
            m.append(" (expected 0 or 1)");
            assert(m@ =~= "Bad pixel: "@ + seq![c] + " (expected 0 or 1)"@);
            return Err(m);
        },
        None => {},
    }
    let bits = bits_of(&body);
    proof {
        lemma_all_bits_len(body@);
    }
    let maze = grid_exec(&bits, width, height);
    Ok(maze)
}

// ---------------------------------------------------------------------
// Writing
// ---------------------------------------------------------------------

/// Serialize a maze to a P1 PBM string. Walls are `1`, empties are `0`; the
/// width written is that of the first row.
pub fn maze_to_pbm_str(maze: &MazeGrid) -> (s: String)
    ensures
        s@ == spec_to_pbm(cell::grid_view(maze)),
{
    let ghost g = cell::grid_view(maze);
    let rows = maze.len();
    let cols = if rows > 0 { maze[0].len() } else { 0 };
    assert(cols == cell::grid_width(g));
    let mut out = String::new();
    push_char(&mut out, 'P');
    push_char(&mut out, '1');
    push_char(&mut out, '\n');
    push_dec(&mut out, cols as u128);
    push_char(&mut out, ' ');
    push_dec(&mut out, rows as u128);
    push_char(&mut out, '\n');
    let ghost header = out@;
    assert(header =~= seq!['P', '1', '\n'] + dec(cell::grid_width(g)) + seq![' '] + dec(g.len())
        + seq!['\n']);
    assert(g.take(0) =~= Seq::<Seq<Cell>>::empty());
    assert(out@ =~= header + rows_text(g.take(0)));
    let mut y: usize = 0;
    while y < rows
        invariant
            y <= rows,
            rows == maze@.len(),
            g == cell::grid_view(maze),
            out@ == header + rows_text(g.take(y as int)),
        decreases rows - y,
    {
        let row = &maze[y];
        assert(row@ == g[y as int]);
        let ghost base = out@;
        let mut x: usize = 0;
        assert(row@.take(0) =~= Seq::<Cell>::empty());
        assert(out@ =~= base + row_text(row@.take(0)));
        while x < row.len()
            invariant
                x <= row@.len(),
                out@ == base + row_text(row@.take(x as int)),
            decreases row@.len() - x,
        {
            if x > 0 {
                push_char(&mut out, ' ');
            }
            let c = if row[x] == Cell::Wall { '1' } else { '0' };
            push_char(&mut out, c);
            proof {
                let r1 = row@.take(x + 1);
                assert(r1.drop_last() =~= row@.take(x as int));
                assert(r1.last() == row@[x as int]);
                if x == 0 {
                    assert(row_text(r1) =~= seq![c]);
                    assert(out@ =~= base + row_text(r1));
                } else {
                    assert(out@ =~= base + row_text(r1));
                }
            }
            x = x + 1;
        }
        push_char(&mut out, '\n');
        proof {
            assert(row@.take(x as int) =~= row@);
            let g1 = g.take(y + 1);
            assert(g1.drop_last() =~= g.take(y as int));
            assert(g1.last() == g[y as int]);
            assert(out@ =~= header + rows_text(g1));
        }
        y = y + 1;
    }
    assert(g.take(y as int) =~= g);
    out
}

// ---------------------------------------------------------------------
// The round trip
// ---------------------------------------------------------------------

/// Characters the writer emits.
pub open spec fn writer_char(c: char) -> bool {
    c == 'P' || c == '\n' || c == ' ' || is_digit(c)
}

pub open spec fn all_writer_chars(s: Seq<char>) -> bool {
    forall|i: int| 0 <= i < s.len() ==> #[trigger] writer_char(s[i])
}

proof fn lemma_dec_digits(n: nat)
    ensures
        dec(n).len() >= 1,
        forall|i: int| 0 <= i < dec(n).len() ==> #[trigger] is_digit(dec(n)[i]),
    decreases n,
{
    if n >= 10 {
        lemma_dec_digits(n / 10);
    }
}

proof fn lemma_row_text_chars(r: Seq<Cell>)
    ensures
        all_writer_chars(row_text(r)),
    decreases r.len(),
{
    if r.len() > 1 {
        lemma_row_text_chars(r.drop_last());
    }
}

proof fn lemma_rows_text_chars(g: Seq<Seq<Cell>>)
    ensures
        all_writer_chars(rows_text(g)),
    decreases g.len(),
{
    if g.len() > 0 {
        lemma_rows_text_chars(g.drop_last());
        lemma_row_text_chars(g.last());
    }
}

proof fn lemma_strip_nothing(s: Seq<char>)
    requires
        all_writer_chars(s),
    ensures
        strip_comments(s, false) == s,
    decreases s.len(),
{
    if s.len() > 0 {
        assert(writer_char(s[0]));
        assert(all_writer_chars(s.drop_first())) by {
            assert forall|i: int| 0 <= i < s.drop_first().len() implies #[trigger] writer_char(
                s.drop_first()[i],
            ) by {
                assert(writer_char(s[i + 1]));
            }
        }
        lemma_strip_nothing(s.drop_first());
        assert(strip_comments(s, false) =~= s);
    }
}

proof fn lemma_words_append(a: Seq<char>, b: Seq<char>, cur: Seq<char>)
    requires
        a.len() > 0,
        is_ws(a.last()),
    ensures
        words(a + b, cur) == words(a, cur) + words(b, Seq::empty()),
    decreases a.len(),
{
    assert((a + b).drop_first() =~= a.drop_first() + b);
    if a.len() == 1 {
        assert(a.drop_first() =~= Seq::<char>::empty());
        assert(words(a.drop_first(), Seq::empty()) =~= Seq::<Seq<char>>::empty());
        assert(a.drop_first() + b =~= b);
        assert(words(a + b, cur) =~= words(a, cur) + words(b, Seq::empty()));
    } else {
        assert(a.drop_first().last() == a.last());
        if is_ws(a[0]) {
            lemma_words_append(a.drop_first(), b, Seq::empty());
        } else {
            lemma_words_append(a.drop_first(), b, cur.push(a[0]));
        }
        assert(words(a + b, cur) =~= words(a, cur) + words(b, Seq::empty()));
    }
}

proof fn lemma_words_word(wd: Seq<char>, c: char, r: Seq<char>, cur: Seq<char>)
    requires
        (cur + wd).len() > 0,
        forall|i: int| 0 <= i < wd.len() ==> !is_ws(#[trigger] wd[i]),
        is_ws(c),
    ensures
        words(wd + seq![c] + r, cur) == seq![cur + wd] + words(r, Seq::empty()),
    decreases wd.len(),
{
    let s = wd + seq![c] + r;
    if wd.len() == 0 {
        assert(s[0] == c);
        assert(s.drop_first() =~= r);
        assert(cur + wd =~= cur);
    } else {
        assert(s[0] == wd[0]);
        assert(s.drop_first() =~= wd.drop_first() + seq![c] + r);
        assert(cur.push(wd[0]) + wd.drop_first() =~= cur + wd);
        assert forall|i: int| 0 <= i < wd.drop_first().len() implies !is_ws(
            #[trigger] wd.drop_first()[i],
        ) by {
            assert(!is_ws(wd[i + 1]));
        }
        lemma_words_word(wd.drop_first(), c, r, cur.push(wd[0]));
    }
}

proof fn lemma_bits_of_words(s: Seq<char>, cur: Seq<char>)
    ensures
        pixel_bits(concat_all(words(s, cur))) == pixel_bits(cur) + pixel_bits(s),
    decreases s.len(),
{
    if s.len() == 0 {
        if cur.len() > 0 {
            assert(seq![cur].drop_first() =~= Seq::<Seq<char>>::empty());
            reveal_with_fuel(concat_all, 2);
            assert(concat_all(seq![cur]) =~= cur);
        }
        assert(pixel_bits(cur) + pixel_bits(s) =~= pixel_bits(cur));
    } else {
        let c = s[0];
        let rest = s.drop_first();
        assert(s =~= seq![c] + rest);
        lemma_bits_append(seq![c], rest);
        lemma_bits_one(c);
        if is_ws(c) {
            lemma_bits_of_words(rest, Seq::empty());
            assert(pixel_bits(Seq::<char>::empty()) =~= Seq::<u8>::empty());
            if cur.len() > 0 {
                let x = seq![cur] + words(rest, Seq::empty());
                assert(x.drop_first() =~= words(rest, Seq::empty()));
                assert(concat_all(x) == cur + concat_all(words(rest, Seq::empty())));
                lemma_bits_append(cur, concat_all(words(rest, Seq::empty())));
            }
            assert(pixel_bits(concat_all(words(s, cur))) =~= pixel_bits(cur) + pixel_bits(s));
        } else {
            lemma_bits_of_words(rest, cur.push(c));
            assert(cur.push(c) =~= cur + seq![c]);
            lemma_bits_append(cur, seq![c]);
            assert(pixel_bits(concat_all(words(s, cur))) =~= pixel_bits(cur) + pixel_bits(s));
        }
    }
}

/// `c` is a bit character or whitespace.
pub open spec fn bit_or_ws(c: char) -> bool {
    is_bit(c) || is_ws(c)
}

proof fn lemma_row_text_bit_or_ws(r: Seq<Cell>)
    ensures
        forall|i: int| 0 <= i < row_text(r).len() ==> #[trigger] bit_or_ws(row_text(r)[i]),
    decreases r.len(),
{
    if r.len() > 1 {
        lemma_row_text_bit_or_ws(r.drop_last());
        let a = row_text(r.drop_last());
        assert forall|i: int| 0 <= i < row_text(r).len() implies #[trigger] bit_or_ws(row_text(r)[i]) by {
            if i < a.len() {
                assert(row_text(r)[i] == a[i]);
            }
        }
    }
}

proof fn lemma_rows_text_bit_or_ws(g: Seq<Seq<Cell>>)
    ensures
        forall|i: int| 0 <= i < rows_text(g).len() ==> #[trigger] bit_or_ws(rows_text(g)[i]),
    decreases g.len(),
{
    if g.len() > 0 {
        lemma_rows_text_bit_or_ws(g.drop_last());
        lemma_row_text_bit_or_ws(g.last());
        let a = rows_text(g.drop_last());
        let b = row_text(g.last());
        assert forall|i: int| 0 <= i < rows_text(g).len() implies #[trigger] bit_or_ws(rows_text(g)[i]) by {
            if i < a.len() {
                assert(rows_text(g)[i] == a[i]);
            } else if i < a.len() + b.len() {
                assert(rows_text(g)[i] == b[i - a.len()]);
            } else {
                assert(rows_text(g)[i] == '\n');
                assert(is_ws('\n'));
            }
        }
    }
}

/// The words of a text made of bit characters and whitespace, joined after
/// a begun run of bit characters, hold only bit characters.
proof fn lemma_words_only_bits(s: Seq<char>, cur: Seq<char>)
    requires
        first_non_bit(cur) is None,
        forall|i: int| 0 <= i < s.len() ==> #[trigger] bit_or_ws(s[i]),
    ensures
        first_non_bit(concat_all(words(s, cur))) is None,
    decreases s.len(),
{
    if s.len() == 0 {
        if cur.len() > 0 {
            assert(seq![cur].drop_first() =~= Seq::<Seq<char>>::empty());
            reveal_with_fuel(concat_all, 2);
            assert(concat_all(seq![cur]) =~= cur);
        }
    } else {
        let c = s[0];
        let rest = s.drop_first();
        assert(bit_or_ws(s[0]));
        assert forall|i: int| 0 <= i < rest.len() implies #[trigger] bit_or_ws(rest[i]) by {
            assert(bit_or_ws(s[i + 1]));
        }
        if is_ws(c) {
            lemma_words_only_bits(rest, Seq::empty());
            if cur.len() > 0 {
                let x = seq![cur] + words(rest, Seq::empty());
                assert(x.drop_first() =~= words(rest, Seq::empty()));
                assert(concat_all(x) == cur + concat_all(words(rest, Seq::empty())));
                lemma_first_non_bit_append(cur, concat_all(words(rest, Seq::empty())));
            }
        } else {
            assert(is_bit(c));
            assert(seq![c].drop_first() =~= Seq::<char>::empty());
            assert(first_non_bit(seq![c]) is None);
            lemma_first_non_bit_append(cur, seq![c]);
            assert(cur.push(c) =~= cur + seq![c]);
            lemma_words_only_bits(rest, cur.push(c));
        }
    }
}

/// The bits of the cells of a row, 1 for a wall.
pub open spec fn row_bits(r: Seq<Cell>) -> Seq<u8> {
    Seq::new(r.len(), |i: int| if r[i] == Cell::Wall { 1u8 } else { 0u8 })
}

/// The bits of all rows, top row first.
pub open spec fn grid_bits(g: Seq<Seq<Cell>>) -> Seq<u8>
    decreases g.len(),
{
    if g.len() == 0 {
        Seq::empty()
    } else {
        grid_bits(g.drop_last()) + row_bits(g.last())
    }
}

proof fn lemma_row_bits(r: Seq<Cell>)
    ensures
        pixel_bits(row_text(r)) == row_bits(r),
    decreases r.len(),
{
    if r.len() == 0 {
        assert(row_bits(r) =~= Seq::<u8>::empty());
    } else if r.len() == 1 {
        lemma_bits_one(cell_char(r[0]));
        assert(row_bits(r) =~= pixel_bits(row_text(r)));
    } else {
        lemma_row_bits(r.drop_last());
        lemma_bits_append(row_text(r.drop_last()), seq![' ', cell_char(r.last())]);
        assert(seq![' ', cell_char(r.last())] =~= seq![' '] + seq![cell_char(r.last())]);
        lemma_bits_append(seq![' '], seq![cell_char(r.last())]);
        lemma_bits_one(' ');
        lemma_bits_one(cell_char(r.last()));
        assert(row_bits(r) =~= pixel_bits(row_text(r)));
    }
}

proof fn lemma_rows_bits(g: Seq<Seq<Cell>>)
    ensures
        pixel_bits(rows_text(g)) == grid_bits(g),
    decreases g.len(),
{
    if g.len() > 0 {
        lemma_rows_bits(g.drop_last());
        lemma_row_bits(g.last());
        lemma_bits_append(rows_text(g.drop_last()) + row_text(g.last()), seq!['\n']);
        lemma_bits_append(rows_text(g.drop_last()), row_text(g.last()));
        lemma_bits_one('\n');
        assert(pixel_bits(rows_text(g)) =~= grid_bits(g));
    }
}

proof fn lemma_grid_bits_index(g: Seq<Seq<Cell>>, w: nat)
    requires
        forall|y: int| 0 <= y < g.len() ==> #[trigger] g[y].len() == w,
    ensures
        grid_bits(g).len() == g.len() * w,
        forall|y: int, x: int|
            0 <= y < g.len() && 0 <= x < w ==> grid_bits(g)[y * w + x] == (if g[y][x] == Cell::Wall {
                1u8
            } else {
                0u8
            }),
    decreases g.len(),
{
    if g.len() > 0 {
        let p = g.drop_last();
        assert forall|y: int| 0 <= y < p.len() implies #[trigger] p[y].len() == w by {
            assert(g[y].len() == w);
        }
        lemma_grid_bits_index(p, w);
        let h = g.len();
        assert(g.last().len() == w);
        assert(grid_bits(g).len() == h * w) by (nonlinear_arith)
            requires
                grid_bits(g).len() == grid_bits(p).len() + w,
                grid_bits(p).len() == (h - 1) * w,
        ;
        assert forall|y: int, x: int| 0 <= y < g.len() && 0 <= x < w implies grid_bits(g)[y * w
            + x] == (if g[y][x] == Cell::Wall {
            1u8
        } else {
            0u8
        }) by {
            if y < h - 1 {
                assert(y * w + x < (h - 1) * w) by (nonlinear_arith)
                    requires
                        0 <= y < h - 1,
                        0 <= x < w,
                ;
                assert(p[y] == g[y]);
            } else {
                assert(y * w + x == (h - 1) * w + x) by (nonlinear_arith)
                    requires
                        y == h - 1,
                ;
                assert(0 <= y * w) by (nonlinear_arith)
                    requires
                        0 <= y,
                ;
            }
        }
    }
}

proof fn lemma_scan_append(a: Seq<char>, b: Seq<char>, acc: int)
    ensures
        scan_digits(a + b, acc) == match scan_digits(a, acc) {
            Ok(v) => scan_digits(b, v),
            Err(e) => Err(e),
        },
    decreases a.len(),
{
    if a.len() == 0 {
        assert(a + b =~= b);
    } else {
        assert((a + b).drop_first() =~= a.drop_first() + b);
        assert((a + b)[0] == a[0]);
        if is_digit(a[0]) && acc * 10 + (a[0] as u32 - 48) <= usize::MAX {
            lemma_scan_append(a.drop_first(), b, acc * 10 + (a[0] as u32 - 48));
        }
    }
}

/// Every number the writer writes in decimal reads back as itself.
pub proof fn lemma_parse_dec(n: nat)
    requires
        n <= usize::MAX,
    ensures
        parse_usize(dec(n)) == Ok::<int, IntParseError>(n as int),
    decreases n,
{
    lemma_dec_digits(n);
    assert(scan_digits(dec(n), 0) == Ok::<int, IntParseError>(n as int)) by {
        lemma_scan_digits_dec(n);
    }
    assert(dec(n)[0] != '+') by {
        assert(is_digit(dec(n)[0]));
    }
}

proof fn lemma_scan_digits_dec(n: nat)
    requires
        n <= usize::MAX,
    ensures
        scan_digits(dec(n), 0) == Ok::<int, IntParseError>(n as int),
    decreases n,
{
    reveal_with_fuel(scan_digits, 2);
    lemma_dec_digits(n);
    if n < 10 {
        assert(dec(n).drop_first() =~= Seq::<char>::empty());
        assert(dec(n)[0] as u32 - 48 == n);
    } else {
        lemma_scan_digits_dec(n / 10);
        let d = digit_char((n % 10) as int);
        assert(dec(n) =~= dec(n / 10) + seq![d]);
        lemma_scan_append(dec(n / 10), seq![d], 0);
        assert(seq![d].drop_first() =~= Seq::<char>::empty());
        assert(d as u32 - 48 == n % 10);
        assert((n / 10) as int * 10 + n % 10 == n);
    }
}

proof fn lemma_words_of_digits(n: nat)
    ensures
        forall|i: int| 0 <= i < dec(n).len() ==> !is_ws(#[trigger] dec(n)[i]),
{
    lemma_dec_digits(n);
    assert forall|i: int| 0 <= i < dec(n).len() implies !is_ws(#[trigger] dec(n)[i]) by {
        assert(is_digit(dec(n)[i]));
    }
}

/// Reading what the writer wrote gives back the maze, for every rectangular
/// maze with at least one row and one column.
pub proof fn lemma_pbm_roundtrip(g: Seq<Seq<Cell>>)
    requires
        cell::is_rectangular(g),
        g.len() >= 1,
        cell::grid_width(g) >= 1,
        g.len() <= usize::MAX,
        cell::grid_width(g) <= usize::MAX,
    ensures
        spec_parse_pbm(spec_to_pbm(g)) == Ok::<Seq<Seq<Cell>>, Seq<char>>(g),
{
    let w = cell::grid_width(g);
    let h = g.len();
    let body = rows_text(g);
    let text = spec_to_pbm(g);
    // No comment marker anywhere.
    lemma_dec_digits(w);
    lemma_dec_digits(h);
    lemma_rows_text_chars(g);
    assert(all_writer_chars(text)) by {
        assert forall|i: int| 0 <= i < text.len() implies #[trigger] writer_char(text[i]) by {
            let a = seq!['P', '1', '\n'];
            let l1 = a.len() + dec(w).len();
            let l2 = l1 + 1 + dec(h).len();
            let l3 = l2 + 1;
            if i < 3 {
            } else if i < l1 {
                assert(text[i] == dec(w)[i - 3]);
            } else if i < l1 + 1 {
            } else if i < l2 {
                assert(text[i] == dec(h)[i - l1 - 1]);
            } else if i < l3 {
            } else {
                assert(text[i] == body[i - l3]);
            }
        }
    }
    lemma_strip_nothing(text);
    // The tokens: the magic, the width, the height, then those of the body.
    let empty = Seq::<char>::empty();
    lemma_words_of_digits(w);
    lemma_words_of_digits(h);
    let tail2 = dec(h) + seq!['\n'] + body;
    let tail1 = dec(w) + seq![' '] + tail2;
    assert(text =~= seq!['P', '1'] + seq!['\n'] + tail1);
    assert(is_ws('\n') && is_ws(' '));
    lemma_words_word(seq!['P', '1'], '\n', tail1, empty);
    lemma_words_word(dec(w), ' ', tail2, empty);
    lemma_words_word(dec(h), '\n', body, empty);
    assert(empty + seq!['P', '1'] =~= seq!['P', '1']);
    assert(empty + dec(w) =~= dec(w));
    assert(empty + dec(h) =~= dec(h));
    let t = pbm_tokens(text);
    assert(t =~= seq![seq!['P', '1'], dec(w), dec(h)] + words(body, empty));
    assert(t.skip(3) =~= words(body, empty));
    lemma_parse_dec(w);
    lemma_parse_dec(h);
    // The bits.
    lemma_bits_of_words(body, empty);
    assert(pixel_bits(empty) =~= Seq::<u8>::empty());
    lemma_rows_bits(g);
    let bits = pixel_bits(concat_all(t.skip(3)));
    assert(bits =~= grid_bits(g));
    assert forall|y: int| 0 <= y < g.len() implies #[trigger] g[y].len() == w by {
        assert(g[y].len() == cell::grid_width(g));
    }
    lemma_grid_bits_index(g, w);
    assert(h * w == w * h) by (nonlinear_arith);
    assert(bits.len() == w * h);
    lemma_rows_text_bit_or_ws(g);
    lemma_words_only_bits(body, empty);
    lemma_all_bits_len(concat_all(t.skip(3)));
    assert(t.len() >= 3);
    assert(t[0] == seq!['P', '1']);
    assert(t[1] == dec(w));
    assert(t[2] == dec(h));
    assert(grid_of_bits(bits, w, h) =~~= g) by {
        assert forall|y: int| 0 <= y < h implies #[trigger] grid_of_bits(bits, w, h)[y] =~= g[y] by {
            assert forall|x: int| 0 <= x < w implies grid_of_bits(bits, w, h)[y][x] == g[y][x] by {
                assert(bits[y * w + x] == (if g[y][x] == Cell::Wall {
                    1u8
                } else {
                    0u8
                }));
            }
        }
    }
}

} // verus!
