//! The text inputs: lines of white-space separated tokens. The terrain file
//! holds one terrain code per cell; a positions file holds one `x y` pair per
//! line.
use crate::terrain::Terrain;
use vstd::prelude::*;

verus! {

/// A white-space character in Unicode's sense, as `char::is_whitespace`
/// documents it.
pub open spec fn is_white(c: char) -> bool {
    let u = c as u32;
    ||| 9 <= u <= 13
    ||| u == 32
    ||| u == 0x85
    ||| u == 0xA0
    ||| u == 0x1680
    ||| 0x2000 <= u <= 0x200A
    ||| u == 0x2028
    ||| u == 0x2029
    ||| u == 0x202F
    ||| u == 0x205F
    ||| u == 0x3000
}

pub fn is_white_char(c: char) -> (r: bool)
    ensures
        r == is_white(c),
{
    let u = c as u32;
    (9 <= u && u <= 13) || u == 32 || u == 0x85 || u == 0xA0 || u == 0x1680 || (0x2000 <= u && u <= 0x200A) || u
        == 0x2028 || u == 0x2029 || u == 0x202F || u == 0x205F || u == 0x3000
}

/// Lexer state: the finished lines, the tokens of the current line, and the
/// token being read (empty when none is).
pub type Lex = (Seq<Seq<Seq<char>>>, Seq<Seq<char>>, Seq<char>);

/// The current line with the token being read added to it.
pub open spec fn close_token(line: Seq<Seq<char>>, tok: Seq<char>) -> Seq<Seq<char>> {
    if tok.len() > 0 {
        line.push(tok)
    } else {
        line
    }
}

pub open spec fn feed(s: Lex, c: char) -> Lex {
    if c == '\n' {
        (s.0.push(close_token(s.1, s.2)), Seq::empty(), Seq::empty())
    } else if is_white(c) {
        (s.0, close_token(s.1, s.2), Seq::empty())
    } else {
        (s.0, s.1, s.2.push(c))
    }
}

pub open spec fn lex(text: Seq<char>) -> Lex
    decreases text.len(),
{
    if text.len() == 0 {
        (Seq::empty(), Seq::empty(), Seq::empty())
    } else {
        feed(lex(text.drop_last()), text.last())
    }
}

/// The tokens of each line of `text`: the text is cut at each line break,
/// and each line into its maximal runs of characters that are not white
/// space.
pub open spec fn tokens(text: Seq<char>) -> Seq<Seq<Seq<char>>> {
    let s = lex(text);
    s.0.push(close_token(s.1, s.2))
}

pub open spec fn is_digit(c: char) -> bool {
    48 <= (c as u32) <= 57
}

pub open spec fn all_digits(t: Seq<char>) -> bool {
    forall|i: int| 0 <= i < t.len() ==> is_digit(#[trigger] t[i])
}

/// The number that a string of decimal digits writes.
pub open spec fn digits_value(t: Seq<char>) -> int
    decreases t.len(),
{
    if t.len() == 0 {
        0
    } else {
        digits_value(t.drop_last()) * 10 + ((t.last() as u32) - 48)
    }
}

/// A token read as a `usize` the way `usize::from_str` reads it: an optional
/// `+`, then at least one decimal digit, for a value that fits.
pub open spec fn parse_usize(t: Seq<char>) -> Option<usize> {
    let body = if t.len() > 0 && t[0] == '+' { t.drop_first() } else { t };
    if body.len() > 0 && all_digits(body) && digits_value(body) <= usize::MAX {
        Some(digits_value(body) as usize)
    } else {
        None
    }
}

pub open spec fn line_view(line: Seq<Vec<char>>) -> Seq<Seq<char>> {
    line.map_values(|t: Vec<char>| t@)
}

pub open spec fn lines_view(lines: Seq<Vec<Vec<char>>>) -> Seq<Seq<Seq<char>>> {
    lines.map_values(|l: Vec<Vec<char>>| line_view(l@))
}

/// Cuts `text` into lines and tokens (see `tokens`).
pub fn tokenize(text: &Vec<char>) -> (r: Vec<Vec<Vec<char>>>)
    ensures
        lines_view(r@) == tokens(text@),
{
    let mut lines: Vec<Vec<Vec<char>>> = Vec::new();
    let mut line: Vec<Vec<char>> = Vec::new();
    let mut tok: Vec<char> = Vec::new();
    let mut i: usize = 0;
    assert(lines_view(lines@) =~= Seq::<Seq<Seq<char>>>::empty());
    assert(line_view(line@) =~= Seq::<Seq<char>>::empty());
    while i < text.len()
        invariant
            i <= text@.len(),
            lex(text@.take(i as int)) == (lines_view(lines@), line_view(line@), tok@),
        decreases text@.len() - i,
    {
        let c = text[i];
        let ghost pre = (lines_view(lines@), line_view(line@), tok@);
        assert(text@.take(i as int + 1).drop_last() == text@.take(i as int));
        let white = is_white_char(c);
        if c == '\n' || white {
            if tok.len() > 0 {
                let mut t: Vec<char> = Vec::new();
                std::mem::swap(&mut tok, &mut t);
                line.push(t);
            }
            assert(line_view(line@) =~= close_token(pre.1, pre.2));
            assert(tok@ =~= Seq::<char>::empty());
            if c == '\n' {
                let mut l: Vec<Vec<char>> = Vec::new();
                std::mem::swap(&mut line, &mut l);
                lines.push(l);
                assert(lines_view(lines@) =~= pre.0.push(close_token(pre.1, pre.2)));
                assert(line_view(line@) =~= Seq::<Seq<char>>::empty());
            }
        } else {
            tok.push(c);
        }
        i = i + 1;
    }
    assert(text@.take(i as int) == text@);
    let ghost pre = (lines_view(lines@), line_view(line@), tok@);
    if tok.len() > 0 {
        line.push(tok);
    }
    assert(line_view(line@) =~= close_token(pre.1, pre.2));
    lines.push(line);
    assert(lines_view(lines@) =~= tokens(text@));
    lines
}

proof fn lemma_digits_value_grows(t: Seq<char>, j: int)
    requires
        0 <= j <= t.len(),
        all_digits(t),
    ensures
        digits_value(t.take(j)) <= digits_value(t),
        digits_value(t) >= 0,
    decreases t.len(),
{
    if t.len() > 0 {
        let d = t.drop_last();
        assert(is_digit(t[t.len() - 1]));
        if j == t.len() {
            assert(t.take(j) == t);
            lemma_digits_value_grows(d, 0);
        } else {
            assert(t.take(j) == d.take(j));
            lemma_digits_value_grows(d, j);
        }
    } else {
        assert(t.take(j) == t);
    }
}

/// Reads a token as a `usize` (see `parse_usize`).
pub fn parse_token(t: &Vec<char>) -> (r: Option<usize>)
    ensures
        r == parse_usize(t@),
{
    let start: usize = if t.len() > 0 && t[0] == '+' { 1 } else { 0 };
    let ghost body = if t@.len() > 0 && t@[0] == '+' { t@.drop_first() } else { t@ };
    assert(body == t@.subrange(start as int, t@.len() as int));
    if start >= t.len() {
        return None;
    }
    let mut v: usize = 0;
    let mut i: usize = start;
    while i < t.len()
        invariant
            start <= i <= t@.len(),
            body == t@.subrange(start as int, t@.len() as int),
            body == (if t@.len() > 0 && t@[0] == '+' { t@.drop_first() } else { t@ }),
            all_digits(body.take(i - start)),
            v == digits_value(body.take(i - start)),
        decreases t@.len() - i,
    {
        let c = t[i];
        let ghost k = i - start;
        assert(body[k] == c);
        assert(body.take(k + 1).drop_last() == body.take(k));
        let u = c as u32;
        if !(48 <= u && u <= 57) {
            assert(!is_digit(body[k]));
            assert(!all_digits(body));
            assert(body.len() > 0);
            return None;
        }
        let d = (u - 48) as usize;
        assert(all_digits(body.take(k + 1)));
        assert(body.take(k + 1).last() == c);
        assert(digits_value(body.take(k + 1)) == v * 10 + d);
        if v > (usize::MAX - d) / 10 {
            proof {
                let m = usize::MAX - d;
                assert(v * 10 + d > usize::MAX) by (nonlinear_arith)
                    requires
                        v > m / 10,
                        m == usize::MAX - d,
                        0 <= d <= 9,
                ;
                if all_digits(body) {
                    lemma_digits_value_grows(body, k + 1);
                }
            }
            return None;
        }
        v = v * 10 + d;
        i = i + 1;
    }
    assert(body.take(i - start) == body);
    Some(v)
}

/// Terrain of a code of the terrain file: 0 grass, 1 mountain, 2 swamp,
/// 3 desert, 4 obstacle, and grass for any other number.
pub open spec fn terrain_of_code(v: usize) -> Terrain {
    if v == 1 {
        Terrain::Mountain
    } else if v == 2 {
        Terrain::Swamp
    } else if v == 3 {
        Terrain::Desert
    } else if v == 4 {
        Terrain::Obstacle
    } else {
        Terrain::Grass
    }
}

pub fn terrain_from_code(v: usize) -> (r: Terrain)
    ensures
        r == terrain_of_code(v),
{
    if v == 1 {
        Terrain::Mountain
    } else if v == 2 {
        Terrain::Swamp
    } else if v == 3 {
        Terrain::Desert
    } else if v == 4 {
        Terrain::Obstacle
    } else {
        Terrain::Grass
    }
}

/// Every token of the text reads as a number.
pub open spec fn all_numbers(ls: Seq<Seq<Seq<char>>>) -> bool {
    forall|i: int, j: int| 0 <= i < ls.len() && 0 <= j < ls[i].len() ==> (#[trigger] parse_usize(ls[i][j])).is_some()
}

/// Reads a terrain file: one row of terrains per line; `None` when a token is
/// not a number.
pub fn read_terrain(text: &Vec<char>) -> (r: Option<Vec<Vec<Terrain>>>)
    ensures
        r.is_some() == all_numbers(tokens(text@)),
        r.is_some() ==> {
            let ls = tokens(text@);
            let rows = r.unwrap()@;
            &&& rows.len() == ls.len()
            &&& forall|i: int| 0 <= i < rows.len() ==> (#[trigger] rows[i])@.len() == ls[i].len()
            &&& forall|i: int, j: int| 0 <= i < rows.len() && 0 <= j < ls[i].len()
                ==> #[trigger] rows[i]@[j] == terrain_of_code(parse_usize(ls[i][j]).unwrap())
        },
{
    let lines = tokenize(text);
    let ghost ls = tokens(text@);
    let mut rows: Vec<Vec<Terrain>> = Vec::new();
    let mut i: usize = 0;
    while i < lines.len()
        invariant
            ls == lines_view(lines@),
            ls == tokens(text@),
            i <= lines@.len(),
            rows@.len() == i,
            forall|a: int, b: int| 0 <= a < i && 0 <= b < ls[a].len() ==> (#[trigger] parse_usize(ls[a][b])).is_some(),
            forall|a: int| 0 <= a < i ==> (#[trigger] rows@[a])@.len() == ls[a].len(),
            forall|a: int, b: int| 0 <= a < i && 0 <= b < ls[a].len()
                ==> #[trigger] rows@[a]@[b] == terrain_of_code(parse_usize(ls[a][b]).unwrap()),
        decreases lines@.len() - i,
    {
        let line = &lines[i];
        assert(line_view(line@) == ls[i as int]);
        let mut row: Vec<Terrain> = Vec::new();
        let mut j: usize = 0;
        while j < line.len()
            invariant
                line_view(line@) == ls[i as int],
                ls == tokens(text@),
                i < ls.len(),
                j <= line@.len(),
                row@.len() == j,
                forall|b: int| 0 <= b < j ==> (#[trigger] parse_usize(ls[i as int][b])).is_some(),
                forall|b: int| 0 <= b < j ==> #[trigger] row@[b] == terrain_of_code(parse_usize(ls[i as int][b]).unwrap()),
            decreases line@.len() - j,
        {
            assert(line@[j as int]@ == ls[i as int][j as int]);
            match parse_token(&line[j]) {
                Some(v) => row.push(terrain_from_code(v)),
                None => {
                    assert(!all_numbers(ls)) by {
                        assert(parse_usize(ls[i as int][j as int]).is_none());
                    }
                    return None;
                },
            }
            j = j + 1;
        }
        rows.push(row);
        i = i + 1;
    }
    Some(rows)
}

/// How many lines, from line `i` on, hold exactly two tokens before one that
/// does not (or the end).
pub open spec fn pair_lines_from(ls: Seq<Seq<Seq<char>>>, i: int) -> int
    decreases ls.len() - i,
{
    if 0 <= i < ls.len() && ls[i].len() == 2 {
        pair_lines_from(ls, i + 1)
    } else {
        i
    }
}

proof fn lemma_pair_lines_from(ls: Seq<Seq<Seq<char>>>, i: int)
    requires
        0 <= i,
    ensures
        pair_lines_from(ls, i) >= i,
    decreases ls.len() - i,
{
    if 0 <= i < ls.len() && ls[i].len() == 2 {
        lemma_pair_lines_from(ls, i + 1);
    }
}

/// Reads a positions file: the `x y` pairs of its leading lines of exactly
/// two tokens; what follows the first other line is not read. `None` when a
/// token of those lines is not a number.
pub fn read_factories(text: &Vec<char>) -> (r: Option<Vec<(usize, usize)>>)
    ensures
        ({
            let ls = tokens(text@);
            let n = pair_lines_from(ls, 0);
            &&& r.is_some() == (forall|i: int| 0 <= i < n ==> (#[trigger] parse_usize(ls[i][0])).is_some()
                && parse_usize(ls[i][1]).is_some())
            &&& r.is_some() ==> r.unwrap()@.len() == n && forall|i: int|
                0 <= i < n ==> #[trigger] r.unwrap()@[i] == (parse_usize(ls[i][0]).unwrap(), parse_usize(ls[i][1]).unwrap())
        }),
{
    let lines = tokenize(text);
    let ghost ls = tokens(text@);
    let mut ps: Vec<(usize, usize)> = Vec::new();
    let mut i: usize = 0;
    while i < lines.len()
        invariant
            ls == lines_view(lines@),
            ls == tokens(text@),
            i <= lines@.len(),
            ps@.len() == i,
            pair_lines_from(ls, 0) == pair_lines_from(ls, i as int),
            forall|a: int| 0 <= a < i ==> (#[trigger] ls[a]).len() == 2,
            forall|a: int| 0 <= a < i ==> (#[trigger] parse_usize(ls[a][0])).is_some() && parse_usize(ls[a][1]).is_some(),
            forall|a: int| 0 <= a < i ==> #[trigger] ps@[a] == (parse_usize(ls[a][0]).unwrap(), parse_usize(ls[a][1]).unwrap()),
        decreases lines@.len() - i,
    {
        let line = &lines[i];
        assert(line_view(line@) == ls[i as int]);
        if line.len() != 2 {
            assert(pair_lines_from(ls, i as int) == i);
            return Some(ps);
        }
        assert(line@[0]@ == ls[i as int][0]);
        assert(line@[1]@ == ls[i as int][1]);
        proof {
            lemma_pair_lines_from(ls, i as int + 1);
            assert(pair_lines_from(ls, i as int) == pair_lines_from(ls, i as int + 1));
        }
        let x = match parse_token(&line[0]) {
            Some(x) => x,
            None => {
                assert(parse_usize(ls[i as int][0]).is_none());
                return None;
            },
        };
        let y = match parse_token(&line[1]) {
            Some(y) => y,
            None => {
                assert(parse_usize(ls[i as int][1]).is_none());
                return None;
            },
        };
        ps.push((x, y));
        i = i + 1;
    }
    assert(pair_lines_from(ls, i as int) == i);
    Some(ps)
}

} // verus!
