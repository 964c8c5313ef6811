use crate::board::BOARD_SIZE;
use vstd::prelude::*;
use vstd::string::*;

verus! {

/// Unicode white space, the separator between the words of a shot.
pub open spec fn is_space(c: char) -> bool {
    ||| '\t' <= c <= '\r'
    ||| c == ' '
    ||| c == '\u{85}'
    ||| c == '\u{a0}'
    ||| c == '\u{1680}'
    ||| '\u{2000}' <= c <= '\u{200a}'
    ||| c == '\u{2028}'
    ||| c == '\u{2029}'
    ||| c == '\u{202f}'
    ||| c == '\u{205f}'
    ||| c == '\u{3000}'
}

/// `s` without its leading white space.
pub open spec fn skip_space(s: Seq<char>) -> Seq<char>
    decreases s.len(),
{
    if s.len() > 0 && is_space(s[0]) {
        skip_space(s.drop_first())
    } else {
        s
    }
}

/// Length of the run of non-space characters that starts `s`.
pub open spec fn word_len(s: Seq<char>) -> nat
    decreases s.len(),
{
    if s.len() > 0 && !is_space(s[0]) {
        1 + word_len(s.drop_first())
    } else {
        0
    }
}

/// The first word of `s`; empty when `s` is all white space.
pub open spec fn first_word(s: Seq<char>) -> Seq<char> {
    let t = skip_space(s);
    t.take(word_len(t) as int)
}

/// What follows the first word of `s`.
pub open spec fn after_first_word(s: Seq<char>) -> Seq<char> {
    let t = skip_space(s);
    t.skip(word_len(t) as int)
}

/// The row that a row word names: one letter from A to J, in either case.
pub open spec fn row_of_word(w: Seq<char>) -> Option<int> {
    if w.len() != 1 {
        None
    } else if 'A' <= w[0] <= 'J' {
        Some(w[0] as int - 'A' as int)
    } else if 'a' <= w[0] <= 'j' {
        Some(w[0] as int - 'a' as int)
    } else {
        None
    }
}

pub open spec fn is_digit(c: char) -> bool {
    '0' <= c <= '9'
}

/// Value of a run of decimal digits.
pub open spec fn digits_value(w: Seq<char>) -> int
    decreases w.len(),
{
    if w.len() == 0 {
        0
    } else {
        digits_value(w.drop_last()) * 10 + (w.last() as int - '0' as int)
    }
}

/// A non-negative decimal number: digits, after an optional `+`.
pub open spec fn digits_of_number(w: Seq<char>) -> Seq<char> {
    if w.len() > 0 && w[0] == '+' {
        w.drop_first()
    } else {
        w
    }
}

/// The column that a column word names: a number below `BOARD_SIZE`.
pub open spec fn column_of_word(w: Seq<char>) -> Option<int> {
    let d = digits_of_number(w);
    if d.len() > 0 && (forall|k: int| 0 <= k < d.len() ==> is_digit(#[trigger] d[k]))
        && digits_value(d) < BOARD_SIZE {
        Some(digits_value(d))
    } else {
        None
    }
}

/// The coordinate that a line of input names: a row word and a column word,
/// separated by white space; anything after them is ignored.
pub open spec fn parsed(s: Seq<char>) -> Option<(usize, usize)> {
    let w1 = first_word(s);
    let w2 = first_word(after_first_word(s));
    match (row_of_word(w1), column_of_word(w2)) {
        (Some(r), Some(c)) => Some((r as usize, c as usize)),
        _ => None,
    }
}

fn is_space_char(c: char) -> (b: bool)
    ensures
        b == is_space(c),
{
    ('\t' <= c && c <= '\r') || c == ' ' || c == '\u{85}' || c == '\u{a0}' || c == '\u{1680}' || (
    '\u{2000}' <= c && c <= '\u{200a}') || c == '\u{2028}' || c == '\u{2029}' || c == '\u{202f}'
        || c == '\u{205f}' || c == '\u{3000}'
}

/// First index at or after `i` that holds no white space.
fn skip_space_from(s: &str, i: usize) -> (j: usize)
    requires
        i <= s@.len(),
        s@.len() <= usize::MAX,
    ensures
        i <= j <= s@.len(),
        s@.skip(j as int) == skip_space(s@.skip(i as int)),
{
    let n = s.unicode_len();
    let mut j = i;
    while j < n && is_space_char(s.get_char(j))
        invariant
            n == s@.len(),
            i <= j <= n,
            skip_space(s@.skip(j as int)) == skip_space(s@.skip(i as int)),
        decreases n - j,
    {
        assert(s@.skip(j as int).drop_first() =~= s@.skip(j + 1));
        j = j + 1;
    }
    assert(j < n ==> s@.skip(j as int)[0] == s@[j as int]);
    j
}

/// First index at or after `i` that holds white space, or the end.
fn word_end_from(s: &str, i: usize) -> (j: usize)
    requires
        i <= s@.len(),
    ensures
        i <= j <= s@.len(),
        j - i == word_len(s@.skip(i as int)),
{
    let n = s.unicode_len();
    let mut j = i;
    while j < n && !is_space_char(s.get_char(j))
        invariant
            n == s@.len(),
            i <= j <= n,
            word_len(s@.skip(i as int)) == (j - i) + word_len(s@.skip(j as int)),
        decreases n - j,
    {
        assert(s@.skip(j as int).drop_first() =~= s@.skip(j + 1));
        j = j + 1;
    }
    assert(j < n ==> s@.skip(j as int)[0] == s@[j as int]);
    j
}

/// The row named by the word `s[start..end]`.
fn row_of(s: &str, start: usize, end: usize) -> (r: Option<usize>)
    requires
        start <= end <= s@.len(),
    ensures
        r == (match row_of_word(s@.subrange(start as int, end as int)) {
            Some(v) => Some(v as usize),
            None => None,
        }),
{
    if end - start != 1 {
        return None;
    }
    let c = s.get_char(start);
    assert(s@.subrange(start as int, end as int)[0] == c);
    if 'A' <= c && c <= 'J' {
        Some((c as u32 - 'A' as u32) as usize)
    } else if 'a' <= c && c <= 'j' {
        Some((c as u32 - 'a' as u32) as usize)
    } else {
        None
    }
}

/// The column named by the word `s[start..end]`.
fn column_of(s: &str, start: usize, end: usize) -> (r: Option<usize>)
    requires
        start <= end <= s@.len(),
    ensures
        r == (match column_of_word(s@.subrange(start as int, end as int)) {
            Some(v) => Some(v as usize),
            None => None,
        }),
{
    let ghost w = s@.subrange(start as int, end as int);
    let mut k = start;
    if k < end && s.get_char(k) == '+' {
        assert(w[0] == '+');
        k = k + 1;
    }
    let ghost d = digits_of_number(w);
    assert(d =~= s@.subrange(k as int, end as int));
    if k == end {
        return None;
    }
    // The value read so far, held at BOARD_SIZE once it gets that large.
    let mut value: usize = 0;
    let mut i = k;
    while i < end
        invariant
            k <= i <= end <= s@.len(),
            w == s@.subrange(start as int, end as int),
            d == digits_of_number(w),
            d == s@.subrange(k as int, end as int),
            forall|m: int| 0 <= m < i - k ==> is_digit(#[trigger] d[m]),
            value <= BOARD_SIZE,
            value == if digits_value(d.take(i - k)) < BOARD_SIZE {
                digits_value(d.take(i - k))
            } else {
                BOARD_SIZE as int
            },
            digits_value(d.take(i - k)) >= 0,
        decreases end - i,
    {
        let c = s.get_char(i);
        assert(d[i - k] == c);
        if !('0' <= c && c <= '9') {
            assert(!is_digit(d[i - k]));
            assert(!(forall|m: int| 0 <= m < d.len() ==> is_digit(#[trigger] d[m])));
            assert(column_of_word(w) is None);
            return None;
        }
        let digit = (c as u32 - '0' as u32) as usize;
        proof {
            let t = d.take(i - k + 1);
            assert(t.drop_last() =~= d.take(i - k));
            assert(t.last() == c);
            assert(digits_value(t) == digits_value(d.take(i - k)) * 10 + digit);
            if digits_value(d.take(i - k)) >= BOARD_SIZE {
                assert(digits_value(d.take(i - k)) * 10 >= BOARD_SIZE) by (nonlinear_arith)
                    requires
                        digits_value(d.take(i - k)) >= BOARD_SIZE,
                ;
            }
        }
        value = if value >= BOARD_SIZE || value * 10 + digit >= BOARD_SIZE {
            BOARD_SIZE
        } else {
            value * 10 + digit
        };
        i = i + 1;
    }
    assert(d.take(end - k) =~= d);
    if value < BOARD_SIZE {
        Some(value)
    } else {
        None
    }
}

/// Reads a shot from a line of the form `<row letter> <column number>`: the
/// letter A to J in either case names rows 0 to 9, the number a column below
/// `BOARD_SIZE`. Returns `None` for any line that does not name such a cell.
pub fn parse_input(input: &str) -> (cell: Option<(usize, usize)>)
    ensures
        cell == parsed(input@),
{
    let n = input.unicode_len();
    let s1 = skip_space_from(input, 0);
    let e1 = word_end_from(input, s1);
    let s2 = skip_space_from(input, e1);
    let e2 = word_end_from(input, s2);
    proof {
        let s = input@;
        assert(s.skip(0) =~= s);
        let t1 = skip_space(s);
        assert(t1 == s.skip(s1 as int));
        assert(first_word(s) =~= s.subrange(s1 as int, e1 as int));
        assert(after_first_word(s) =~= s.skip(e1 as int));
        assert(first_word(after_first_word(s)) =~= s.subrange(s2 as int, e2 as int));
    }
    let row = row_of(input, s1, e1);
    let col = column_of(input, s2, e2);
    match (row, col) {
        (Some(r), Some(c)) => Some((r, c)),
        _ => None,
    }
}

} // verus!
