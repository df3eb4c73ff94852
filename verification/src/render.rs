//! The report: a ranked list rendered as a plain-text table.

use vstd::prelude::*;
use vstd::string::StringExecFns;
use crate::frequency::{entries_of, Entry};

verus! {

/// The width of the column that holds the rank.
pub const RANK_WIDTH: usize = 5;

/// The width of the column that holds the word.
pub const WORD_WIDTH: usize = 15;

/// The character for the decimal digit `d`.
pub open spec fn digit_char(d: nat) -> char {
    if d == 0 {
        '0'
    } else if d == 1 {
        '1'
    } else if d == 2 {
        '2'
    } else if d == 3 {
        '3'
    } else if d == 4 {
        '4'
    } else if d == 5 {
        '5'
    } else if d == 6 {
        '6'
    } else if d == 7 {
        '7'
    } else if d == 8 {
        '8'
    } else {
        '9'
    }
}

/// The decimal numeral of `n`, without leading zeros.
pub open spec fn decimal(n: nat) -> Seq<char>
    decreases n,
{
    if n < 10 {
        seq![digit_char(n)]
    } else {
        decimal(n / 10).push(digit_char(n % 10))
    }
}

/// `n` blanks.
pub open spec fn blanks(n: nat) -> Seq<char> {
    Seq::new(n, |i: int| ' ')
}

/// How many blanks fill a column of `width` characters of which `used` are
/// taken: none where the column is full or overfull.
pub open spec fn padding(used: nat, width: nat) -> nat {
    if used < width {
        (width - used) as nat
    } else {
        0
    }
}

/// `s` left-justified in a column of `width` characters: blanks fill the
/// column behind it. A longer `s` is kept whole.
pub open spec fn left_justified(s: Seq<char>, width: nat) -> Seq<char> {
    s + blanks(padding(s.len(), width))
}

/// The header line of the table.
pub open spec fn header_line() -> Seq<char> {
    left_justified(seq!['N', 'o', '.'], RANK_WIDTH as nat) + left_justified(
        seq!['W', 'o', 'r', 'd'],
        WORD_WIDTH as nat,
    ) + seq!['C', 'o', 'u', 'n', 't', '\n']
}

/// The line for `entry` at rank `rank`.
pub open spec fn row_line(rank: nat, entry: Entry) -> Seq<char> {
    left_justified(decimal(rank), RANK_WIDTH as nat) + left_justified(
        entry.word,
        WORD_WIDTH as nat,
    ) + decimal(entry.count).push('\n')
}

/// The lines for the first `n` entries of `ranked`, ranks counted from one.
pub open spec fn row_lines(ranked: Seq<Entry>, n: nat) -> Seq<char>
    decreases n,
{
    if n == 0 {
        Seq::empty()
    } else {
        row_lines(ranked, (n - 1) as nat) + row_line(n, ranked[n - 1])
    }
}

/// How many entries are shown: all of them, but no more than `limit`.
pub open spec fn shown(len: nat, limit: nat) -> nat {
    if limit < len {
        limit
    } else {
        len
    }
}

/// The table for `ranked` with at most `limit` rows: the header line, then
/// one line for each entry shown.
pub open spec fn table_text(ranked: Seq<Entry>, limit: nat) -> Seq<char> {
    header_line() + row_lines(ranked, shown(ranked.len(), limit))
}

/// The character for a decimal digit.
fn digit(d: u64) -> (c: char)
    requires
        d < 10,
    ensures
        c == digit_char(d as nat),
{
    if d == 0 {
        '0'
    } else if d == 1 {
        '1'
    } else if d == 2 {
        '2'
    } else if d == 3 {
        '3'
    } else if d == 4 {
        '4'
    } else if d == 5 {
        '5'
    } else if d == 6 {
        '6'
    } else if d == 7 {
        '7'
    } else if d == 8 {
        '8'
    } else {
        '9'
    }
}

/// Appends the decimal numeral of `n` to `out`, and returns the number of
/// its digits.
fn push_decimal(out: &mut String, n: u64) -> (digits: usize)
    ensures
        final(out)@ == old(out)@ + decimal(n as nat),
        digits == decimal(n as nat).len(),
        1 <= digits <= 20,
    decreases n,
{
    let mut digits: usize = 1;
    if n >= 10 {
        let leading = push_decimal(out, n / 10);
        proof {
            lemma_decimal_len(n as nat);
        }
        digits = leading + 1;
    }
    out.push(digit(n % 10));
    assert(out@ =~= old(out)@ + decimal(n as nat));
    digits
}

/// A numeral has at least one digit, and the numeral of a 64-bit number has
/// at most twenty.
proof fn lemma_decimal_len(n: nat)
    ensures
        decimal(n).len() >= 1,
        n <= u64::MAX ==> decimal(n).len() <= 20,
{
    reveal_with_fuel(decimal, 21);
}

/// Appends blanks to `out` until `used` characters have grown to `width`.
fn push_blanks(out: &mut String, used: usize, width: usize)
    ensures
        final(out)@ == old(out)@ + blanks(padding(used as nat, width as nat)),
{
    let mut k: usize = used;
    assert(out@ =~= old(out)@ + blanks(0));
    while k < width
        invariant
            used <= k,
            used < width ==> k <= width,
            used >= width ==> k == used,
            out@ == old(out)@ + blanks((k - used) as nat),
        decreases width - k,
    {
        out.push(' ');
        k = k + 1;
        assert(out@ =~= old(out)@ + blanks((k - used) as nat));
    }
}

/// Appends the header line to `out`.
fn push_header(out: &mut String)
    ensures
        final(out)@ == old(out)@ + header_line(),
{
    proof {
        reveal_strlit("No.");
        reveal_strlit("Word");
        reveal_strlit("Count\n");
    }
    out.append("No.");
    push_blanks(out, 3, RANK_WIDTH);
    out.append("Word");
    push_blanks(out, 4, WORD_WIDTH);
    out.append("Count\n");
    assert(out@ =~= old(out)@ + header_line());
}

/// Appends the line for the word `word`, counted `count` times, at rank
/// `rank`.
fn push_row(out: &mut String, rank: usize, word: &str, count: u32)
    ensures
        final(out)@ == old(out)@ + row_line(
            rank as nat,
            Entry { word: word@, count: count as nat },
        ),
{
    let rank_digits = push_decimal(out, rank as u64);
    push_blanks(out, rank_digits, RANK_WIDTH);
    out.append(word);
    push_blanks(out, word.unicode_len(), WORD_WIDTH);
    let _ = push_decimal(out, count as u64);
    out.push('\n');
    assert(out@ =~= old(out)@ + row_line(
        rank as nat,
        Entry { word: word@, count: count as nat },
    ));
}

/// Renders `ranked` as a table of at most `limit` rows: a header line, then
/// one line for each of the first entries, with its rank, counted from one,
/// its word and its count. Rank and word stand left-justified in columns of
/// five and fifteen characters.
pub fn render_table(ranked: &Vec<(String, u32)>, limit: usize) -> (text: String)
    ensures
        text@ == table_text(entries_of(ranked@), limit as nat),
{
    let ghost entries = entries_of(ranked@);
    let rows = if limit < ranked.len() {
        limit
    } else {
        ranked.len()
    };
    let mut text = String::new();
    push_header(&mut text);
    let mut i: usize = 0;
    assert(text@ =~= header_line() + row_lines(entries, 0));
    while i < rows
        invariant
            i <= rows <= ranked@.len(),
            entries == entries_of(ranked@),
            text@ == header_line() + row_lines(entries, i as nat),
        decreases rows - i,
    {
        let ghost before = text@;
        push_row(&mut text, i + 1, ranked[i].0.as_str(), ranked[i].1);
        proof {
            assert(entries[i as int] == Entry {
                word: ranked@[i as int].0@,
                count: ranked@[i as int].1 as nat,
            });
            assert(text@ =~= header_line() + row_lines(entries, (i + 1) as nat));
        }
        i = i + 1;
    }
    text
}

/// Rendering depends on nothing but the list and the limit: two renderings of
/// one list with one limit are the same text.
pub proof fn lemma_render_repeatable(
    first: Seq<char>,
    second: Seq<char>,
    ranked: Seq<Entry>,
    limit: nat,
)
    requires
        first == table_text(ranked, limit),
        second == table_text(ranked, limit),
    ensures
        first == second,
{
}

} // verus!
