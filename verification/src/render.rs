//! The grid as text: the cards of the squares in a frame, a compact board, and
//! the givens alone.

use crate::board::{digit_char, Board};
use crate::cell::Cell;
use crate::grid::Grid;
use crate::mask::{allows, mask_allows};
use crate::text::{chars_of, push_all, text_of};
use colored::Colorize;
use vstd::prelude::*;

verus! {

/// How a square is shown: a given, a square that changed a moment ago, or neither.
#[derive(Clone, Copy, Debug, PartialEq, Eq)]
pub enum Tone {
    Given,
    Dirty,
    Plain,
}

/// The digit `v` as three lines of three line-drawing characters.
pub open spec fn glyph(v: u8) -> Seq<char> {
    if v == 1 {
        seq![' ', '┓', ' ', '\n', ' ', '┃', ' ', '\n', ' ', '┻', ' ']
    } else if v == 2 {
        seq!['┏', '━', '┓', '\n', '┏', '━', '┛', '\n', '┗', '━', '━']
    } else if v == 3 {
        seq!['┏', '━', '┓', '\n', ' ', '━', '┫', '\n', '┗', '━', '┛']
    } else if v == 4 {
        seq!['╻', ' ', '╻', '\n', '┗', '━', '╋', '\n', ' ', ' ', '╹']
    } else if v == 5 {
        seq!['┏', '━', '╸', '\n', '┗', '━', '┓', '\n', '┗', '━', '┛']
    } else if v == 6 {
        seq!['┏', '━', '┓', '\n', '┣', '━', '┓', '\n', '┗', '━', '┛']
    } else if v == 7 {
        seq!['╺', '━', '┓', '\n', ' ', ' ', '┃', '\n', ' ', ' ', '╹']
    } else if v == 8 {
        seq!['┏', '━', '┓', '\n', '┣', '━', '┫', '\n', '┗', '━', '┛']
    } else if v == 9 {
        seq!['┏', '━', '┓', '\n', '┗', '━', '┫', '\n', '┗', '━', '┛']
    } else {
        Seq::empty()
    }
}

/// The digit `v` as three lines of three line-drawing characters.
pub fn glyph_chars(v: u8) -> (card: Vec<char>)
    ensures
        card@ == glyph(v),
{
    let card: Vec<char> = if v == 1 {
        vec![' ', '┓', ' ', '\n', ' ', '┃', ' ', '\n', ' ', '┻', ' ']
    } else if v == 2 {
        vec!['┏', '━', '┓', '\n', '┏', '━', '┛', '\n', '┗', '━', '━']
    } else if v == 3 {
        vec!['┏', '━', '┓', '\n', ' ', '━', '┫', '\n', '┗', '━', '┛']
    } else if v == 4 {
        vec!['╻', ' ', '╻', '\n', '┗', '━', '╋', '\n', ' ', ' ', '╹']
    } else if v == 5 {
        vec!['┏', '━', '╸', '\n', '┗', '━', '┓', '\n', '┗', '━', '┛']
    } else if v == 6 {
        vec!['┏', '━', '┓', '\n', '┣', '━', '┓', '\n', '┗', '━', '┛']
    } else if v == 7 {
        vec!['╺', '━', '┓', '\n', ' ', ' ', '┃', '\n', ' ', ' ', '╹']
    } else if v == 8 {
        vec!['┏', '━', '┓', '\n', '┣', '━', '┫', '\n', '┗', '━', '┛']
    } else if v == 9 {
        vec!['┏', '━', '┓', '\n', '┗', '━', '┫', '\n', '┗', '━', '┛']
    } else {
        Vec::new()
    };
    assert(card@ =~= glyph(v));
    card
}

/// The upper edge of the frame.
pub open spec fn top_line() -> Seq<char> {
    seq!['╔', '═', '═', '═', '═', '═', '═', '═', '═', '═', '═', '═', '╦', '═', '═', '═', '═', '═', '═', '═', '═', '═', '═', '═', '╦', '═', '═', '═', '═', '═', '═', '═', '═', '═', '═', '═', '╗']
}

/// The upper edge of the frame.
fn top_line_chars() -> (line: Vec<char>)
    ensures
        line@ == top_line(),
{
    let line: Vec<char> = vec!['╔', '═', '═', '═', '═', '═', '═', '═', '═', '═', '═', '═', '╦', '═', '═', '═', '═', '═', '═', '═', '═', '═', '═', '═', '╦', '═', '═', '═', '═', '═', '═', '═', '═', '═', '═', '═', '╗'];
    assert(line@ =~= top_line());
    line
}

/// The line between two bands of regions.
pub open spec fn mid_line() -> Seq<char> {
    seq!['╠', '═', '═', '═', '═', '═', '═', '═', '═', '═', '═', '═', '╬', '═', '═', '═', '═', '═', '═', '═', '═', '═', '═', '═', '╬', '═', '═', '═', '═', '═', '═', '═', '═', '═', '═', '═', '╣']
}

/// The line between two bands of regions.
fn mid_line_chars() -> (line: Vec<char>)
    ensures
        line@ == mid_line(),
{
    let line: Vec<char> = vec!['╠', '═', '═', '═', '═', '═', '═', '═', '═', '═', '═', '═', '╬', '═', '═', '═', '═', '═', '═', '═', '═', '═', '═', '═', '╬', '═', '═', '═', '═', '═', '═', '═', '═', '═', '═', '═', '╣'];
    assert(line@ =~= mid_line());
    line
}

/// The line between two rows of a band.
pub open spec fn thin_line() -> Seq<char> {
    seq!['║', '┄', '┄', '┄', ' ', '┄', '┄', '┄', ' ', '┄', '┄', '┄', '║', '┄', '┄', '┄', ' ', '┄', '┄', '┄', ' ', '┄', '┄', '┄', '║', '┄', '┄', '┄', ' ', '┄', '┄', '┄', ' ', '┄', '┄', '┄', '║']
}

/// The line between two rows of a band.
fn thin_line_chars() -> (line: Vec<char>)
    ensures
        line@ == thin_line(),
{
    let line: Vec<char> = vec!['║', '┄', '┄', '┄', ' ', '┄', '┄', '┄', ' ', '┄', '┄', '┄', '║', '┄', '┄', '┄', ' ', '┄', '┄', '┄', ' ', '┄', '┄', '┄', '║', '┄', '┄', '┄', ' ', '┄', '┄', '┄', ' ', '┄', '┄', '┄', '║'];
    assert(line@ =~= thin_line());
    line
}

/// The lower edge of the frame.
pub open spec fn bottom_line() -> Seq<char> {
    seq!['╚', '═', '═', '═', '═', '═', '═', '═', '═', '═', '═', '═', '╩', '═', '═', '═', '═', '═', '═', '═', '═', '═', '═', '═', '╩', '═', '═', '═', '═', '═', '═', '═', '═', '═', '═', '═', '╝']
}

/// The lower edge of the frame.
fn bottom_line_chars() -> (line: Vec<char>)
    ensures
        line@ == bottom_line(),
{
    let line: Vec<char> = vec!['╚', '═', '═', '═', '═', '═', '═', '═', '═', '═', '═', '═', '╩', '═', '═', '═', '═', '═', '═', '═', '═', '═', '═', '═', '╩', '═', '═', '═', '═', '═', '═', '═', '═', '═', '═', '═', '╝'];
    assert(line@ =~= bottom_line());
    line
}

/// The rule of the compact board.
pub open spec fn dash_line() -> Seq<char> {
    seq!['-', '-', '-', '-', '-', '-', '-', '-', '-', '-', '-', '-', '-', '-', '-', '-', '-', '-', '-', '-', '-', '-', '-', '-', '-']
}

/// The rule of the compact board.
fn dash_line_chars() -> (line: Vec<char>)
    ensures
        line@ == dash_line(),
{
    let line: Vec<char> = vec!['-', '-', '-', '-', '-', '-', '-', '-', '-', '-', '-', '-', '-', '-', '-', '-', '-', '-', '-', '-', '-', '-', '-', '-', '-'];
    assert(line@ =~= dash_line());
    line
}


/// The text in the colour of a given. This is `Colorize::green` of the colored
/// crate, formatted to a string: the text itself, between the marks that set and
/// reset the colour where colours are switched on, which the crate reads from the
/// environment and the terminal. Nothing is promised of it here.
#[verifier::external_body]
fn paint_given(text: &str) -> String {
    text.green().to_string()
}

/// The text in the colour of a square that changed a moment ago. This is
/// `Colorize::blue` of the colored crate, formatted to a string; as for
/// `paint_given`, nothing is promised of it here.
#[verifier::external_body]
fn paint_dirty(text: &str) -> String {
    text.blue().to_string()
}

/// The place at or after `i` of the first line feed of `s`; the length of `s` where
/// there is none.
pub open spec fn line_end(s: Seq<char>, i: int) -> int
    decreases s.len() - i,
{
    if i < 0 || i >= s.len() {
        s.len() as int
    } else if s[i] == '\n' {
        i
    } else {
        line_end(s, i + 1)
    }
}

/// The lines of `s` from place `i` on: the pieces between its line feeds.
pub open spec fn lines_from(s: Seq<char>, i: int) -> Seq<Seq<char>>
    decreases s.len() - i,
{
    let e = line_end(s, i);
    if 0 <= i <= e < s.len() {
        seq![s.subrange(i, e)] + lines_from(s, e + 1)
    } else if 0 <= i <= s.len() {
        seq![s.subrange(i, s.len() as int)]
    } else {
        Seq::empty()
    }
}

/// Line `r` of the text `card`; empty where it has fewer lines.
pub open spec fn card_line(card: Seq<char>, r: int) -> Seq<char> {
    let lines = lines_from(card, 0);
    if 0 <= r < lines.len() {
        lines[r]
    } else {
        Seq::empty()
    }
}

/// The end of a line is a line feed or the end of the text, and no line feed
/// comes before it.
pub proof fn lemma_line_end(s: Seq<char>, i: int)
    requires
        0 <= i <= s.len(),
    ensures
        i <= line_end(s, i) <= s.len(),
        line_end(s, i) < s.len() ==> s[line_end(s, i)] == '\n',
        forall|k: int| i <= k < line_end(s, i) ==> s[k] != '\n',
    decreases s.len() - i,
{
    if i < s.len() && s[i] != '\n' {
        lemma_line_end(s, i + 1);
    }
}

/// The texts of a list of lists of characters.
pub open spec fn texts(list: Seq<Vec<char>>) -> Seq<Seq<char>> {
    Seq::new(list.len(), |i: int| list[i]@)
}

/// The lines of `text`: the pieces between its line feeds.
pub fn split_lines(text: &Vec<char>) -> (lines: Vec<Vec<char>>)
    ensures
        texts(lines@) == lines_from(text@, 0),
{
    let mut lines: Vec<Vec<char>> = Vec::new();
    let mut line: Vec<char> = Vec::new();
    let mut start: usize = 0;
    let mut i: usize = 0;
    while i < text.len()
        invariant
            start <= i <= text.len(),
            line@ == text@.subrange(start as int, i as int),
            forall|k: int| start <= k < i ==> text@[k] != '\n',
            texts(lines@) + lines_from(text@, start as int) == lines_from(text@, 0),
        decreases text.len() - i,
    {
        let ch: char = text[i];
        if ch == '\n' {
            proof {
                lemma_line_end(text@, start as int);
                let e = line_end(text@, start as int);
                if e < i {
                    assert(text@[e] != '\n');
                }
                assert(e == i);
                assert(texts(lines@.push(line)) =~= texts(lines@) + seq![line@]);
                assert(lines_from(text@, start as int) == seq![line@] + lines_from(
                    text@,
                    i as int + 1,
                ));
                assert(texts(lines@) + (seq![line@] + lines_from(text@, i as int + 1)) =~= (texts(
                    lines@,
                ) + seq![line@]) + lines_from(text@, i as int + 1));
            }
            lines.push(line);
            line = Vec::new();
            start = i + 1;
            assert(line@ =~= text@.subrange(start as int, start as int));
        } else {
            line.push(ch);
            assert(line@ =~= text@.subrange(start as int, i as int + 1));
        }
        i = i + 1;
    }
    proof {
        lemma_line_end(text@, start as int);
        let e = line_end(text@, start as int);
        if e < text.len() {
            assert(text@[e] != '\n');
        }
        assert(lines_from(text@, start as int) == seq![line@]);
        assert(texts(lines@.push(line)) =~= texts(lines@) + seq![line@]);
    }
    lines.push(line);
    lines
}

impl Cell {
    /// How the square is shown.
    pub open spec fn tone_of(self) -> Tone {
        if self.is_given {
            Tone::Given
        } else if self.is_dirty {
            Tone::Dirty
        } else {
            Tone::Plain
        }
    }

    /// The character for the digit `d` on the card of an unassigned square: the
    /// digit where it is a candidate, a space where it is not.
    pub open spec fn candidate_char(self, d: u8) -> char {
        if allows(self.candidates, d) {
            digit_char(d)
        } else {
            ' '
        }
    }

    /// The card of the square without colour, three lines of three characters: its
    /// candidates for an unassigned square, each digit at its place; its value in
    /// line-drawing characters for an assigned one.
    pub open spec fn plain_card(self) -> Seq<char> {
        if self.value == 0 {
            seq![
                self.candidate_char(1),
                self.candidate_char(2),
                self.candidate_char(3),
                '\n',
                self.candidate_char(4),
                self.candidate_char(5),
                self.candidate_char(6),
                '\n',
                self.candidate_char(7),
                self.candidate_char(8),
                self.candidate_char(9),
            ]
        } else {
            glyph(self.value)
        }
    }

    /// How the square is shown.
    pub fn tone(&self) -> (t: Tone)
        ensures
            t == self.tone_of(),
    {
        if self.is_given {
            Tone::Given
        } else if self.is_dirty {
            Tone::Dirty
        } else {
            Tone::Plain
        }
    }

    /// The card of the square without colour.
    pub fn plain_card_chars(&self) -> (card: Vec<char>)
        ensures
            card@ == self.plain_card(),
    {
        if self.value != 0 {
            return glyph_chars(self.value);
        }
        let mut card: Vec<char> = Vec::new();
        let mut d: u8 = 1;
        while d <= 9
            invariant
                1 <= d <= 10,
                card@.len() == (d - 1) + (d - 1) / 3 - if d == 10 {
                    1int
                } else {
                    0int
                },
                forall|k: int|
                    0 <= k < card@.len() ==> #[trigger] card@[k] == if k % 4 == 3 {
                        '\n'
                    } else {
                        self.candidate_char((k - k / 4 + 1) as u8)
                    },
            decreases 10 - d,
        {
            let ch: char = if mask_allows(self.candidates, d) {
                digit_to_char(d)
            } else {
                ' '
            };
            card.push(ch);
            if d % 3 == 0 && d < 9 {
                card.push('\n');
            }
            d = d + 1;
        }
        assert(card@ =~= self.plain_card());
        card
    }

    /// The card in the colour of the square: line by line in the colour of a given
    /// or of a changed square, and as it is for any other square.
    pub fn color_card(&self, card: String) -> (r: String)
        ensures
            self.tone_of() == Tone::Plain ==> r@ == card@,
            self.tone_of() != Tone::Plain ==> exists|painted: Seq<Seq<char>>|
                painted.len() == lines_from(card@, 0).len() && r@ == #[trigger] joined(
                    painted,
                    painted.len() as int,
                ),
    {
        let tone: Tone = self.tone();
        match tone {
            Tone::Plain => card,
            _ => {
                let text: Vec<char> = chars_of(card.as_str());
                let lines: Vec<Vec<char>> = split_lines(&text);
                let mut painted: Vec<Vec<char>> = Vec::new();
                let mut k: usize = 0;
                while k < lines.len()
                    invariant
                        k <= lines.len(),
                        painted.len() == k,
                    decreases lines.len() - k,
                {
                    let line: String = text_of(&lines[k]);
                    let shown: String = match tone {
                        Tone::Given => paint_given(line.as_str()),
                        _ => paint_dirty(line.as_str()),
                    };
                    painted.push(chars_of(shown.as_str()));
                    k = k + 1;
                }
                let out: Vec<char> = join_lines(&painted);
                proof {
                    assert(texts(lines@).len() == lines.len());
                    assert(texts(painted@).len() == lines_from(card@, 0).len());
                }
                text_of(&out)
            },
        }
    }

    /// The card of the square, in its colour.
    pub fn get_print_card(&self) -> (r: String)
        ensures
            self.tone_of() == Tone::Plain ==> r@ == self.plain_card(),
    {
        let card: Vec<char> = self.plain_card_chars();
        self.color_card(text_of(&card))
    }
}

/// The first `n` of the lines joined, a line feed between each two.
pub open spec fn joined(lines: Seq<Seq<char>>, n: int) -> Seq<char>
    decreases n,
{
    if n <= 0 {
        Seq::empty()
    } else if n == 1 {
        lines[0]
    } else {
        joined(lines, n - 1) + seq!['\n'] + lines[n - 1]
    }
}

/// The lines joined to one text, a line feed between each two.
pub fn join_lines(lines: &Vec<Vec<char>>) -> (text: Vec<char>)
    ensures
        text@ == joined(texts(lines@), lines.len() as int),
{
    let mut text: Vec<char> = Vec::new();
    let mut k: usize = 0;
    while k < lines.len()
        invariant
            k <= lines.len(),
            text@ == joined(texts(lines@), k as int),
        decreases lines.len() - k,
    {
        let ghost before = text@;
        if k > 0 {
            text.push('\n');
        }
        push_all(&mut text, &lines[k]);
        proof {
            assert(texts(lines@)[k as int] == lines@[k as int]@);
            if k == 0 {
                assert(text@ =~= lines@[0]@);
            } else {
                assert(text@ =~= before + seq!['\n'] + lines@[k as int]@);
            }
        }
        k = k + 1;
    }
    text
}

/// The character of the digit `d`.
pub fn digit_to_char(d: u8) -> (ch: char)
    ensures
        ch == digit_char(d),
{
    if d == 1 {
        '1'
    } else if d == 2 {
        '2'
    } else if d == 3 {
        '3'
    } else if d == 4 {
        '4'
    } else if d == 5 {
        '5'
    } else if d == 6 {
        '6'
    } else if d == 7 {
        '7'
    } else if d == 8 {
        '8'
    } else if d == 9 {
        '9'
    } else {
        '0'
    }
}

/// Line `r` of the cards of row `i` of the grid, up to card `j`: the left edge,
/// then each card's line and the bar after it, a heavy one after every third.
pub open spec fn band_row(cards: Seq<Seq<char>>, i: int, r: int, j: int) -> Seq<char>
    decreases j,
{
    if j <= 0 {
        seq!['║']
    } else {
        band_row(cards, i, r, j - 1) + card_line(cards[9 * i + j - 1], r) + seq![
            if (j - 1) % 3 == 2 {
                '║'
            } else {
                '┆'
            },
        ]
    }
}

/// The lines that lead to row `i` of the grid: the line between two bands before
/// the rows 3 and 6, the thin line before the other rows but the first.
pub open spec fn band_head(i: int) -> Seq<char> {
    if i == 3 || i == 6 {
        mid_line() + seq!['\n']
    } else if i % 3 != 0 {
        thin_line() + seq!['\n']
    } else {
        Seq::empty()
    }
}

/// The text of the first `n` rows of the grid under the upper edge, every line
/// with its line feed.
pub open spec fn bands(cards: Seq<Seq<char>>, n: int) -> Seq<char>
    decreases n,
{
    if n <= 0 {
        top_line() + seq!['\n']
    } else {
        bands(cards, n - 1) + band_head(n - 1) + band_row(cards, n - 1, 0, 9) + seq!['\n']
            + band_row(cards, n - 1, 1, 9) + seq!['\n'] + band_row(cards, n - 1, 2, 9) + seq![
            '\n',
        ]
    }
}

/// The 81 cards in their frame.
pub open spec fn card_grid(cards: Seq<Seq<char>>) -> Seq<char> {
    bands(cards, 9) + bottom_line()
}

/// Line `r` of the cards of row `i`.
fn band_row_chars(cards: &Vec<Vec<char>>, i: usize, r: usize) -> (line: Vec<char>)
    requires
        cards.len() == 81,
        i < 9,
    ensures
        line@ == band_row(texts(cards@), i as int, r as int, 9),
{
    let mut line: Vec<char> = Vec::new();
    line.push('║');
    let mut j: usize = 0;
    assert(line@ =~= band_row(texts(cards@), i as int, r as int, 0));
    while j < 9
        invariant
            j <= 9,
            i < 9,
            cards.len() == 81,
            line@ == band_row(texts(cards@), i as int, r as int, j as int),
        decreases 9 - j,
    {
        let lines: Vec<Vec<char>> = split_lines(&cards[9 * i + j]);
        let ghost before = line@;
        let ghost piece = card_line(texts(cards@)[9 * i + j], r as int);
        assert(texts(cards@)[9 * i + j] == cards@[9 * i + j]@);
        if r < lines.len() {
            assert(texts(lines@)[r as int] == lines@[r as int]@);
            push_all(&mut line, &lines[r]);
        } else {
            assert(line@ =~= before + piece);
        }
        line.push(
            if j % 3 == 2 {
                '║'
            } else {
                '┆'
            },
        );
        assert(line@ =~= before + piece + seq![
            if j as int % 3 == 2 {
                '║'
            } else {
                '┆'
            },
        ]);
        j = j + 1;
    }
    line
}

/// The 81 cards in their frame: three lines for each row of the grid, with lines
/// between the rows and an edge around.
pub fn layout_cards(cards: &Vec<Vec<char>>) -> (text: Vec<char>)
    requires
        cards.len() == 81,
    ensures
        text@ == card_grid(texts(cards@)),
{
    let mut text: Vec<char> = top_line_chars();
    text.push('\n');
    let mut i: usize = 0;
    while i < 9
        invariant
            i <= 9,
            cards.len() == 81,
            text@ == bands(texts(cards@), i as int),
        decreases 9 - i,
    {
        let ghost before = text@;
        if i == 3 || i == 6 {
            let head: Vec<char> = mid_line_chars();
            push_all(&mut text, &head);
            text.push('\n');
        } else if i % 3 != 0 {
            let head: Vec<char> = thin_line_chars();
            push_all(&mut text, &head);
            text.push('\n');
        }
        assert(text@ =~= before + band_head(i as int));
        let mut r: usize = 0;
        while r < 3
            invariant
                r <= 3,
                i < 9,
                cards.len() == 81,
                text@ == before + band_head(i as int) + if r >= 1 {
                    band_row(texts(cards@), i as int, 0, 9) + seq!['\n']
                } else {
                    Seq::empty()
                } + if r >= 2 {
                    band_row(texts(cards@), i as int, 1, 9) + seq!['\n']
                } else {
                    Seq::empty()
                } + if r >= 3 {
                    band_row(texts(cards@), i as int, 2, 9) + seq!['\n']
                } else {
                    Seq::empty()
                },
            decreases 3 - r,
        {
            let ghost so_far = text@;
            let line: Vec<char> = band_row_chars(cards, i, r);
            push_all(&mut text, &line);
            text.push('\n');
            assert(text@ =~= so_far + (line@ + seq!['\n']));
            r = r + 1;
        }
        assert(text@ =~= bands(texts(cards@), i as int + 1));
        i = i + 1;
    }
    let foot: Vec<char> = bottom_line_chars();
    push_all(&mut text, &foot);
    text
}

/// The character that shows the value of a square on the compact board.
pub open spec fn value_char(c: Cell) -> char {
    digit_char(c.value)
}

/// The compact board up to square `n`: a rule, then each row between bars, a bar
/// after every third square and a rule after every third row.
pub open spec fn compact(cells: Seq<Cell>, n: int) -> Seq<char>
    decreases n,
{
    if n <= 0 {
        dash_line() + seq!['\n']
    } else {
        let k = n - 1;
        compact(cells, k) + (if k % 9 == 0 {
            seq!['|', ' ']
        } else {
            Seq::empty()
        }) + seq![value_char(cells[k]), ' '] + (if k % 3 == 2 {
            seq!['|', ' ']
        } else {
            Seq::empty()
        }) + (if k % 9 == 8 {
            seq!['\n']
        } else {
            Seq::empty()
        }) + (if k % 27 == 26 {
            dash_line() + seq!['\n']
        } else {
            Seq::empty()
        })
    }
}

/// The givens up to square `n`: one character for each square, the digit of a
/// given and `0` for any other square, and a line feed after every ninth.
pub open spec fn givens_text(cells: Seq<Cell>, n: int) -> Seq<char>
    decreases n,
{
    if n <= 0 {
        Seq::empty()
    } else {
        let k = n - 1;
        givens_text(cells, k) + seq![given_char(cells[k])] + (if k % 9 == 8 {
            seq!['\n']
        } else {
            Seq::empty()
        })
    }
}

/// The character of a square among the givens.
pub open spec fn given_char(c: Cell) -> char {
    if c.is_given {
        digit_char(c.value)
    } else {
        '0'
    }
}

/// The cards of the squares without colour.
pub open spec fn plain_cards(b: Board) -> Seq<Seq<char>> {
    Seq::new(81, |i: int| b.cells[i].plain_card())
}

impl Grid {
    /// The grid as cards in a frame, without colour.
    pub fn plain_string(&self) -> (s: String)
        ensures
            s@ == card_grid(plain_cards(self@)),
    {
        let mut cards: Vec<Vec<char>> = Vec::new();
        let mut i: usize = 0;
        while i < 81
            invariant
                i <= 81,
                cards.len() == i,
                forall|k: int| 0 <= k < i ==> (#[trigger] cards[k])@ == self@.cells[k].plain_card(),
            decreases 81 - i,
        {
            cards.push(self.cells[i].plain_card_chars());
            i = i + 1;
        }
        assert(texts(cards@) =~= plain_cards(self@));
        let text: Vec<char> = layout_cards(&cards);
        text_of(&text)
    }

    /// The grid as cards in a frame, each card in the colour of its square. The card
    /// of a square that is neither a given nor dirty is its plain card.
    pub fn to_string(&self) -> (s: String)
        ensures
            exists|cards: Seq<Seq<char>>|
                cards.len() == 81 && s@ == #[trigger] card_grid(cards) && forall|k: int|
                    0 <= k < 81 && self@.cells[k].tone_of() == Tone::Plain ==> #[trigger] cards[k]
                        == self@.cells[k].plain_card(),
    {
        let mut cards: Vec<Vec<char>> = Vec::new();
        let mut i: usize = 0;
        while i < 81
            invariant
                i <= 81,
                cards.len() == i,
                forall|k: int|
                    0 <= k < i && self@.cells[k].tone_of() == Tone::Plain ==> (#[trigger] cards[k])@
                        == self@.cells[k].plain_card(),
            decreases 81 - i,
        {
            let card: String = self.cells[i].get_print_card();
            cards.push(chars_of(card.as_str()));
            i = i + 1;
        }
        let text: Vec<char> = layout_cards(&cards);
        proof {
            let shown = texts(cards@);
            assert forall|k: int|
                0 <= k < 81 && self@.cells[k].tone_of() == Tone::Plain implies #[trigger] shown[k]
                == self@.cells[k].plain_card() by {
                assert(shown[k] == cards[k]@);
            }
            assert(text@ == card_grid(shown));
        }
        text_of(&text)
    }

    /// The compact board: every value as a digit, 0 for an unassigned square,
    /// between bars and rules.
    pub fn board_text(&self) -> (s: String)
        ensures
            s@ == compact(self@.cells, 81),
    {
        let mut text: Vec<char> = dash_line_chars();
        text.push('\n');
        let mut k: usize = 0;
        while k < 81
            invariant
                k <= 81,
                text@ == compact(self@.cells, k as int),
            decreases 81 - k,
        {
            let ghost before = text@;
            if k % 9 == 0 {
                text.push('|');
                text.push(' ');
            }
            text.push(digit_to_char(self.cells[k].value));
            text.push(' ');
            if k % 3 == 2 {
                text.push('|');
                text.push(' ');
            }
            if k % 9 == 8 {
                text.push('\n');
            }
            if k % 27 == 26 {
                let rule: Vec<char> = dash_line_chars();
                push_all(&mut text, &rule);
                text.push('\n');
            }
            assert(text@ =~= compact(self@.cells, k as int + 1));
            k = k + 1;
        }
        text_of(&text)
    }

    /// The givens as nine lines of nine characters, which `from_string` reads back.
    pub fn givens_string(&self) -> (s: String)
        ensures
            s@ == givens_text(self@.cells, 81),
    {
        let mut text: Vec<char> = Vec::new();
        let mut k: usize = 0;
        while k < 81
            invariant
                k <= 81,
                text@ == givens_text(self@.cells, k as int),
            decreases 81 - k,
        {
            let ch: char = if self.cells[k].is_given {
                digit_to_char(self.cells[k].value)
            } else {
                '0'
            };
            text.push(ch);
            if k % 9 == 8 {
                text.push('\n');
            }
            assert(text@ =~= givens_text(self@.cells, k as int + 1));
            k = k + 1;
        }
        text_of(&text)
    }
}

} // verus!
