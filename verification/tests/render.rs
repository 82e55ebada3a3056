use sudoku::cell::Cell;
use sudoku::grid::Grid;
use sudoku::position::Position;
use sudoku::render::{glyph_chars, join_lines, layout_cards, split_lines, Tone};
use sudoku::text::{chars_of, push_all, text_of};

const EASY: &str = "530070000\n600195000\n098000060\n800060003\n400803001\n700020006\n060000280\n000419005\n000080079\n";

fn chars(s: &str) -> Vec<char> {
    s.chars().collect()
}

#[test]
fn text_helpers() {
    assert_eq!(chars_of("a║b"), vec!['a', '║', 'b']);
    assert_eq!(chars_of(""), Vec::<char>::new());
    assert_eq!(text_of(&vec!['x', '┆', '9']), "x┆9");
    let mut out = vec!['1'];
    push_all(&mut out, &vec!['2', '3']);
    assert_eq!(out, vec!['1', '2', '3']);
}

#[test]
fn lines_are_split_at_line_feeds() {
    let lines = |s: &str| -> Vec<String> {
        split_lines(&chars(s)).iter().map(|l| l.iter().collect()).collect()
    };
    assert_eq!(lines("ab\ncd"), vec!["ab", "cd"]);
    assert_eq!(lines("ab\n"), vec!["ab", ""]);
    assert_eq!(lines(""), vec![""]);
    assert_eq!(lines("\n\n"), vec!["", "", ""]);
    assert_eq!(lines("one"), vec!["one"]);
}

#[test]
fn lines_are_joined_with_line_feeds() {
    let join = |lines: &[&str]| -> String {
        let list: Vec<Vec<char>> = lines.iter().map(|l| chars(l)).collect();
        join_lines(&list).iter().collect()
    };
    assert_eq!(join(&["ab", "cd"]), "ab\ncd");
    assert_eq!(join(&["ab", "", "x"]), "ab\n\nx");
    assert_eq!(join(&["one"]), "one");
    assert_eq!(join(&[]), "");
    assert_eq!(join(&["", ""]), "\n");
    for text in ["", "a\nb", "\n\n", "x\n"] {
        assert_eq!(join_lines(&split_lines(&chars(text))), chars(text));
    }
}

#[test]
fn card_of_an_open_square() {
    let mut c = Cell::new();
    assert_eq!(c.tone(), Tone::Plain);
    assert_eq!(c.get_print_card(), "123\n456\n789");
    c.candidates = 0b1_0001_0010;
    assert_eq!(c.get_print_card(), " 2 \n 5 \n  9");
    assert_eq!(c.plain_card_chars(), chars(" 2 \n 5 \n  9"));
}

#[test]
fn card_of_an_assigned_square() {
    let mut c = Cell::new();
    c.value = 1;
    c.candidates = 0;
    assert_eq!(c.get_print_card(), " ┓ \n ┃ \n ┻ ");
    c.value = 4;
    assert_eq!(c.get_print_card(), "╻ ╻\n┗━╋\n  ╹");
    c.value = 8;
    assert_eq!(c.get_print_card(), "┏━┓\n┣━┫\n┗━┛");
    for v in 1..=9u8 {
        let g = glyph_chars(v);
        assert_eq!(g.len(), 11);
        assert_eq!(g[3], '\n');
        assert_eq!(g[7], '\n');
    }
    assert_eq!(glyph_chars(0), Vec::<char>::new());
}

#[test]
fn card_in_colour_keeps_its_text() {
    let mut c = Cell::new();
    c.value = 7;
    c.candidates = 0;
    c.is_given = true;
    assert_eq!(c.tone(), Tone::Given);
    let card = c.get_print_card();
    assert!(card.contains("╺━┓"));
    assert!(card.contains("  ┃"));
    assert_eq!(card.matches('\n').count(), 2);
    c.is_given = false;
    c.is_dirty = true;
    assert_eq!(c.tone(), Tone::Dirty);
    let dirty = c.color_card("ab\ncd".to_string());
    assert!(dirty.contains("ab") && dirty.contains("cd"));
    c.is_dirty = false;
    assert_eq!(c.color_card("ab\ncd".to_string()), "ab\ncd");
}

#[test]
fn compact_board() {
    let grid = Grid::from_string(EASY, None, false).expect("board parses");
    let expected = "\
-------------------------
| 5 3 0 | 0 7 0 | 0 0 0 | 
| 6 0 0 | 1 9 5 | 0 0 0 | 
| 0 9 8 | 0 0 0 | 0 6 0 | 
-------------------------
| 8 0 0 | 0 6 0 | 0 0 3 | 
| 4 0 0 | 8 0 3 | 0 0 1 | 
| 7 0 0 | 0 2 0 | 0 0 6 | 
-------------------------
| 0 6 0 | 0 0 0 | 2 8 0 | 
| 0 0 0 | 4 1 9 | 0 0 5 | 
| 0 0 0 | 0 8 0 | 0 7 9 | 
-------------------------
";
    assert_eq!(grid.board_text(), expected);
}

#[test]
fn givens_as_text() {
    let grid = Grid::from_string("5 3|   |\n\n|  9", None, true).expect("board parses");
    let expected = "503000000\n000000000\n009000000\n000000000\n000000000\n000000000\n000000000\n000000000\n000000000\n";
    assert_eq!(grid.givens_string(), expected);
    assert_eq!(Grid::new().givens_string(), "000000000\n".repeat(9));
}

#[test]
fn cards_in_their_frame() {
    let mut grid = Grid::new();
    grid.set_auto_promote(false);
    grid.set_cell(Position::new(0, 0), 5);
    grid.clear_dirty();
    let text = grid.plain_string();
    let lines: Vec<&str> = text.split('\n').collect();
    assert_eq!(lines.len(), 1 + 27 + 8 + 1);
    assert_eq!(lines[0], "╔═══════════╦═══════════╦═══════════╗");
    assert_eq!(lines[36], "╚═══════════╩═══════════╩═══════════╝");
    assert_eq!(lines[1], "║┏━╸┆123┆123║123┆123┆123║123┆123┆123║");
    assert_eq!(lines[2], "║┗━┓┆4 6┆4 6║4 6┆4 6┆4 6║4 6┆4 6┆4 6║");
    assert_eq!(lines[3], "║┗━┛┆789┆789║789┆789┆789║789┆789┆789║");
    assert_eq!(lines[4], "║┄┄┄ ┄┄┄ ┄┄┄║┄┄┄ ┄┄┄ ┄┄┄║┄┄┄ ┄┄┄ ┄┄┄║");
    assert_eq!(lines[5], "║123┆123┆123║123┆123┆123║123┆123┆123║");
    assert_eq!(lines[6], "║4 6┆4 6┆4 6║456┆456┆456║456┆456┆456║");
    assert_eq!(lines[12], "╠═══════════╬═══════════╬═══════════╣");
    assert_eq!(lines[13], "║123┆123┆123║123┆123┆123║123┆123┆123║");
    assert_eq!(lines[14], "║4 6┆456┆456║456┆456┆456║456┆456┆456║");
    assert_eq!(lines[24], "╠═══════════╬═══════════╬═══════════╣");
    for line in &lines {
        assert_eq!(line.chars().count(), 37);
    }
    assert_eq!(grid.to_string(), text);
}

#[test]
fn layout_takes_any_cards() {
    let mut cards: Vec<Vec<char>> = Vec::new();
    for i in 0..81 {
        let d = char::from_digit((i % 9) as u32, 10).unwrap();
        cards.push(vec![d, '\n', 'x']);
    }
    let text: String = layout_cards(&cards).iter().collect();
    let lines: Vec<&str> = text.split('\n').collect();
    assert_eq!(lines.len(), 37);
    assert_eq!(lines[1], "║0┆1┆2║3┆4┆5║6┆7┆8║");
    assert_eq!(lines[2], "║x┆x┆x║x┆x┆x║x┆x┆x║");
    assert_eq!(lines[3], "║┆┆║┆┆║┆┆║");
}

#[test]
fn coloured_frame_holds_the_cards() {
    let grid = Grid::from_string(EASY, None, false).expect("board parses");
    let text = grid.to_string();
    assert!(text.starts_with("╔═══════════╦═══════════╦═══════════╗\n"));
    assert!(text.ends_with("\n╚═══════════╩═══════════╩═══════════╝"));
    assert!(text.contains("┏━╸"));
    assert_eq!(text.split('\n').count(), 37);
}
