use tetris::highscore::{
    format_highscores_and_lines, parse_highscores_and_lines, slice_to_string, string_to_slice,
    update_vec,
};
use tetris::tetrimino::{random_next, PieceKind};

#[test]
fn update_vec_appends_and_sorts_below_capacity() {
    let mut v = vec![30, 10];
    assert!(update_vec(&mut v, 20));
    assert_eq!(v, vec![10, 20, 30]);
    let mut empty = Vec::new();
    assert!(update_vec(&mut empty, 5));
    assert_eq!(empty, vec![5]);
}

#[test]
fn update_vec_replaces_the_first_smaller_entry_at_capacity() {
    let mut v = vec![10, 20, 30, 40, 50];
    assert!(update_vec(&mut v, 25));
    // the first entry scanned that 25 exceeds is 10, in stored order
    assert_eq!(v, vec![25, 20, 30, 40, 50]);
}

#[test]
fn update_vec_reports_no_new_highscore() {
    let mut v = vec![60, 70, 80, 90, 95];
    assert!(!update_vec(&mut v, 60));
    assert_eq!(v, vec![60, 70, 80, 90, 95]);
}

#[test]
fn slice_to_string_joins_with_spaces() {
    assert_eq!(slice_to_string(&[10, 5, 2]), "10 5 2");
    assert_eq!(slice_to_string(&[0]), "0");
    assert_eq!(slice_to_string(&[]), "");
    assert_eq!(slice_to_string(&[4294967295]), "4294967295");
}

#[test]
fn string_to_slice_reads_the_numbers() {
    assert_eq!(string_to_slice("1 2 3"), vec![1, 2, 3]);
    assert_eq!(string_to_slice(""), Vec::<u32>::new());
    assert_eq!(string_to_slice("007"), vec![7]);
    assert_eq!(string_to_slice("+8 9"), vec![8, 9]);
}

#[test]
fn string_to_slice_drops_what_does_not_parse() {
    assert_eq!(string_to_slice("x 7 -1 99999999999999999999 8"), vec![7, 8]);
    // doubled spaces make empty tokens, which are dropped
    assert_eq!(string_to_slice("1  2"), vec![1, 2]);
    assert_eq!(string_to_slice(" 5"), vec![5]);
    assert_eq!(string_to_slice("4294967295 4294967296"), vec![4294967295]);
    assert_eq!(string_to_slice("++1 1+2"), Vec::<u32>::new());
}

#[test]
fn format_writes_the_two_line_file() {
    let s = format_highscores_and_lines(&[1, 2], &[3, 4]);
    assert_eq!(s, "1 2\n3 4\n");
    assert_eq!(format_highscores_and_lines(&[], &[]), "\n\n");
}

#[test]
fn parse_splits_at_the_first_newline() {
    let parsed = parse_highscores_and_lines("100 90\n12 8");
    let (scores, lines) = parsed.expect("two lines should load");
    assert_eq!(scores, vec![100, 90]);
    assert_eq!(lines, vec![12, 8]);
    // a content without a newline degrades to nothing
    assert!(parse_highscores_and_lines("100 90").is_none());
    assert!(parse_highscores_and_lines("").is_none());
}

#[test]
fn parse_reads_the_second_line_up_to_its_newline() {
    // the second line ends at the next newline (or the end), so the
    // trailing newline a save writes does not stick to the last token
    let parsed = parse_highscores_and_lines("1 2\n3 4\n");
    let (scores, lines) = parsed.expect("two lines should load");
    assert_eq!(scores, vec![1, 2]);
    assert_eq!(lines, vec![3, 4]);
    // anything after the second newline is ignored
    let parsed = parse_highscores_and_lines("1\n2\nleftover 9\n");
    let (scores, lines) = parsed.expect("two lines should load");
    assert_eq!(scores, vec![1]);
    assert_eq!(lines, vec![2]);
}

#[test]
fn saved_file_loads_back_unchanged() {
    let saved = format_highscores_and_lines(&[100, 250, 4294967295], &[12, 0]);
    let (scores, lines) = parse_highscores_and_lines(&saved).expect("a saved file should load");
    assert_eq!(scores, vec![100, 250, 4294967295]);
    assert_eq!(lines, vec![12, 0]);
    let saved = format_highscores_and_lines(&[], &[7]);
    let (scores, lines) = parse_highscores_and_lines(&saved).expect("a saved file should load");
    assert_eq!(scores, Vec::<u32>::new());
    assert_eq!(lines, vec![7]);
}

#[test]
fn random_next_rarely_repeats_the_previous_kind() {
    // the selector rerolls exactly once when it draws the previous kind, so
    // a repeat needs the same kind twice: probability 1/49 per call instead
    // of 1/7.  Over 1000 calls, far fewer than 80 repeats are expected
    // (the mean is about 20; without the reroll it would be about 143).
    let mut repeats = 0;
    for _ in 0..1000 {
        if random_next(Some(PieceKind::T)) == PieceKind::T {
            repeats += 1;
        }
    }
    assert!(repeats < 80, "too many immediate repeats: {}", repeats);
    // every kind is reachable: with 1000 draws all seven kinds appear
    let mut seen = [false; 7];
    for _ in 0..1000 {
        let k = random_next(None);
        let i = match k {
            PieceKind::I => 0,
            PieceKind::J => 1,
            PieceKind::L => 2,
            PieceKind::O => 3,
            PieceKind::S => 4,
            PieceKind::Z => 5,
            PieceKind::T => 6,
        };
        seen[i] = true;
    }
    assert!(seen.iter().all(|s| *s));
}
