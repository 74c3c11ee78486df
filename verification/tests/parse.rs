use music_select::predicate::{parse_lowered, parse_term, Predicate};
use music_select::query::Query;

fn sections(parts: &[&[&str]]) -> Vec<Vec<String>> {
    parts.iter().map(|alts| alts.iter().map(|a| a.to_string()).collect()).collect()
}

#[test]
fn parses_a_plain_term() {
    let p = parse_term("rock");
    assert_eq!(p, Predicate { is_exclusion: false, sections: sections(&[&["rock"]]) });
}

#[test]
fn lower_cases_the_term() {
    let p = parse_term("Rock#LIVE");
    assert_eq!(p.sections, sections(&[&["rock"], &["live"]]));
    assert!(!p.is_exclusion);
}

#[test]
fn lower_cases_beyond_ascii() {
    let p = parse_term("\u{c9}T\u{c9}");
    assert_eq!(p.sections, sections(&[&["\u{e9}t\u{e9}"]]));
}

#[test]
fn parse_lowered_leaves_case_alone() {
    let p = parse_lowered("Rock");
    assert_eq!(p.sections, sections(&[&["Rock"]]));
}

#[test]
fn a_leading_mark_makes_an_exclusion() {
    let p = parse_term("!Jazz");
    assert_eq!(p, Predicate { is_exclusion: true, sections: sections(&[&["jazz"]]) });
}

#[test]
fn only_the_first_mark_is_taken_off() {
    let p = parse_term("!!jazz");
    assert!(p.is_exclusion);
    assert_eq!(p.sections, sections(&[&["!jazz"]]));
}

#[test]
fn a_mark_inside_the_term_is_text() {
    let p = parse_term("ja!zz");
    assert!(!p.is_exclusion);
    assert_eq!(p.sections, sections(&[&["ja!zz"]]));
}

#[test]
fn cuts_sections_and_alternatives() {
    let p = parse_term("rock#live,acoustic");
    assert_eq!(p.sections, sections(&[&["rock"], &["live", "acoustic"]]));
}

#[test]
fn white_space_behind_a_delimiter_is_dropped() {
    let p = parse_term("rock#  live,\t acoustic");
    assert_eq!(p.sections, sections(&[&["rock"], &["live", "acoustic"]]));
}

#[test]
fn white_space_before_a_delimiter_stays() {
    let p = parse_term("rock #live ,acoustic");
    assert_eq!(p.sections, sections(&[&["rock "], &["live ", "acoustic"]]));
}

#[test]
fn white_space_beyond_ascii_is_dropped_too() {
    let p = parse_term("a,\u{a0}\u{2003}b#\u{3000}c");
    assert_eq!(p.sections, sections(&[&["a", "b"], &["c"]]));
}

#[test]
fn a_trailing_delimiter_leaves_an_empty_section() {
    let p = parse_term("rock#");
    assert_eq!(p.sections, sections(&[&["rock"], &[""]]));
    let p = parse_term("rock,");
    assert_eq!(p.sections, sections(&[&["rock", ""]]));
}

#[test]
fn a_leading_delimiter_leaves_an_empty_section() {
    let p = parse_term("#rock");
    assert_eq!(p.sections, sections(&[&[""], &["rock"]]));
}

#[test]
fn delimiters_in_a_row_leave_empty_sections() {
    let p = parse_term("a##b");
    assert_eq!(p.sections, sections(&[&["a"], &[""], &["b"]]));
    let p = parse_term("a#  #b");
    assert_eq!(p.sections, sections(&[&["a"], &[""], &["b"]]));
    let p = parse_term("a,,b");
    assert_eq!(p.sections, sections(&[&["a", "", "b"]]));
}

#[test]
fn the_empty_term_is_one_empty_alternative() {
    let p = parse_term("");
    assert_eq!(p, Predicate { is_exclusion: false, sections: sections(&[&[""]]) });
    let p = parse_term("!");
    assert_eq!(p, Predicate { is_exclusion: true, sections: sections(&[&[""]]) });
}

#[test]
fn white_space_alone_behind_a_delimiter_leaves_an_empty_piece() {
    let p = parse_term("a#   ");
    assert_eq!(p.sections, sections(&[&["a"], &[""]]));
}

#[test]
fn a_query_keeps_the_order_of_its_terms() {
    let q = Query::parse(&vec!["Rock#live".to_string(), "!JAZZ".to_string()]);
    assert_eq!(q.predicates.len(), 2);
    assert_eq!(q.predicates[0], parse_term("rock#live"));
    assert_eq!(q.predicates[1], parse_term("!jazz"));
    assert!(q.predicates[1].is_exclusion);
}

#[test]
fn no_terms_make_the_empty_query() {
    let q = Query::parse(&Vec::new());
    assert!(q.predicates.is_empty());
}

fn is_pattern_space(c: char) -> bool {
    matches!(
        c,
        '\t'..='\r'
            | ' '
            | '\u{85}'
            | '\u{a0}'
            | '\u{1680}'
            | '\u{2000}'..='\u{200a}'
            | '\u{2028}'
            | '\u{2029}'
            | '\u{202f}'
            | '\u{205f}'
            | '\u{3000}'
    )
}

#[test]
fn exactly_the_white_space_characters_are_dropped() {
    let mut term = String::from("k");
    let mut expected: Vec<String> = vec!["k".to_string()];
    for code in 0..=0x10ffffu32 {
        let c = match char::from_u32(code) {
            Some(c) => c,
            None => continue,
        };
        if c == ',' || c == '#' {
            continue;
        }
        term.push(',');
        term.push(c);
        term.push('k');
        if is_pattern_space(c) {
            expected.push("k".to_string());
        } else {
            let mut piece = String::new();
            piece.push(c);
            piece.push('k');
            expected.push(piece);
        }
    }
    let p = parse_lowered(&term);
    assert_eq!(p.sections.len(), 1);
    assert_eq!(p.sections[0].len(), expected.len());
    assert!(p.sections[0] == expected);
}

#[test]
fn a_run_of_white_space_is_dropped_whole() {
    let p = parse_lowered("a, \t\n\u{b}\u{c}\r\u{85}\u{a0}\u{1680}\u{2000}\u{200a}\u{2028}\u{2029}\u{202f}\u{205f}\u{3000} b");
    assert_eq!(p.sections, sections(&[&["a", "b"]]));
    let p = parse_lowered("a,\u{200b} b");
    assert_eq!(p.sections, sections(&[&["a", "\u{200b} b"]]));
}
