use music_select::error::SelectError;
use music_select::path::{display_name, fragment_of, PathName};
use music_select::predicate::{self, parse_term, Predicate};

fn text(path: &str) -> PathName {
    PathName::Text(path.to_string())
}

fn rock_live_or_acoustic() -> Predicate {
    Predicate {
        is_exclusion: false,
        sections: vec![
            vec!["rock".to_string()],
            vec!["live".to_string(), "acoustic".to_string()],
        ],
    }
}

#[test]
fn sections_are_required_and_alternatives_are_choices() {
    let p = rock_live_or_acoustic();
    assert_eq!(predicate::matches(&p, "", &text("a/rock_live.mp3")), Ok(true));
    assert_eq!(predicate::matches(&p, "", &text("a/rock_acoustic.mp3")), Ok(true));
    assert_eq!(predicate::matches(&p, "", &text("a/rock_studio.mp3")), Ok(false));
    assert_eq!(predicate::matches(&p, "", &text("a/jazz_live.mp3")), Ok(false));
}

#[test]
fn the_parsed_term_matches_like_the_written_predicate() {
    let p = parse_term("rock#live,acoustic");
    assert_eq!(p, rock_live_or_acoustic());
}

#[test]
fn matching_disregards_the_case_of_the_path() {
    let p = parse_term("rock");
    assert_eq!(predicate::matches(&p, "", &text("A/ROCK_Live.MP3")), Ok(true));
    assert!(p.holds_in("a/rock_live.mp3"));
    assert!(!p.holds_in("A/ROCK_Live.MP3"));
}

#[test]
fn matching_is_on_substrings_not_on_patterns() {
    let p = parse_term("r*ck");
    assert_eq!(predicate::matches(&p, "", &text("rock.mp3")), Ok(false));
    assert_eq!(predicate::matches(&p, "", &text("r*ck.mp3")), Ok(true));
    let p = parse_term("ock_li");
    assert_eq!(predicate::matches(&p, "", &text("a/rock_live.mp3")), Ok(true));
}

#[test]
fn matching_is_relative_to_the_root() {
    let p = parse_term("music");
    assert_eq!(predicate::matches(&p, "/home/me/Music", &text("/home/me/Music/a/rock.mp3")), Ok(false));
    assert_eq!(predicate::matches(&p, "/home/me/Music", &text("/home/me/Music/a/music.mp3")), Ok(true));
    assert_eq!(predicate::matches(&p, "/srv", &text("/home/me/Music/a/rock.mp3")), Ok(true));
}

#[test]
fn the_exclusion_mark_does_not_change_the_match() {
    let p = parse_term("!jazz");
    assert_eq!(predicate::matches(&p, "", &text("b/jazz_live.mp3")), Ok(true));
    assert_eq!(predicate::matches(&p, "", &text("a/rock_live.mp3")), Ok(false));
}

#[test]
fn an_empty_alternative_matches_every_path() {
    let p = parse_term("rock#");
    assert_eq!(predicate::matches(&p, "", &text("a/rock_studio.mp3")), Ok(true));
    assert_eq!(predicate::matches(&p, "", &text("b/jazz_live.mp3")), Ok(false));
    let p = parse_term("banjo,");
    assert_eq!(predicate::matches(&p, "", &text("b/jazz_live.mp3")), Ok(true));
    let p = parse_term("");
    assert_eq!(predicate::matches(&p, "", &text("")), Ok(true));
}

#[test]
fn a_predicate_without_sections_holds_and_a_section_without_alternatives_fails() {
    let none = Predicate { is_exclusion: false, sections: Vec::new() };
    assert!(none.holds_in("anything"));
    let hollow = Predicate { is_exclusion: false, sections: vec![Vec::new()] };
    assert!(!hollow.holds_in("anything"));
}

#[test]
fn a_path_that_is_no_text_fails_the_match() {
    let p = parse_term("rock");
    let garbled = PathName::Garbled("a/ro\u{fffd}ck.mp3".to_string());
    assert_eq!(
        predicate::matches(&p, "", &garbled),
        Err(SelectError::Encoding { path: "a/ro\u{fffd}ck.mp3".to_string() })
    );
}

#[test]
fn fragments_are_lower_case_and_relative() {
    assert_eq!(fragment_of("/Lib", "/LIB/A/Rock.mp3"), "/a/rock.mp3");
    assert_eq!(fragment_of("/lib", "/other/A.mp3"), "/other/a.mp3");
    assert_eq!(fragment_of("", "A/B"), "a/b");
    assert_eq!(fragment_of("/lib", "/lib"), "");
    assert_eq!(fragment_of("/lib", "/x/lib/y/lib"), "/x/lib/y/lib");
}

#[test]
fn fragments_lower_ascii_letters_only() {
    assert_eq!(fragment_of("", "\u{c9}T\u{c9}/Z@[`{"), "\u{c9}t\u{c9}/z@[`{");
}

#[test]
fn listed_names_drop_the_root_and_its_separator() {
    assert_eq!(display_name("/lib", "/lib/a/rock.mp3"), "a/rock.mp3");
    assert_eq!(display_name("/lib", "/Lib/a/rock.mp3"), "Lib/a/rock.mp3");
    assert_eq!(display_name("/lib", "/lib"), "");
    assert_eq!(display_name("", ""), "");
    assert_eq!(display_name("/lib", "/lib/\u{e9}t\u{e9}.mp3"), "\u{e9}t\u{e9}.mp3");
    assert_eq!(display_name("/lib", "/lib\u{e9}t\u{e9}"), "t\u{e9}");
}
