use osc::{translate_pattern, Error, Message, Pattern};

#[test]
fn pattern_create() {
    let pat = Pattern::new("/hello");
    assert!(pat.is_ok());
    let pat = Pattern::new("");
    assert!(!pat.is_ok());
    let pat = Pattern::new("/hello[something");
    assert!(!pat.is_ok());
    let pat = Pattern::new("/hello]");
    assert!(!pat.is_ok());
    let pat = Pattern::new("/hello{something");
    assert!(!pat.is_ok());
    let pat = Pattern::new("/hello}");
    assert!(!pat.is_ok());
}

#[test]
fn pattern_match_exact() {
    let pat = Pattern::new("/hello").unwrap();
    assert!(pat.matches_path("/hello"));
    assert!(!pat.matches_path("/hello2"));
    assert!(!pat.matches_path("/test_msg"));
}

#[test]
fn pattern_match_asterisk_end() {
    let pat = Pattern::new("/hello*").unwrap();
    assert!(pat.matches_path("/hello"));
    assert!(pat.matches_path("/hello2"));
    assert!(!pat.matches_path("/test_msg"));
}

#[test]
fn pattern_match_asterisk_start() {
    let pat = Pattern::new("/*world").unwrap();
    assert!(pat.matches_path("/world"));
    assert!(pat.matches_path("/helloworld"));
    assert!(!pat.matches_path("/test_msg"));
}

#[test]
fn pattern_match_asterisk_middle() {
    let pat = Pattern::new("/goodbye*world").unwrap();
    assert!(pat.matches_path("/goodbyeworld"));
    assert!(pat.matches_path("/goodbye_cruel_world"));
    assert!(!pat.matches_path("/test_msg"));
}

#[test]
fn pattern_match_question_mark() {
    let pat = Pattern::new("/hell?").unwrap();
    assert!(pat.matches_path("/hello"));
    assert!(!pat.matches_path("/hello_"));
}

#[test]
fn pattern_match_curly_braces() {
    let pat = Pattern::new("/hello/{world,roger}").unwrap();
    assert!(pat.matches_path("/hello/world"));
    assert!(pat.matches_path("/hello/roger"));
    assert!(!pat.matches_path("/hello/sarah"));
}

#[test]
fn pattern_match_square_brackets_positive() {
    let pat = Pattern::new("/hello/[ab]x").unwrap();
    assert!(pat.matches_path("/hello/ax"));
    assert!(pat.matches_path("/hello/bx"));
    assert!(!pat.matches_path("/hello/cx"));
}

#[test]
fn pattern_match_square_brackets_negative() {
    let pat = Pattern::new("/hello/[!ab]x").unwrap();
    assert!(!pat.matches_path("/hello/ax"));
    assert!(!pat.matches_path("/hello/bx"));
    assert!(pat.matches_path("/hello/cx"));
}

#[test]
fn pattern_match_square_brackets_set_positive() {
    let pat = Pattern::new("/hello/[a-f]x").unwrap();
    assert!(pat.matches_path("/hello/ax"));
    assert!(pat.matches_path("/hello/bx"));
    assert!(pat.matches_path("/hello/cx"));
    assert!(!pat.matches_path("/hello/gx"));
}

#[test]
fn pattern_match_square_brackets_set_negative() {
    let pat = Pattern::new("/hello/[!a-f]x").unwrap();
    assert!(!pat.matches_path("/hello/ax"));
    assert!(!pat.matches_path("/hello/bx"));
    assert!(!pat.matches_path("/hello/cx"));
    assert!(pat.matches_path("/hello/gx"));
}

#[test]
fn pattern_match_double_slash() {
    let pat = Pattern::new("/hello//world").unwrap();
    assert!(pat.matches_path("/hello/world"));
    assert!(pat.matches_path("/hello/brave/new/world"));
}

#[test]
fn pattern_match_any() {
    let pat = Pattern::new("//*").unwrap();
    assert!(pat.matches_path("/x"));
    assert!(pat.matches_path("/hello/world"));
}

const SYMBOL: &str = r#"[A-Za-z0-9!"$%&'()+.0-9:;<=>@\\^_`|~-]"#;
const FULL: &str = r#"[A-Za-z0-9!"$%&'()+.0-9:;<=>@\\^_`|~/-]"#;

#[test]
fn translate_literal_and_wildcards() {
    assert_eq!(translate_pattern("/hello").unwrap(), "^/hello$");
    assert_eq!(translate_pattern("/hello*").unwrap(), format!("^/hello{}*$", SYMBOL));
    assert_eq!(translate_pattern("/hell?").unwrap(), format!("^/hell{}$", SYMBOL));
    assert_eq!(translate_pattern("/a//b").unwrap(), format!("^/a{}*/b$", FULL));
}

#[test]
fn translate_escapes_meta_characters() {
    assert_eq!(translate_pattern("/a.b+c").unwrap(), r"^/a\.b\+c$");
    assert_eq!(translate_pattern("/x$^").unwrap(), r"^/x\$\^$");
}

#[test]
fn translate_sets_and_alternatives() {
    assert_eq!(translate_pattern("/[!ab]x").unwrap(), "^/[^ab]x$");
    assert_eq!(translate_pattern("/[a-f]").unwrap(), "^/[a-f]$");
    assert_eq!(translate_pattern("/[-a-]").unwrap(), r"^/[\-a\-]$");
    assert_eq!(translate_pattern("/{a.b,c}").unwrap(), r"^/(a\.b|c)$");
}

#[test]
fn translate_rejects_bad_patterns() {
    for p in ["", "hello", "/a]", "/a}", "/[ab", "/{ab", "/é"] {
        assert!(matches!(translate_pattern(p), Err(Error::PatternSyntaxError)), "{}", p);
        assert!(matches!(Pattern::new(p), Err(Error::PatternSyntaxError)), "{}", p);
    }
}

#[test]
fn regex_refusal_is_a_syntax_error() {
    assert!(translate_pattern("/[]").is_ok());
    assert!(matches!(Pattern::new("/[]"), Err(Error::PatternSyntaxError)));
    assert!(matches!(Pattern::new("/[z-a]"), Err(Error::PatternSyntaxError)));
}

#[test]
fn literal_meta_characters_match_literally() {
    let pat = Pattern::new("/a.b").unwrap();
    assert!(pat.matches_path("/a.b"));
    assert!(!pat.matches_path("/axb"));
    let pat = Pattern::new("/{a.b,c}").unwrap();
    assert!(pat.matches_path("/a.b"));
    assert!(pat.matches_path("/c"));
    assert!(!pat.matches_path("/a_b"));
}

#[test]
fn wildcards_stay_within_a_segment() {
    let pat = Pattern::new("/hello*").unwrap();
    assert!(!pat.matches_path("/hello/world"));
    let pat = Pattern::new("/hell?").unwrap();
    assert!(!pat.matches_path("/hell/"));
}

#[test]
fn anchoring_rejects_prefix_and_suffix() {
    let pat = Pattern::new("/hello").unwrap();
    assert!(!pat.matches_path("/xhello"));
    assert!(!pat.matches_path("/hello2"));
}

#[test]
fn matches_uses_message_path() {
    let pat = Pattern::new("/synth/*/freq").unwrap();
    let hit = Message {
        path: "/synth/osc1/freq",
        arguments: vec![],
    };
    let miss = Message {
        path: "/synth/osc1/gain",
        arguments: vec![],
    };
    assert!(pat.matches(hit));
    assert!(!pat.matches(miss));
}
