use file_flier::text::{
    chars_of, contains_chars, is_space_char, replace_chars, split_at_char, split_words,
    starts_with_chars, string_of,
};

fn chars(s: &str) -> Vec<char> {
    s.chars().collect()
}

fn text(cs: &[char]) -> String {
    cs.iter().collect()
}

const SAMPLES: &[&str] = &[
    "",
    " ",
    "a",
    "  a  bb\tccc\n",
    "x\u{3000}y\u{2028}z\u{a0}w\u{85}v\u{1680}u\u{200b}t",
    "--path=~/x --sort=size ",
    "ééé  ü",
];

#[test]
fn whitespace_agrees_with_std() {
    for c in ['\t', '\n', '\u{b}', '\u{c}', '\r', ' ', '\u{85}', '\u{a0}', '\u{1680}', '\u{2000}',
        '\u{200a}', '\u{2028}', '\u{2029}', '\u{202f}', '\u{205f}', '\u{3000}', 'a', '\u{200b}',
        '\u{180e}', '\u{feff}', '_']
    {
        assert_eq!(is_space_char(c), c.is_whitespace(), "{:?}", c);
    }
}

#[test]
fn words_agree_with_split_whitespace() {
    for s in SAMPLES {
        let ours: Vec<String> = split_words(&chars(s)).iter().map(|w| text(w)).collect();
        let std: Vec<String> = s.split_whitespace().map(|w| w.to_string()).collect();
        assert_eq!(ours, std, "{:?}", s);
    }
}

#[test]
fn replace_agrees_with_std() {
    let patterns = [("~", "/home/u"), ("-", ""), ("aa", "b"), ("", "+"), ("x", "xx"), ("ü", "u")];
    for s in SAMPLES.iter().chain(["aaa", "a-b--c", "~/~"].iter()) {
        for (from, to) in patterns {
            let ours = text(&replace_chars(&chars(s), &chars(from), &chars(to)));
            assert_eq!(ours, s.replace(from, to), "{:?} {:?} {:?}", s, from, to);
        }
    }
}

#[test]
fn contains_agrees_with_std() {
    for s in SAMPLES {
        for pat in ["", "-h", "--help", "a", " ", "ü", "size "] {
            assert_eq!(contains_chars(&chars(s), &chars(pat)), s.contains(pat), "{:?} {:?}", s, pat);
        }
    }
}

#[test]
fn prefix_and_split_at_equals() {
    assert!(starts_with_chars(&chars("/proc/1"), &chars("/proc")));
    assert!(!starts_with_chars(&chars("/pro"), &chars("/proc")));
    assert!(starts_with_chars(&chars("x"), &chars("")));
    let (a, b) = split_at_char(&chars("key=va=lue"), '=');
    assert_eq!((text(&a), text(&b)), ("key".to_string(), "va=lue".to_string()));
    let (a, b) = split_at_char(&chars("novalue"), '=');
    assert_eq!((text(&a), text(&b)), ("novalue".to_string(), String::new()));
    let (a, b) = split_at_char(&chars("=x"), '=');
    assert_eq!((text(&a), text(&b)), (String::new(), "x".to_string()));
}

#[test]
fn chars_round_trip() {
    for s in SAMPLES {
        let cs = chars_of(s);
        assert_eq!(cs, chars(s));
        assert_eq!(string_of(&cs), *s);
    }
}
