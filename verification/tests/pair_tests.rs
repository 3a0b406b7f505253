use privatium_core::pair::code::{glyph, label_spelling, Code, CodeError, WordList, WordsError};
use privatium_core::pair::handshake::{direction, node_hello, verify_signature, Direction, Flags};
use privatium_core::pair::join::join_target;
use privatium_core::pair::qr::{encode, svg, text, QUIET};
use privatium_core::pair::spake2::Identities;
use privatium_core::pair::PairError;

#[test]
fn a_join_url_is_a_host_and_a_port_and_nothing_else() {
    assert_eq!(
        join_target("http://192.0.2.5:8420").ok().as_deref(),
        Some("ws://192.0.2.5:8420/ws/pair")
    );
    assert_eq!(
        join_target("http://192.0.2.5:8420/").ok().as_deref(),
        Some("ws://192.0.2.5:8420/ws/pair")
    );
    assert_eq!(
        join_target("http://desk.local").ok().as_deref(),
        Some("ws://desk.local:8420/ws/pair")
    );
    assert_eq!(
        join_target("http://[fd00::5]:8420").ok().as_deref(),
        Some("ws://[fd00::5]:8420/ws/pair")
    );
    for bad in [
        "https://192.0.2.5:8420",
        "192.0.2.5:8420",
        "http://",
        "http://192.0.2.5:8420/settings",
        "http://user@192.0.2.5:8420",
        "http://192.0.2.5:8420?x=1",
        "http://192.0.2.5:8420#f",
    ] {
        assert!(join_target(bad).is_err(), "{bad}");
    }
}

#[test]
fn a_refused_join_names_the_url_and_the_problem() {
    let e = join_target("  ftp://x ").unwrap_err();
    assert_eq!(e.url, "  ftp://x ");
    assert_eq!(e.problem, "the URL must start with http://");
    let e = join_target("http://a/b").unwrap_err();
    assert_eq!(
        e.problem,
        "the URL is a host and a port and nothing else, as the other node printed it"
    );
    assert_eq!(join_target(" http://[::1] ").ok().as_deref(), Some("ws://[::1]:8420/ws/pair"));
}

fn flags(disposable: bool, expired: bool) -> Flags {
    Flags {
        disposable,
        expired,
    }
}

#[test]
fn test_spec_2_3_1_direction_rule_over_every_flag_combination() {
    let fresh = flags(true, false);
    let established = flags(false, false);
    let expired = flags(false, true);
    let expired_fresh = flags(true, true);
    assert_eq!(direction(established, fresh), Ok(Direction::NodeAdmits));
    assert_eq!(direction(fresh, fresh), Ok(Direction::NodeAdmits));
    assert_eq!(direction(fresh, established), Ok(Direction::ClientAdmits));
    assert_eq!(direction(established, established), Err(PairError::TwoClusters));
    assert_eq!(direction(established, expired), Ok(Direction::NodeAdmits));
    assert_eq!(direction(expired, established), Ok(Direction::ClientAdmits));
    assert!(matches!(direction(fresh, expired), Err(PairError::NoAdmitter(_))));
    assert!(matches!(direction(expired, fresh), Err(PairError::NoAdmitter(_))));
    assert!(matches!(direction(expired, expired), Err(PairError::NoAdmitter(_))));
    assert!(matches!(
        direction(expired_fresh, established),
        Ok(Direction::ClientAdmits)
    ));
    assert!(matches!(
        direction(established, expired_fresh),
        Ok(Direction::NodeAdmits)
    ));
    assert!(matches!(
        direction(expired_fresh, expired),
        Err(PairError::NoAdmitter(_))
    ));
}

#[test]
fn refusals_carry_their_close_codes() {
    assert_eq!(PairError::Closed.close_code(), 4404);
    assert_eq!(PairError::RateLimited.close_code(), 4429);
    assert_eq!(PairError::Exhausted.close_code(), 4429);
    assert_eq!(PairError::WrongCode.close_code(), 4401);
    assert_eq!(PairError::Format.close_code(), 4400);
    assert_eq!(PairError::Ttl.close_code(), 4400);
    assert_eq!(PairError::NodeKind.close_code(), 4403);
    assert_eq!(PairError::DeviceKnown.close_code(), 4403);
}

#[test]
fn test_spec_7_1_qr_encodes_the_url_and_renders_both_ways() {
    let url = "http://192.0.2.10:8420";
    let matrix = encode(url).unwrap();
    assert_eq!(matrix.dark.len(), matrix.width * matrix.width);
    assert!(matrix.is_dark(0, 0));
    assert!(matrix.is_dark(matrix.width - 1, 0));
    assert!(matrix.is_dark(0, matrix.width - 1));
    assert!(!matrix.is_dark(matrix.width, 0), "outside is light");

    let svg = svg(url, "QR code for \"the\" URL").unwrap();
    assert!(svg.starts_with("<svg "));
    assert!(svg.contains("role=\"img\""));
    assert!(svg.contains("aria-label=\"QR code for &quot;the&quot; URL\""));
    assert!(svg.contains("<title>QR code for &quot;the&quot; URL</title>"));
    assert!(svg.contains("focusable=\"false\""));
    assert!(!svg.contains("style="));
    assert!(
        !svg.contains(url),
        "the URL is text beside the image, not inside it"
    );

    let rendered = text(url).unwrap();
    let lines: Vec<&str> = rendered.lines().collect();
    let size = matrix.width + 2 * QUIET;
    assert_eq!(lines.len(), size.div_ceil(2));
    assert!(lines.iter().all(|line| line.chars().count() == size));
    assert!(lines.iter().any(|line| line.contains('█')));
}

#[test]
fn empty_and_oversized_input_render_nothing() {
    assert!(encode("").is_none());
    assert!(encode(&"x".repeat(214)).is_none());
    assert!(encode(&"x".repeat(213)).is_some());
    assert!(svg("", "x").is_none());
    assert!(text("").is_none());
}

#[test]
fn the_glyph_table_has_sixteen_distinct_first_codepoints() {
    let firsts: std::collections::BTreeSet<char> = (0u8..16)
        .filter_map(|i| glyph(i).glyph.chars().next())
        .collect();
    assert_eq!(firsts.len(), 16);
}

/// A list of 256 distinct lower-case words, four to six letters, no two sharing their
/// first three letters.
fn word_file() -> String {
    let letters = b"abcdefghijklmnop";
    let mut out = String::new();
    for i in 0..256usize {
        let a = letters[i / 16] as char;
        let b = letters[i % 16] as char;
        out.push_str(&format!("{a}{b}q{}\n", "xyz"[..1 + i % 3].to_string()));
    }
    out
}

#[test]
fn a_code_reads_back_from_its_glyphs_labels_and_words() {
    let list = WordList::parse(&word_file()).unwrap();
    let code = Code::from_u16(0x8C3F);
    assert_eq!(code.as_u16(), 0x8C3F);
    assert_eq!(code.bytes(), [0x8C, 0x3F]);
    let glyphs = code.glyphs();
    assert_eq!(glyphs[0].label, "Lightning");
    assert_eq!(glyphs[3].label, "Strawberry");
    let emoji: String = glyphs.iter().map(|g| g.glyph).collect();
    assert_eq!(Code::parse(&emoji, &list).map(|c| c.as_u16()), Ok(0x8C3F));
    let spaced: Vec<&str> = glyphs.iter().map(|g| g.glyph).collect();
    assert_eq!(Code::parse(&spaced.join(" "), &list).map(|c| c.as_u16()), Ok(0x8C3F));
    let no_selector = emoji.replace('\u{FE0F}', "");
    assert_eq!(Code::parse(&no_selector, &list).map(|c| c.as_u16()), Ok(0x8C3F));
    let labels: Vec<&str> = glyphs.iter().map(|g| g.label).collect();
    assert_eq!(Code::parse(&labels.join(" "), &list).map(|c| c.as_u16()), Ok(0x8C3F));
    assert_eq!(
        Code::parse("lightning PINEAPPLE, ufo-strawberry", &list).map(|c| c.as_u16()),
        Ok(0x8C3F)
    );
    let words = code.words(&list);
    let typed = format!("{} {}", words[0], words[1]);
    assert_eq!(Code::parse(&typed, &list).map(|c| c.as_u16()), Ok(0x8C3F));
    let joined = format!("{}{}", words[0].to_uppercase(), words[1]);
    assert_eq!(Code::parse(&joined, &list).map(|c| c.as_u16()), Ok(0x8C3F));
    let short = format!("{} {}", &words[0][..3], &words[1][..3]);
    assert_eq!(Code::parse(&short, &list).map(|c| c.as_u16()), Ok(0x8C3F));
}

#[test]
fn every_rendering_of_a_code_reads_back() {
    let list = WordList::parse(&word_file()).unwrap();
    for v in [0u16, 0x0001, 0x3737, 0x8C3F, 0x9BD1, 0xFFFF] {
        let code = Code::from_u16(v);
        let words = code.words(&list);
        let shouted = format!("{}-{}", words[0].to_uppercase(), words[1].to_uppercase());
        assert_eq!(Code::parse(&shouted, &list).map(|c| c.as_u16()), Ok(v));
        let labels: Vec<&str> = code.glyphs().iter().map(|g| g.label).collect();
        assert_eq!(Code::parse(&labels.join(" "), &list).map(|c| c.as_u16()), Ok(v));
        let emoji: String = code.glyphs().iter().map(|g| g.glyph).collect();
        assert_eq!(Code::parse(&emoji, &list).map(|c| c.as_u16()), Ok(v));
    }
    assert_eq!(Code::parse("", &list).map(|c| c.as_u16()), Err(CodeError::Empty));
    assert_eq!(Code::parse(" -, . ", &list).map(|c| c.as_u16()), Err(CodeError::Empty));
}

#[test]
fn nothing_or_nonsense_is_refused_without_echo() {
    let list = WordList::parse(&word_file()).unwrap();
    assert_eq!(Code::parse("   ", &list).map(|c| c.as_u16()), Err(CodeError::Empty));
    assert_eq!(Code::parse("zzz", &list).map(|c| c.as_u16()), Err(CodeError::Unrecognized));
    assert_eq!(
        Code::parse("\u{1F984}\u{1F984}\u{1F984}", &list).map(|c| c.as_u16()),
        Err(CodeError::Unrecognized)
    );
    assert_eq!(
        Code::parse("\u{1F984}\u{1F984}\u{1F984}\u{1F984} fox", &list).map(|c| c.as_u16()),
        Err(CodeError::Unrecognized)
    );
    assert!(!CodeError::Unrecognized.message().contains("zzz"));
}

#[test]
fn a_word_file_holds_exactly_256_lines() {
    assert!(WordList::parse(&word_file()).is_ok());
    let without_final_newline = word_file().trim_end().to_string();
    assert!(WordList::parse(&without_final_newline).is_ok());
    assert_eq!(WordList::parse("").err(), Some(WordsError::WrongCount));
    assert_eq!(WordList::parse("a\n\nb\n").err(), Some(WordsError::BlankLine));
    let more = format!("{}extra\n", word_file());
    assert_eq!(WordList::parse(&more).err(), Some(WordsError::TooMany));
}

#[test]
fn the_transcript_identities_are_tagged() {
    let ids = Identities::new("AAAA", "BBBB");
    assert_eq!(ids, Identities::new("AAAA", "BBBB"));
    assert_ne!(ids, Identities::new("AAAB", "BBBB"));
}

#[test]
fn a_missing_or_malformed_signature_is_refused() {
    let key = "A".repeat(43) + "=";
    assert_eq!(verify_signature(&key, b"x", None), Err(PairError::Signature));
    assert_eq!(verify_signature(&key, b"x", Some("short")), Err(PairError::Signature));
    let sig = "A".repeat(86) + "==";
    assert_eq!(verify_signature("not a key", b"x", Some(&sig)), Err(PairError::Format));
    assert!(verify_signature(&key, b"x", Some(&sig)).is_err());
}

#[test]
fn the_hello_is_one_json_object() {
    assert_eq!(
        node_hello("k7m2q9xf", "AAAA=", true),
        "{\"v\":1,\"id\":\"k7m2q9xf\",\"pub\":\"AAAA=\",\"open\":true}"
    );
    assert_eq!(
        node_hello("a\"b", "", false),
        "{\"v\":1,\"id\":\"a\\\"b\",\"pub\":\"\",\"open\":false}"
    );
}

/// Every word of a list, in index order, read back through the codes that carry it.
fn all_words(list: &WordList) -> Vec<String> {
    (0..256u16).map(|i| Code::from_u16(i << 8).words(list)[0].to_string()).collect()
}

#[test]
fn the_word_list_is_lowercase_ascii_four_to_six_letters_and_prefix_unique() {
    let list = WordList::parse(&word_file()).unwrap();
    let mut prefixes = std::collections::BTreeSet::new();
    for word in all_words(&list) {
        assert!((4..=6).contains(&word.len()), "{word}");
        assert!(word.bytes().all(|b| b.is_ascii_lowercase()), "{word}");
        assert!(prefixes.insert(word[..3].to_string()), "{word}");
    }
    assert_eq!(prefixes.len(), 256);
}

#[test]
fn label_spellings_do_not_collide_with_words_beyond_the_known_one() {
    let mut text = word_file();
    text = text.replacen("aaqx\n", "guitar\n", 1);
    let list = WordList::parse(&text).unwrap();
    let words = all_words(&list);
    let mut j = 0;
    while let Some((index, spelling)) = label_spelling(j) {
        let collides = words.contains(&spelling);
        assert!(!collides || (spelling == "guitar" && index == 4), "{spelling}");
        j += 1;
    }
    assert_eq!(j, 21);
}
