use media_probe::text::{chars_of, has_char, parse_unsigned, push_decimal, same_text, split};

fn unsigned(s: &str, max: u64) -> Option<u64> {
    parse_unsigned(&chars_of(s), max)
}

#[test]
fn integers_are_read_as_the_standard_library_reads_them() {
    let texts = [
        "0", "7", "00012", "+5", "+", "-", "-0", "", " 1", "1 ", "1.0", "1e3", "12a", "++1", "٣",
        "255", "256", "4294967295", "4294967296", "18446744073709551615", "18446744073709551616",
        "99999999999999999999999",
    ];
    for s in texts {
        assert_eq!(unsigned(s, u32::MAX as u64), s.parse::<u32>().ok().map(|n| n as u64), "{s}");
        assert_eq!(unsigned(s, u64::MAX), s.parse::<u64>().ok(), "{s}");
    }
    assert_eq!(unsigned("9", 3), None);
}

#[test]
fn decimal_digits() {
    for n in [0u32, 9, 10, 1001, 30000, 4294967295] {
        let mut s = String::from("n=");
        push_decimal(&mut s, n);
        assert_eq!(s, format!("n={n}"));
        assert_eq!(unsigned(&n.to_string(), n as u64), Some(n as u64));
    }
}

#[test]
fn parts_between_separators() {
    for s in ["", "/", "a", "a/b", "a//b/", "30000/1001", "é/ü"] {
        let ours: Vec<String> = split(s, '/').into_iter().map(|p| p.into_iter().collect()).collect();
        let theirs: Vec<String> = s.split('/').map(|p| p.to_string()).collect();
        assert_eq!(ours, theirs);
    }
}

#[test]
fn texts_are_compared_by_their_characters() {
    assert!(same_text("", ""));
    assert!(same_text("éa", "éa"));
    assert!(!same_text("video", "vide"));
    assert!(!same_text("video", "Video"));
    assert!(has_char("K__", 'K'));
    assert!(!has_char("k__", 'K'));
    assert!(!has_char("", 'K'));
}
