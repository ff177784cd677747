use roman::convert::{convert_chars, find_token, priority_token, priority_value, strip_token};
use roman::{convert, is_valid};

fn reference_numeral(mut v: u64) -> String {
    let table: [(u64, &str); 13] = [
        (1000, "M"),
        (900, "CM"),
        (500, "D"),
        (400, "CD"),
        (100, "C"),
        (90, "XC"),
        (50, "L"),
        (40, "XL"),
        (10, "X"),
        (9, "IX"),
        (5, "V"),
        (4, "IV"),
        (1, "I"),
    ];
    let mut out = String::new();
    for (value, text) in table.iter() {
        while v >= *value {
            out.push_str(text);
            v -= *value;
        }
    }
    out
}

#[test]
fn test_validate() {
    assert_eq!(is_valid("I"), true);
    assert_eq!(is_valid("II"), true);
    assert_eq!(is_valid("III"), true);
    assert_eq!(is_valid("V"), true);
    assert_eq!(is_valid("VI"), true);
    assert_eq!(is_valid("VII"), true);
    assert_eq!(is_valid("VIII"), true);
    assert_eq!(is_valid("X"), true);
    assert_eq!(is_valid("XX"), true);
    assert_eq!(is_valid("XXX"), true);
    assert_eq!(is_valid("C"), true);
    assert_eq!(is_valid("CC"), true);
    assert_eq!(is_valid("CCC"), true);
    assert_eq!(is_valid("M"), true);
    assert_eq!(is_valid("MM"), true);
    assert_eq!(is_valid("MMM"), true);
    assert_eq!(is_valid("IV"), true);
    assert_eq!(is_valid("IX"), true);
    assert_eq!(is_valid("XI"), true);
    assert_eq!(is_valid("L"), true);
    assert_eq!(is_valid("XL"), true);
    assert_eq!(is_valid("D"), true);
    assert_eq!(is_valid("CD"), true);
    assert_eq!(is_valid("CM"), true);
    assert_eq!(is_valid("MCMXCIX"), true);

    assert_eq!(is_valid("IIII"), false);
    assert_eq!(is_valid("XXXX"), false);
    assert_eq!(is_valid("VV"), false);
    assert_eq!(is_valid("LL"), false);
    assert_eq!(is_valid("DD"), false);
    assert_eq!(is_valid("IIX"), false);
    assert_eq!(is_valid("ABCDE"), false);
    assert_eq!(is_valid("ICXXXXIIVV"), false);
}

#[test]
fn test_convert() {
    assert_eq!(convert("I"), Ok(1));
    assert_eq!(convert("II"), Ok(2));
    assert_eq!(convert("III"), Ok(3));
    assert_eq!(convert("V"), Ok(5));
    assert_eq!(convert("VI"), Ok(6));
    assert_eq!(convert("VII"), Ok(7));
    assert_eq!(convert("VIII"), Ok(8));
    assert_eq!(convert("X"), Ok(10));
    assert_eq!(convert("XX"), Ok(20));
    assert_eq!(convert("XXX"), Ok(30));
    assert_eq!(convert("C"), Ok(100));
    assert_eq!(convert("CC"), Ok(200));
    assert_eq!(convert("CCC"), Ok(300));
    assert_eq!(convert("M"), Ok(1000));
    assert_eq!(convert("MM"), Ok(2000));
    assert_eq!(convert("MMM"), Ok(3000));
    assert_eq!(convert("IV"), Ok(4));
    assert_eq!(convert("IX"), Ok(9));
    assert_eq!(convert("XI"), Ok(11));
    assert_eq!(convert("L"), Ok(50));
    assert_eq!(convert("XL"), Ok(40));
    assert_eq!(convert("D"), Ok(500));
    assert_eq!(convert("CD"), Ok(400));
    assert_eq!(convert("CM"), Ok(900));
    assert_eq!(convert("MCMXCIX"), Ok(1999));
}

#[test]
fn round_trip_every_number() {
    for v in 1..4000u64 {
        let text = reference_numeral(v);
        assert!(is_valid(&text), "{} rejected", text);
        assert_eq!(convert(&text), Ok(v));
    }
}

#[test]
fn validator_accepts_only_canonical_short_strings() {
    let letters = ['I', 'V', 'X', 'L', 'C', 'D', 'M'];
    let canonical: Vec<String> = (1..4000u64).map(reference_numeral).collect();
    let mut words: Vec<String> = vec![String::new()];
    for _ in 0..4 {
        let mut next = Vec::new();
        for w in words.iter() {
            for c in letters.iter() {
                let mut s = w.clone();
                s.push(*c);
                next.push(s);
            }
        }
        for s in next.iter() {
            assert_eq!(is_valid(s), canonical.contains(s), "{}", s);
        }
        words = next;
    }
}

#[test]
fn repeated_calls_agree() {
    for text in ["MCMXCIX", "IC", "IIX", "", "XLII"] {
        assert_eq!(is_valid(text), is_valid(text));
        assert_eq!(convert(text), convert(text));
    }
}

#[test]
fn boundary_scenarios() {
    assert!(is_valid("MCMXCIX"));
    assert_eq!(convert("MCMXCIX"), Ok(1999));
    assert!(!is_valid("IIII"));
    assert!(!is_valid("IIX"));
    assert!(!is_valid("MMMM"));
    assert!(!is_valid(""));
    assert_eq!(convert("IV"), Ok(4));
    assert_eq!(convert("IX"), Ok(9));
    assert_eq!(convert("M"), Ok(1000));
}

#[test]
fn thousands_group_takes_up_to_three() {
    assert!(is_valid("MMM"));
    assert!(is_valid("MMMCMXCIX"));
    assert_eq!(convert("MMMCMXCIX"), Ok(3999));
    assert!(!is_valid("MMMM"));
    assert!(!is_valid("MMMMI"));
    assert!(!is_valid("MMMMCMXCIX"));
    assert!(!is_valid("MMMMDCCCLXXXVIII"));
}

#[test]
fn rejects_lowercase_and_other_letters() {
    assert!(!is_valid("iv"));
    assert!(!is_valid("XIV "));
    assert!(!is_valid("IC"));
    assert!(!is_valid("VX"));
    assert!(!is_valid("CMCM"));
}

#[test]
fn convert_on_malformed_input_strips_greedily() {
    assert_eq!(convert("IC"), Ok(101));
    assert_eq!(convert("IIII"), Ok(4));
    assert_eq!(convert("CXC"), Ok(190));
    assert_eq!(convert(""), Ok(0));
    assert_eq!(convert("ABC"), Ok(100));
}

#[test]
fn convert_chars_matches_convert() {
    let chars: Vec<char> = "MMXXIV".chars().collect();
    assert_eq!(convert_chars(&chars), Ok(2024));
}

#[test]
fn find_token_gives_leftmost_position() {
    let s: Vec<char> = "XCXC".chars().collect();
    assert_eq!(find_token(&s, &vec!['X', 'C']), Some(0));
    assert_eq!(find_token(&s, &vec!['C', 'X']), Some(1));
    assert_eq!(find_token(&s, &vec!['I']), None);
}

#[test]
fn strip_token_removes_every_occurrence() {
    let mut work: Vec<char> = "CCMCM".chars().collect();
    let n = strip_token(&mut work, &vec!['C', 'M']);
    assert_eq!(n, 2);
    assert_eq!(work, vec!['C']);
    let mut nested: Vec<char> = "CCMM".chars().collect();
    assert_eq!(strip_token(&mut nested, &vec!['C', 'M']), 2);
    assert!(nested.is_empty());
}

#[test]
fn priority_order_table() {
    let expected = [
        ("CM", 900),
        ("M", 1000),
        ("CD", 400),
        ("D", 500),
        ("XC", 90),
        ("C", 100),
        ("XL", 40),
        ("L", 50),
        ("IX", 9),
        ("X", 10),
        ("IV", 4),
        ("V", 5),
        ("I", 1),
    ];
    for (k, (text, value)) in expected.iter().enumerate() {
        let tok: String = priority_token(k).into_iter().collect();
        assert_eq!(tok, *text);
        assert_eq!(priority_value(k), *value);
    }
}
