use power_clash::config::{build_signature, Config, ConfigError};
use power_clash::search::{index_matches, scan_range, search};
use power_clash::selector::{hash_signature, parse_target, selector_eq, TargetError};

fn config(alphabet: &str, len: u32, prefix: &str, arguments: &str) -> Config {
    Config::new(alphabet.chars().collect(), len, prefix.to_string(), arguments.to_string()).unwrap()
}

#[test]
fn selector_of_known_signature() {
    let s = "transfer(address,uint256)".to_string();
    assert_eq!(hash_signature(&s), [0xa9, 0x05, 0x9c, 0xbb]);
}

#[test]
fn selector_is_stable_across_calls() {
    let s = "LolSwapAd75(address,address,bytes)".to_string();
    let a = hash_signature(&s);
    let b = hash_signature(&s);
    assert_eq!(a, b);
    assert_ne!(hash_signature(&"a()".to_string()), hash_signature(&"b()".to_string()));
}

#[test]
fn selector_eq_compares_every_byte() {
    assert!(selector_eq(&[1, 2, 3, 4], &[1, 2, 3, 4]));
    assert!(!selector_eq(&[1, 2, 3, 4], &[1, 2, 3, 5]));
    assert!(!selector_eq(&[0, 2, 3, 4], &[1, 2, 3, 4]));
}

#[test]
fn config_counts_index_space() {
    assert_eq!(config("ab", 2, "", "").max_index(), 4);
    assert_eq!(config("abc", 3, "", "").max_index(), 27);
    let letters = "abcdefghijklmnopqrstuvwxyzABCDEFGHIJKLMNOPQRSTUVWXYZ";
    assert_eq!(config(letters, 6, "", "").max_index(), 19_770_609_664);
}

#[test]
fn config_rejects_overflowing_index_space() {
    let letters: Vec<char> = "abcdefghijklmnopqrstuvwxyzABCDEFGHIJKLMNOPQRSTUVWXYZ".chars().collect();
    let r = Config::new(letters, 20, String::new(), String::new());
    assert_eq!(r.err(), Some(ConfigError::IndexSpaceOverflow));
    let r = Config::new(vec!['a', 'b'], 64, String::new(), String::new());
    assert_eq!(r.err(), Some(ConfigError::IndexSpaceOverflow));
    assert_eq!(config("ab", 63, "", "").max_index(), 1usize << 63);
}

#[test]
fn encoder_puts_lowest_digit_first() {
    let c = config("ab", 2, "", "");
    let all: Vec<String> = (0..4).map(|i| build_signature(&c, i)).collect();
    assert_eq!(all, vec!["aa()", "ba()", "ab()", "bb()"]);
}

#[test]
fn encoder_wraps_prefix_and_arguments() {
    let c = config("xyz", 3, "LolSwap", "address,address,bytes");
    assert_eq!(build_signature(&c, 0), "LolSwapxxx(address,address,bytes)");
    assert_eq!(build_signature(&c, 5), "LolSwapzyx(address,address,bytes)");
    assert_eq!(build_signature(&c, 26), "LolSwapzzz(address,address,bytes)");
}

#[test]
fn encoder_is_a_bijection_on_small_space() {
    let c = config("abc", 3, "", "");
    let mut seen: Vec<String> = (0..27).map(|i| build_signature(&c, i)).collect();
    seen.sort();
    seen.dedup();
    assert_eq!(seen.len(), 27);
    for s in &seen {
        assert_eq!(s.len(), 5);
        assert!(s[..3].chars().all(|ch| "abc".contains(ch)));
    }
}

#[test]
fn example_two_letters_finds_ab() {
    let c = config("ab", 2, "", "");
    let target = hash_signature(&"ab()".to_string());
    let k = search(&c, &target).unwrap();
    assert_eq!(k, 2);
    assert_eq!(build_signature(&c, k), "ab()");
}

#[test]
fn example_unmatched_target_is_not_found() {
    let c = config("ab", 1, "", "");
    let target = [0u8, 0, 0, 0];
    assert_ne!(hash_signature(&"a()".to_string()), target);
    assert_ne!(hash_signature(&"b()".to_string()), target);
    assert_eq!(search(&c, &target), None);
    assert_eq!(search(&c, &target), None);
}

#[test]
fn empty_segment_has_one_candidate() {
    let c = config("ab", 0, "pre", "uint256");
    assert_eq!(c.max_index(), 1);
    assert_eq!(build_signature(&c, 0), "pre(uint256)");
    let target = hash_signature(&"pre(uint256)".to_string());
    assert_eq!(search(&c, &target), Some(0));
}

#[test]
fn search_over_several_chunks_returns_a_hit() {
    let c = config("abcdefghijklmnopqrstuvwxyzABCDEFGHIJKLMNOPQRSTUVWXYZ", 3, "foo", "uint256");
    let target = hash_signature(&"fooxyZ(uint256)".to_string());
    for _ in 0..3 {
        let k = search(&c, &target).unwrap();
        assert!(k < c.max_index());
        assert_eq!(hash_signature(&build_signature(&c, k)), target);
    }
}

#[test]
fn scan_range_returns_lowest_hit() {
    let c = config("ab", 2, "", "");
    let target = hash_signature(&"bb()".to_string());
    assert_eq!(scan_range(&c, &target, 0, 4), Some(3));
    assert_eq!(scan_range(&c, &target, 0, 3), None);
    assert_eq!(scan_range(&c, &target, 2, 2), None);
    assert!(index_matches(&c, &target, 3));
    assert!(!index_matches(&c, &target, 0));
}

#[test]
fn parse_target_reads_four_bytes() {
    assert_eq!(parse_target("fa461e33"), Ok([0xfa, 0x46, 0x1e, 0x33]));
    assert_eq!(parse_target("FA461E33"), Ok([0xfa, 0x46, 0x1e, 0x33]));
    assert_eq!(parse_target("00000000"), Ok([0, 0, 0, 0]));
}

#[test]
fn parse_target_rejects_bad_text() {
    assert_eq!(parse_target("123"), Err(TargetError::InvalidHex));
    assert_eq!(parse_target("fa461e3g"), Err(TargetError::InvalidHex));
    assert_eq!(parse_target("0x461e33"), Err(TargetError::InvalidHex));
    assert_eq!(parse_target("fa46"), Err(TargetError::WrongLength));
    assert_eq!(parse_target(""), Err(TargetError::WrongLength));
    assert_eq!(parse_target("fa461e3300"), Err(TargetError::WrongLength));
}
