use kvserver::num::{format_i64, parse_i64};
use kvserver::parse::{parse, tokenize, Cmd};
use kvserver::store::{bytes_eq, clone_bytes, Store};

#[test]
fn tokenize_splits_on_ascii_whitespace() {
    let toks = tokenize(b"  GET \t abc\r\n");
    assert_eq!(toks, vec![b"GET".to_vec(), b"abc".to_vec()]);
    assert_eq!(tokenize(b""), Vec::<Vec<u8>>::new());
    assert_eq!(tokenize(b" \t\r\n"), Vec::<Vec<u8>>::new());
    assert_eq!(tokenize(b"one"), vec![b"one".to_vec()]);
}

#[test]
fn parse_picks_verbs_and_arguments() {
    assert!(matches!(parse(b"GET k\n"), Cmd::Get { ref key } if key == b"k"));
    assert!(
        matches!(parse(b"SET k v\n"), Cmd::Put { ref key, ref value } if key == b"k" && value == b"v")
    );
    assert!(matches!(parse(b"DEL k\n"), Cmd::Del { ref key } if key == b"k"));
    assert!(matches!(parse(b"INCR k\n"), Cmd::Incr { ref key } if key == b"k"));
    assert!(matches!(parse(b"QUIT\n"), Cmd::Quit));
    assert!(matches!(parse(b"PING\n"), Cmd::Other));
    assert!(matches!(parse(b"GET\n"), Cmd::Malformed));
    assert!(matches!(parse(b"SET k\n"), Cmd::Malformed));
}

#[test]
fn parse_i64_accepts_signed_decimal() {
    assert_eq!(parse_i64(b"0"), Some(0));
    assert_eq!(parse_i64(b"123"), Some(123));
    assert_eq!(parse_i64(b"-123"), Some(-123));
    assert_eq!(parse_i64(b"+7"), Some(7));
    assert_eq!(parse_i64(b"0042"), Some(42));
    assert_eq!(parse_i64(b"9223372036854775807"), Some(i64::MAX));
    assert_eq!(parse_i64(b"-9223372036854775808"), Some(i64::MIN));
}

#[test]
fn parse_i64_rejects_malformed_and_out_of_range() {
    assert_eq!(parse_i64(b""), None);
    assert_eq!(parse_i64(b"-"), None);
    assert_eq!(parse_i64(b"+"), None);
    assert_eq!(parse_i64(b"1a"), None);
    assert_eq!(parse_i64(b"a1"), None);
    assert_eq!(parse_i64(b" 1"), None);
    assert_eq!(parse_i64(b"--1"), None);
    assert_eq!(parse_i64(b"9223372036854775808"), None);
    assert_eq!(parse_i64(b"-9223372036854775809"), None);
    assert_eq!(parse_i64(b"99999999999999999999999999"), None);
}

#[test]
fn format_i64_renders_canonically() {
    assert_eq!(format_i64(0), b"0".to_vec());
    assert_eq!(format_i64(7), b"7".to_vec());
    assert_eq!(format_i64(-7), b"-7".to_vec());
    assert_eq!(format_i64(1200), b"1200".to_vec());
    assert_eq!(format_i64(i64::MAX), b"9223372036854775807".to_vec());
    assert_eq!(format_i64(i64::MIN + 1), b"-9223372036854775807".to_vec());
}

#[test]
fn format_then_parse_round_trips() {
    for n in [0i64, 1, -1, 9, 10, -10, 99, 100, 123456789, -987654321, i64::MAX, i64::MIN + 1] {
        assert_eq!(parse_i64(&format_i64(n)), Some(n));
    }
}

#[test]
fn store_get_set_del_directly() {
    let mut store = Store::new();
    assert_eq!(store.get(b"a"), None);
    store.set(b"a".to_vec(), b"1".to_vec());
    store.set(b"b".to_vec(), b"2".to_vec());
    assert_eq!(store.get(b"a"), Some(b"1".to_vec()));
    assert_eq!(store.get(b"b"), Some(b"2".to_vec()));
    store.set(b"a".to_vec(), b"3".to_vec());
    assert_eq!(store.get(b"a"), Some(b"3".to_vec()));
    assert!(store.del(b"a"));
    assert!(!store.del(b"a"));
    assert_eq!(store.get(b"a"), None);
    assert_eq!(store.get(b"b"), Some(b"2".to_vec()));
}

#[test]
fn byte_helpers() {
    assert!(bytes_eq(b"abc", b"abc"));
    assert!(!bytes_eq(b"abc", b"abd"));
    assert!(!bytes_eq(b"abc", b"ab"));
    assert!(bytes_eq(b"", b""));
    let v = b"xyz".to_vec();
    assert_eq!(clone_bytes(&v), v);
}
