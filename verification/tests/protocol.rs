use kvserver::protocol::handle_request;
use kvserver::store::Store;

fn req(store: &mut Store, line: &[u8]) -> Option<Vec<u8>> {
    handle_request(store, line)
}

#[test]
fn get_absent_returns_newline() {
    let mut store = Store::new();
    assert_eq!(req(&mut store, b"GET missing\n"), Some(b"\n".to_vec()));
    assert_eq!(req(&mut store, b"GET other\n"), Some(b"\n".to_vec()));
}

#[test]
fn set_then_get_returns_value() {
    let mut store = Store::new();
    assert_eq!(req(&mut store, b"SET k hello\n"), Some(b"OK\n".to_vec()));
    assert_eq!(req(&mut store, b"GET k\n"), Some(b"hello\n".to_vec()));
}

#[test]
fn set_overwrites_last_write_wins() {
    let mut store = Store::new();
    req(&mut store, b"SET k one\n");
    req(&mut store, b"SET k two\n");
    assert_eq!(req(&mut store, b"GET k\n"), Some(b"two\n".to_vec()));
}

#[test]
fn del_reports_presence_and_clears() {
    let mut store = Store::new();
    assert_eq!(req(&mut store, b"DEL k\n"), Some(b"0\n".to_vec()));
    req(&mut store, b"SET k v\n");
    assert_eq!(req(&mut store, b"DEL k\n"), Some(b"1\n".to_vec()));
    assert_eq!(req(&mut store, b"GET k\n"), Some(b"\n".to_vec()));
    assert_eq!(req(&mut store, b"DEL k\n"), Some(b"0\n".to_vec()));
}

#[test]
fn incr_initializes_then_counts() {
    let mut store = Store::new();
    assert_eq!(req(&mut store, b"INCR c\n"), Some(b"1\n".to_vec()));
    assert_eq!(req(&mut store, b"INCR c\n"), Some(b"2\n".to_vec()));
    assert_eq!(req(&mut store, b"INCR c\n"), Some(b"3\n".to_vec()));
    assert_eq!(req(&mut store, b"GET c\n"), Some(b"3\n".to_vec()));
}

#[test]
fn incr_non_numeric_errs_and_leaves_value() {
    let mut store = Store::new();
    req(&mut store, b"SET k abc\n");
    assert_eq!(
        req(&mut store, b"INCR k\n"),
        Some(b"ERR value is not an integer or out of range\n".to_vec())
    );
    assert_eq!(req(&mut store, b"GET k\n"), Some(b"abc\n".to_vec()));
}

#[test]
fn incr_negative_and_signed_values() {
    let mut store = Store::new();
    req(&mut store, b"SET k -5\n");
    assert_eq!(req(&mut store, b"INCR k\n"), Some(b"-4\n".to_vec()));
    req(&mut store, b"SET k +41\n");
    assert_eq!(req(&mut store, b"INCR k\n"), Some(b"42\n".to_vec()));
}

#[test]
fn incr_normalizes_leading_zeros() {
    let mut store = Store::new();
    req(&mut store, b"SET k 007\n");
    assert_eq!(req(&mut store, b"INCR k\n"), Some(b"8\n".to_vec()));
}

#[test]
fn incr_at_and_beyond_the_64_bit_edge() {
    let mut store = Store::new();
    req(&mut store, b"SET k 9223372036854775806\n");
    assert_eq!(req(&mut store, b"INCR k\n"), Some(b"9223372036854775807\n".to_vec()));
    // the successor of the maximum has no 64-bit form
    assert_eq!(
        req(&mut store, b"INCR k\n"),
        Some(b"ERR value is not an integer or out of range\n".to_vec())
    );
    assert_eq!(req(&mut store, b"GET k\n"), Some(b"9223372036854775807\n".to_vec()));
    // a literal past the range never parses
    req(&mut store, b"SET k 9223372036854775808\n");
    assert_eq!(
        req(&mut store, b"INCR k\n"),
        Some(b"ERR value is not an integer or out of range\n".to_vec())
    );
}

#[test]
fn quit_yields_no_reply() {
    let mut store = Store::new();
    assert_eq!(req(&mut store, b"QUIT\n"), None);
    // trailing tokens do not blunt it
    assert_eq!(req(&mut store, b"QUIT now please\n"), None);
}

#[test]
fn malformed_get_replies_newline_without_mutation() {
    let mut store = Store::new();
    req(&mut store, b"SET k v\n");
    assert_eq!(req(&mut store, b"GET\n"), Some(b"\n".to_vec()));
    assert_eq!(req(&mut store, b"GET k\n"), Some(b"v\n".to_vec()));
}

#[test]
fn malformed_set_del_incr_reply_newline() {
    let mut store = Store::new();
    assert_eq!(req(&mut store, b"SET k\n"), Some(b"\n".to_vec()));
    assert_eq!(req(&mut store, b"SET\n"), Some(b"\n".to_vec()));
    assert_eq!(req(&mut store, b"DEL\n"), Some(b"\n".to_vec()));
    assert_eq!(req(&mut store, b"INCR\n"), Some(b"\n".to_vec()));
    assert_eq!(req(&mut store, b"GET k\n"), Some(b"\n".to_vec()));
}

#[test]
fn unknown_verb_and_empty_input_are_ok() {
    let mut store = Store::new();
    assert_eq!(req(&mut store, b"HELLO\n"), Some(b"OK\n".to_vec()));
    assert_eq!(req(&mut store, b"\n"), Some(b"OK\n".to_vec()));
    assert_eq!(req(&mut store, b""), Some(b"OK\n".to_vec()));
    // verbs are case-sensitive
    assert_eq!(req(&mut store, b"get k\n"), Some(b"OK\n".to_vec()));
}

#[test]
fn extra_tokens_are_ignored() {
    let mut store = Store::new();
    assert_eq!(req(&mut store, b"SET a 1 junk trailing\n"), Some(b"OK\n".to_vec()));
    assert_eq!(req(&mut store, b"GET a also junk\n"), Some(b"1\n".to_vec()));
}

#[test]
fn invalid_utf8_is_replaced_never_rejected() {
    let mut store = Store::new();
    // 0xff is no UTF-8: the decoder turns it into the replacement character
    assert_eq!(req(&mut store, b"SET k \xffabc\n"), Some(b"OK\n".to_vec()));
    assert_eq!(req(&mut store, b"GET k\n"), Some("\u{fffd}abc\n".as_bytes().to_vec()));
}

#[test]
fn full_session_scenario() {
    let mut store = Store::new();
    assert_eq!(req(&mut store, b"SET abc 123\n"), Some(b"OK\n".to_vec()));
    assert_eq!(req(&mut store, b"GET abc\n"), Some(b"123\n".to_vec()));
    assert_eq!(req(&mut store, b"INCR abc\n"), Some(b"124\n".to_vec()));
    assert_eq!(req(&mut store, b"DEL abc\n"), Some(b"1\n".to_vec()));
    assert_eq!(req(&mut store, b"GET abc\n"), Some(b"\n".to_vec()));
}
