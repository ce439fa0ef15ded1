use the_rack::text::{as_text, components, find, list_contains, same};

#[test]
fn only_valid_text_is_text() {
    assert_eq!(as_text(b"hello"), Some("hello"));
    assert_eq!(as_text(&[0xc3, 0xa9]), Some("é"));
    assert_eq!(as_text(&[0xff]), None);
    assert_eq!(as_text(&[0xc3]), None);
    assert_eq!(as_text(b""), Some(""));
}

#[test]
fn bytes_are_compared_whole() {
    assert!(same(b"abc", b"abc"));
    assert!(!same(b"abc", b"abd"));
    assert!(!same(b"ab", b"abc"));
    assert!(same(b"", b""));
}

#[test]
fn the_first_of_several_is_found() {
    assert_eq!(find(b"a@b@c", b'@', 0, 5), 1);
    assert_eq!(find(b"a@b@c", b'@', 2, 5), 3);
    assert_eq!(find(b"a@b@c", b'@', 4, 5), 5);
    assert_eq!(find(b"a@b@c", b'@', 0, 1), 1);
}

#[test]
fn lists_hold_their_pieces_and_nothing_less() {
    let list = b"test,memory\0test,thing\0";
    assert!(list_contains(list, b"test,memory"));
    assert!(list_contains(list, b"test,thing"));
    assert!(list_contains(list, b""));
    assert!(!list_contains(list, b"test,mem"));
    assert!(!list_contains(list, b"test,memory\0test,thing"));
    assert!(!list_contains(b"one\0two", b""));
    assert!(list_contains(b"one\0two", b"two"));
}

#[test]
fn paths_come_apart_at_slashes() {
    assert_eq!(components(b"/soc//uart/"), vec![&b"soc"[..], &b"uart"[..]]);
    assert!(components(b"/").is_empty());
    assert!(components(b"").is_empty());
    assert_eq!(components(b"memory"), vec![&b"memory"[..]]);
}
