use string_ids::lookup2::lookup2;

#[test]
fn hash_of_empty_key() {
    assert_eq!(lookup2(b"", 0), 3175731469);
}

#[test]
fn hash_of_single_byte() {
    assert_eq!(lookup2(b"a", 0), 703514648);
}

#[test]
fn hash_of_first_identifier() {
    assert_eq!(lookup2(b"Global.Text.0", 0), 2587045306);
}

#[test]
fn hash_of_short_key() {
    assert_eq!(lookup2(b"abc", 0), 622741395);
}

#[test]
fn hash_of_key_with_several_blocks() {
    assert_eq!(
        lookup2(b"The quick brown fox jumps over the lazy dog", 0),
        4229257438
    );
}

#[test]
fn hash_with_nonzero_seed() {
    assert_eq!(lookup2(b"", 1), 1843378377);
    assert_eq!(lookup2(b"a", 1), 1978792621);
    assert_eq!(lookup2(b"Global.Text.0", 1), 1208340507);
}

#[test]
fn hash_of_ten_digit_identifier() {
    assert_eq!(lookup2(b"Global.Text.4294967295", 0), 2615410187);
    assert_eq!(lookup2(b"Global.Text.123456789", 0), 1552236222);
}
