use json_lexer::split::{split, split_mut};

#[test]
fn test_split_in_the_middle() {
    let data = b"abcde";
    let (token, remaining) = split(data, 2);
    assert_eq!(token, b"ab");
    assert_eq!(remaining, Some(&b"cde"[..]));
}

#[test]
fn test_split_at_the_end_leaves_nothing() {
    let data = b"abc";
    let (token, remaining) = split(data, 3);
    assert_eq!(token, b"abc");
    assert_eq!(remaining, None);
}

#[test]
fn test_split_at_the_front() {
    let data = b"abc";
    let (token, remaining) = split(data, 0);
    assert_eq!(token, b"");
    assert_eq!(remaining, Some(&b"abc"[..]));
}

#[test]
fn test_split_empty() {
    let data = b"";
    let (token, remaining) = split(data, 0);
    assert_eq!(token, b"");
    assert_eq!(remaining, None);
}

#[test]
fn test_split_mut_pieces_are_the_buffer() {
    let mut data = b"abcde".to_vec();
    {
        let (token, remaining) = split_mut(data.as_mut_slice(), 2);
        assert_eq!(token, b"ab");
        token[0] = b'x';
        let remaining = remaining.unwrap();
        assert_eq!(remaining, b"cde");
        remaining[2] = b'y';
    }
    assert_eq!(data, b"xbcdy");
}

#[test]
fn test_split_mut_at_the_end_leaves_nothing() {
    let mut data = b"abc".to_vec();
    let (token, remaining) = split_mut(data.as_mut_slice(), 3);
    assert_eq!(token, b"abc");
    assert!(remaining.is_none());
}
