use sledis::escaping::{
    escape_into, escape_optimistic, escape_with_size_hint, find_terminator, is_escaped,
    take_until_terminator, EscapedArr, EscapedVec, InvalidStrings, NotEscaped,
};

fn samples() -> Vec<Vec<u8>> {
    vec![
        vec![],
        vec![0],
        vec![1],
        vec![0, 0],
        vec![0, 1],
        vec![0, 255],
        vec![255, 0, 255],
        b"hello".to_vec(),
        vec![7, 0, 0, 1, 0, 9, 255],
    ]
}

#[test]
fn escape_unescape() {
    for input in samples() {
        let escaped = escape_optimistic(&input);
        let unescaped = escaped.unescape();
        assert_eq!(input, unescaped);
    }
}

#[test]
fn escape_is_escaped() {
    for input in samples() {
        let escaped = escape_optimistic(&input);
        assert!(is_escaped(&escaped.into_segment()));
    }
}

#[test]
fn escape_replaces_nul() {
    let e = escape_with_size_hint(&[5, 0, 6], 0).into_segment();
    assert_eq!(e, vec![5, 0, 1, 6]);
    let mut out = vec![9];
    escape_into(&[0, 0], &mut out);
    assert_eq!(out, vec![9, 0, 1, 0, 1]);
}

#[test]
fn is_escaped_cases() {
    assert!(is_escaped(&[]));
    assert!(is_escaped(&[1, 2, 3]));
    assert!(is_escaped(&[0, 1]));
    assert!(!is_escaped(&[0]));
    assert!(!is_escaped(&[0, 2]));
    assert!(!is_escaped(&[0, 255]));
    assert!(!is_escaped(&[3, 0]));
}

#[test]
fn escaped_vec_checks_input() {
    assert!(matches!(EscapedVec::try_new(vec![0, 2]), Err(NotEscaped)));
    let v = EscapedVec::try_new(vec![4, 0, 1]).unwrap();
    assert_eq!(v.unescape(), vec![4, 0]);
    let a = v.as_arr();
    assert_eq!(a.as_slice(), &[4, 0, 1]);
    assert_eq!(a.to_vec().into_segment(), vec![4, 0, 1]);
    assert!(EscapedArr::try_new(&[0]).is_err());
}

#[test]
fn find_terminator_cases() {
    assert_eq!(find_terminator(&[1, 2, 0, 255, 7]), Ok(2));
    assert_eq!(find_terminator(&[0, 1, 0, 255]), Ok(2));
    assert_eq!(find_terminator(&[0, 255]), Ok(0));
    assert_eq!(find_terminator(&[1, 0, 3]), Err(InvalidStrings::UnescapedNull(1)));
    assert_eq!(find_terminator(&[1, 2, 3]), Err(InvalidStrings::NoTerminator));
    assert_eq!(find_terminator(&[1, 0]), Err(InvalidStrings::NoTerminator));
    assert_eq!(find_terminator(&[]), Err(InvalidStrings::NoTerminator));
}

#[test]
fn take_until_terminator_splits() {
    let input = [0, 1, 5, 0, 255, 9, 9];
    let (e, rest) = take_until_terminator(&input).unwrap();
    assert_eq!(e.as_slice(), &[0, 1, 5]);
    assert_eq!(rest, &[9, 9]);
    assert_eq!(e.to_vec().unescape(), vec![0, 5]);
    assert!(matches!(take_until_terminator(&[0, 7]), Err(InvalidStrings::UnescapedNull(0))));
    assert!(matches!(take_until_terminator(&[4]), Err(InvalidStrings::NoTerminator)));
}
