use sledis::segment::Segment;

#[test]
fn segment_split_off() {
    let mut s = Segment::new(vec![1, 2, 3, 4, 5]);
    assert_eq!(s.len(), 5);
    let mut tail = s.split_off(2);
    assert_eq!(s.as_slice(), &[1, 2]);
    assert_eq!(tail.as_slice(), &[3, 4, 5]);
    let last = tail.split_off(3);
    assert_eq!(last.as_slice(), &[] as &[u8]);
    assert_eq!(tail.as_slice(), &[3, 4, 5]);
    assert_eq!(tail.into_inner(), vec![1, 2, 3, 4, 5]);
}
