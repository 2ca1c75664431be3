use dagq::physical::{Backwards, Forwards, Rev, RevRange};

#[test]
fn rev_ranges_bound_in_stream_order() {
    let all: RevRange<Forwards> = RevRange::default();
    assert_eq!((all.lower, all.upper), (Rev(u32::MAX), Rev(0)));
    assert!(!all.is_empty());

    let none: RevRange<Forwards> = RevRange::empty();
    assert!(none.is_empty());

    let from_five = RevRange::<Forwards>::open_upper(Rev(5));
    let down_to_two = RevRange::<Forwards>::open_lower(Rev(2));
    let both = from_five.intersect(down_to_two);
    assert_eq!((both.lower, both.upper), (Rev(5), Rev(2)));
    assert!(!both.is_empty());

    let either = RevRange::<Forwards>::open_upper(Rev(5)).union(RevRange::<Forwards>::open_lower(Rev(2)));
    assert_eq!((either.lower, either.upper), (Rev(u32::MAX), Rev(0)));

    let back: RevRange<Backwards> = RevRange::default();
    assert_eq!((back.lower, back.upper), (Rev(0), Rev(u32::MAX)));
}
