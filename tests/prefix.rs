use mid::prefix_of;

#[test]
fn prefix() {
    assert_eq!("b", prefix_of("bash"));
    assert_eq!("libb", prefix_of("libbadger"));

    // Who knows what this should do; no examples currently.
    assert_eq!("b", prefix_of("b"));
    assert_eq!("liba", prefix_of("liba"));
}

#[test]
fn prefix_counts_characters() {
    assert_eq!("libé", prefix_of("libéclair"));
    assert_eq!("é", prefix_of("éclair"));
    assert_eq!("l", prefix_of("lib"));
}
