use datacartridge::sequence::{
    decimate_indices, decimate_plan, parse_keep_every, route_stream, DecimateError, KeepEveryError, StreamRole, KEEP_EVERY_URN,
};

#[test]
fn test0046_decimate_indices_stride_one_keeps_all() {
    for n in [0usize, 1, 5, 100] {
        let got = decimate_indices(n, 1);
        let want: Vec<usize> = (0..n).collect();
        assert_eq!(got, want, "stride=1 over count={} must keep every index", n);
    }
}

#[test]
fn test0047_decimate_indices_starts_at_zero() {
    for stride in [2usize, 3, 7, 13] {
        let got = decimate_indices(100, stride);
        assert_eq!(got.first().copied(), Some(0), "stride={} must start at 0; got {:?}", stride, got.first());
        assert!(
            got.windows(2).all(|w| w[1] - w[0] == stride),
            "stride={} produced non-uniform spacing: {:?}",
            stride,
            got
        );
    }
}

#[test]
fn test0048_decimate_indices_every_third_of_ten() {
    let got = decimate_indices(10, 3);
    assert_eq!(got, vec![0, 3, 6, 9]);
}

#[test]
fn test0049_decimate_indices_stride_larger_than_count() {
    assert_eq!(decimate_indices(5, 100), vec![0]);
}

#[test]
fn test0050_decimate_indices_empty_input() {
    let got = decimate_indices(0, 1);
    assert!(got.is_empty());
    let got = decimate_indices(0, 5);
    assert!(got.is_empty());
}

#[test]
fn decimate_keeps_the_multiples_of_the_stride() {
    let got = decimate_indices(11, 5);
    assert_eq!(got, vec![0, 5, 10]);
    assert_eq!(got.len(), (11 + 5 - 1) / 5);
}

#[test]
fn keep_every_is_a_positive_integer() {
    assert_eq!(parse_keep_every(None).ok(), Some(1));
    assert_eq!(parse_keep_every(Some(" 3\n")).ok(), Some(3));
    let err = parse_keep_every(Some(" abc ")).err().unwrap();
    assert!(matches!(err, KeepEveryError::NotAnInteger { .. }));
    assert_eq!(
        err.message(),
        "--keep-every must be a positive integer, got \"abc\": invalid digit found in string"
    );
    assert_eq!(
        parse_keep_every(Some("")).err().unwrap().message(),
        "--keep-every must be a positive integer, got \"\": cannot parse integer from empty string"
    );
    let err = parse_keep_every(Some("-2")).err().unwrap();
    assert!(matches!(err, KeepEveryError::NotPositive { n: -2 }));
    assert_eq!(err.message(), "--keep-every must be ≥ 1 (got -2)");
    assert!(parse_keep_every(Some("0")).is_err());
    assert!(parse_keep_every(Some("1.5")).is_err());
}

#[test]
fn decimate_streams_are_routed_and_checked() {
    assert_eq!(route_stream(None, KEEP_EVERY_URN).ok(), Some(StreamRole::KeepEvery));
    assert_eq!(route_stream(Some("media:a"), KEEP_EVERY_URN).ok(), Some(StreamRole::KeepEvery));
    assert_eq!(route_stream(None, "media:a").ok(), Some(StreamRole::Sequence));
    let err = route_stream(Some("media:a"), "media:b").err().unwrap();
    assert_eq!(err.message(), "decimate-sequence received two non-keep-every streams: media:a and media:b");
    assert_eq!(decimate_plan(Some("media:a"), 7, 3).ok(), Some(vec![0, 3, 6]));
    assert_eq!(decimate_plan(None, 7, 3).err(), Some(DecimateError::NoSequence));
    assert_eq!(
        decimate_plan(Some("media:a"), 0, 3).err().unwrap().message(),
        "decimate-sequence: input sequence media:a was empty"
    );
}
