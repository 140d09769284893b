use chudnovsky::integer::Integer;

#[test]
fn from_i128_writes_twos_complement() {
    assert_eq!(Integer::from_i128(0).to_decimal(), "0");
    assert_eq!(Integer::from_i128(5).bytes, vec![5u8]);
    assert_eq!(Integer::from_i128(128).bytes, vec![128u8, 0]);
    assert_eq!(Integer::from_i128(-1).bytes, vec![255u8]);
    assert_eq!(Integer::from_i128(-1125).bytes, vec![155u8, 251]);
}

#[test]
fn to_decimal_reads_any_byte_string() {
    assert_eq!(Integer { bytes: vec![] }.to_decimal(), "0");
    assert_eq!(Integer { bytes: vec![0, 0, 0] }.to_decimal(), "0");
    assert_eq!(Integer { bytes: vec![255, 255] }.to_decimal(), "-1");
    assert_eq!(Integer { bytes: vec![0, 128] }.to_decimal(), "-32768");
    assert_eq!(Integer { bytes: vec![0, 128, 0] }.to_decimal(), "32768");
    assert_eq!(Integer { bytes: vec![1, 1] }.to_decimal(), "257");
}

#[test]
fn to_decimal_of_extremes() {
    assert_eq!(
        Integer::from_i128(i128::MAX).to_decimal(),
        "170141183460469231731687303715884105727"
    );
    assert_eq!(
        Integer::from_i128(i128::MIN).to_decimal(),
        "-170141183460469231731687303715884105728"
    );
}

#[test]
fn is_zero_goes_by_value() {
    assert!(Integer::from_i128(0).is_zero());
    assert!(Integer { bytes: vec![] }.is_zero());
    assert!(Integer { bytes: vec![0, 0] }.is_zero());
    assert!(!Integer::from_i128(1).is_zero());
    assert!(!Integer::from_i128(-1).is_zero());
    assert!(!Integer { bytes: vec![0, 1] }.is_zero());
}

#[test]
fn equality_goes_by_value() {
    assert!(Integer { bytes: vec![5] } == Integer { bytes: vec![5, 0] });
    assert!(Integer { bytes: vec![] } == Integer::from_i128(0));
    assert!(Integer { bytes: vec![255] } == Integer { bytes: vec![255, 255, 255] });
    assert!(Integer { bytes: vec![255] } != Integer { bytes: vec![255, 0] });
    assert!(Integer::from_i128(7) != Integer::from_i128(-7));
}

// No byte at the top that only repeats the sign.
fn is_shortest(bytes: &[u8]) -> bool {
    match bytes {
        [] => false,
        [_] => true,
        [.., next, top] => !(*top == 0 && *next < 128) && !(*top == 255 && *next >= 128),
    }
}

#[test]
fn from_i128_writes_the_shortest_bytes() {
    let mut values = vec![0i128, 1, -1, 127, 128, -128, -129, 255, 256, -255, -256, -257];
    for shift in [7u32, 8, 15, 16, 63, 64, 126] {
        let power = 1i128 << shift;
        values.extend([power - 1, power, power + 1, -power - 1, -power, -power + 1]);
    }
    values.extend([i128::MAX, i128::MIN]);
    for v in values {
        let x = Integer::from_i128(v);
        assert!(is_shortest(&x.bytes), "{} as {:?}", v, x.bytes);
        assert_eq!(x.to_decimal(), v.to_string());
    }
    assert_eq!(Integer::from_i128(-128).bytes, vec![128u8]);
    assert_eq!(Integer::from_i128(-129).bytes, vec![127u8, 255]);
    assert_eq!(Integer::from_i128(-256).bytes, vec![0u8, 255]);
    assert_eq!(Integer::from_i128(0).bytes, vec![0u8]);
}
