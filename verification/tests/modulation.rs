use stella_core::modulation::{demodulate, demodulate_all, modulate, MVal};

fn rt(v: MVal) {
    let m = modulate(&v);
    assert!(
        m.chars().all(|c| c == '0' || c == '1'),
        "modulate produced non-bit chars for {v:?}: {m}"
    );
    assert_eq!(
        demodulate(&m),
        Some((v.clone(), m.len())),
        "demodulate round-trip failed for {v:?} (encoding {m})"
    );
    assert_eq!(
        demodulate_all(&m),
        Some(v.clone()),
        "demodulate_all round-trip failed for {v:?} (encoding {m})"
    );
}

#[test]
fn reference_encodings() {
    assert_eq!(modulate(&MVal::Nil), "00");
    assert_eq!(modulate(&MVal::Int(0)), "010");
    assert_eq!(modulate(&MVal::Int(1)), "01100001");
    assert_eq!(modulate(&MVal::Int(-1)), "10100001");
    assert_eq!(modulate(&MVal::Int(2)), "01100010");
    assert_eq!(modulate(&MVal::Int(255)), "0111011111111");
    assert_eq!(modulate(&MVal::Int(256)), "011110000100000000");
}

#[test]
fn roundtrip_nil() {
    rt(MVal::Nil);
}

#[test]
fn roundtrip_small_ints() {
    rt(MVal::Int(0));
    rt(MVal::Int(1));
    rt(MVal::Int(-1));
    rt(MVal::Int(255));
    rt(MVal::Int(256));
    rt(MVal::Int(-256));
    rt(MVal::Int(2));
    rt(MVal::Int(-2));
    rt(MVal::Int(15));
    rt(MVal::Int(16));
}

#[test]
fn int_payload_shapes() {
    assert_eq!(modulate(&MVal::Int(1)), "01".to_string() + "10" + "0001");
    assert_eq!(
        modulate(&MVal::Int(255)),
        "01".to_string() + "110" + "11111111"
    );
    assert_eq!(
        modulate(&MVal::Int(256)),
        "01".to_string() + "1110" + "000100000000"
    );
    assert_eq!(
        modulate(&MVal::Int(-256)),
        "10".to_string() + "1110" + "000100000000"
    );
}

#[test]
fn roundtrip_nested_list() {
    let list = MVal::Cons(
        Box::new(MVal::Int(1)),
        Box::new(MVal::Cons(Box::new(MVal::Int(2)), Box::new(MVal::Nil))),
    );
    rt(list);
}

#[test]
fn roundtrip_deep_and_large() {
    rt(MVal::Int(123_229_502_148_636));
    rt(MVal::Int(-123_229_502_148_636));
    rt(MVal::Int(i128::MAX / 2));
    rt(MVal::Int(-(i128::MAX / 2)));
    rt(MVal::Int(i128::MAX));
    rt(MVal::Int(i128::MIN + 1));
    rt(MVal::Int(u64::MAX as i128));
    rt(MVal::Int(-(u64::MAX as i128)));

    let deep = MVal::Cons(
        Box::new(MVal::Cons(
            Box::new(MVal::Int(-7)),
            Box::new(MVal::Cons(Box::new(MVal::Int(0)), Box::new(MVal::Nil))),
        )),
        Box::new(MVal::Cons(
            Box::new(MVal::Nil),
            Box::new(MVal::Cons(
                Box::new(MVal::Int(i128::MAX / 3)),
                Box::new(MVal::Int(-99999)),
            )),
        )),
    );
    rt(deep);
}

#[test]
fn property_constructed_vals() {
    let samples = vec![
        MVal::Nil,
        MVal::Int(0),
        MVal::Int(1),
        MVal::Int(-1),
        MVal::Int(42),
        MVal::Int(-4096),
        MVal::Cons(Box::new(MVal::Nil), Box::new(MVal::Nil)),
        MVal::Cons(Box::new(MVal::Int(7)), Box::new(MVal::Nil)),
        MVal::Cons(
            Box::new(MVal::Int(-3)),
            Box::new(MVal::Cons(
                Box::new(MVal::Int(1_000_000)),
                Box::new(MVal::Nil),
            )),
        ),
    ];
    for v in samples {
        assert_eq!(
            demodulate_all(&modulate(&v)),
            Some(v.clone()),
            "property failed for {v:?}"
        );
    }
}

#[test]
fn malformed_inputs_return_none() {
    assert_eq!(demodulate(""), None);
    assert_eq!(demodulate("0"), None);
    assert_eq!(demodulate("1"), None);
    assert_eq!(demodulate("11"), None);
    assert_eq!(demodulate("1100"), None);
    assert_eq!(demodulate("01"), None);
    assert_eq!(demodulate("0111"), None);
    assert_eq!(demodulate("0110"), None);
    assert_eq!(demodulate("011000"), None);
    assert_eq!(demodulate("0120001"), None);
    assert_eq!(demodulate("abc"), None);
}

#[test]
fn demodulate_all_rejects_leftover() {
    assert_eq!(demodulate_all("000"), None);
    assert_eq!(demodulate("000"), Some((MVal::Nil, 2)));
}

#[test]
fn i128_min_round_trips() {
    rt(MVal::Int(i128::MIN));
}

#[test]
fn non_canonical_codes_are_read() {
    // A zero may carry the negative sign; a payload may carry a leading zero nibble.
    assert_eq!(demodulate("100"), Some((MVal::Int(0), 3)));
    assert_eq!(demodulate("0111000000001"), Some((MVal::Int(1), 13)));
}

#[test]
fn payload_beyond_i128_is_refused() {
    // 2^127 as a positive number does not fit; as a negative one it is i128::MIN.
    let mut pos = String::from("01");
    let mut neg = String::from("10");
    for _ in 0..32 {
        pos.push('1');
        neg.push('1');
    }
    pos.push('0');
    neg.push('0');
    let mut payload = String::from("1");
    for _ in 0..127 {
        payload.push('0');
    }
    pos.push_str(&payload);
    neg.push_str(&payload);
    assert_eq!(demodulate(&pos), None);
    assert_eq!(demodulate_all(&neg), Some(MVal::Int(i128::MIN)));
}

#[test]
fn codes_are_self_delimiting() {
    // Whatever follows a code, the value read and the length are the same.
    let v = MVal::Cons(Box::new(MVal::Int(-5)), Box::new(MVal::Nil));
    let code = modulate(&v);
    for tail in ["", "0", "1", "11", "0101", "1111111"] {
        let s = format!("{}{}", code, tail);
        assert_eq!(demodulate(&s), Some((v.clone(), code.len())));
    }
    assert_eq!(demodulate("100"), Some((MVal::Int(0), 3)));
    assert_eq!(demodulate("100111"), Some((MVal::Int(0), 3)));
}
