use raphtory::props::Prop;

#[test]
fn test_prop_display_str() {
    let mut prop = Prop::Str(String::from("hello"));
    assert_eq!(prop.display_string().unwrap(), "hello");

    prop = Prop::I32(42);
    assert_eq!(prop.display_string().unwrap(), "42");

    prop = Prop::I64(9223372036854775807);
    assert_eq!(prop.display_string().unwrap(), "9223372036854775807");

    prop = Prop::U32(4294967295);
    assert_eq!(prop.display_string().unwrap(), "4294967295");

    prop = Prop::U64(18446744073709551615);
    assert_eq!(prop.display_string().unwrap(), "18446744073709551615");

    // float observations are carried as raw bits; the store renders no
    // display form for them, and the bits round-trip unchanged
    prop = Prop::F32Bits((3.14159f32).to_bits());
    assert_eq!(prop.display_string(), None);
    if let Prop::F32Bits(b) = prop {
        assert_eq!(f32::from_bits(b), 3.14159f32);
    }

    prop = Prop::F64Bits((3.141592653589793f64).to_bits());
    assert_eq!(prop.display_string(), None);
    if let Prop::F64Bits(b) = prop {
        assert_eq!(f64::from_bits(b), 3.141592653589793f64);
    }

    prop = Prop::Bool(true);
    assert_eq!(prop.display_string().unwrap(), "true");
}

#[test]
fn display_negative_and_boundary_integers() {
    assert_eq!(Prop::I64(-1).display_string().unwrap(), "-1");
    assert_eq!(
        Prop::I64(i64::MIN).display_string().unwrap(),
        "-9223372036854775808"
    );
    assert_eq!(Prop::I32(-2147483648).display_string().unwrap(), "-2147483648");
    assert_eq!(Prop::U64(0).display_string().unwrap(), "0");
    assert_eq!(Prop::Bool(false).display_string().unwrap(), "false");
}
