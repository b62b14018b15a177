use ghc_utils::z_decode;
use ghc_utils::z_encode;

#[test]
fn decode_test() {
    assert_eq!(z_decode("ZL"), Some("(".to_string()));
    assert_eq!(z_decode("ZR"), Some(")".to_string()));
    assert_eq!(z_decode("Z0T"), Some("()".to_string()));
    assert_eq!(z_decode("Z0H"), Some("(# #)".to_string()));
    assert_eq!(z_decode("Z2T"), Some("(,)".to_string()));
    assert_eq!(z_decode("Z3T"), Some("(,,)".to_string()));
    assert_eq!(z_decode("Z2H"), Some("(#,#)".to_string()));
    assert_eq!(z_decode("Z3H"), Some("(#,,#)".to_string()));
    assert_eq!(z_decode("Trak"), Some("Trak".to_string()));
    assert_eq!(z_decode("foozuwib"), Some("foo_wib".to_string()));
    assert_eq!(z_decode("zg"), Some(">".to_string()));
    assert_eq!(z_decode("zg1"), Some(">1".to_string()));
    assert_eq!(z_decode("foozh"), Some("foo#".to_string()));
    assert_eq!(z_decode("foozhzh"), Some("foo##".to_string()));
    assert_eq!(z_decode("foozhzh1"), Some("foo##1".to_string()));
    assert_eq!(z_decode("fooZZ"), Some("fooZ".to_string()));
    assert_eq!(z_decode("ZCzp"), Some(":+".to_string()));
    assert_eq!(z_decode("z2cU"), Some(",".to_string()));
}

#[test]
fn encode_test() {
    assert_eq!(z_encode("("), Some("ZL".to_string()));
    assert_eq!(z_encode(")"), Some("ZR".to_string()));
    assert_eq!(z_encode("()"), Some("Z0T".to_string()));
    assert_eq!(z_encode("(# #)"), Some("Z0H".to_string()));
    assert_eq!(z_encode("(,)"), Some("Z2T".to_string()));
    assert_eq!(z_encode("(,,)"), Some("Z3T".to_string()));
    assert_eq!(z_encode("(#,#)"), Some("Z2H".to_string()));
    assert_eq!(z_encode("(#,,#)"), Some("Z3H".to_string()));
    assert_eq!(z_encode("Trak"), Some("Trak".to_string()));
    assert_eq!(z_encode("foo_wib"), Some("foozuwib".to_string()));
    assert_eq!(z_encode(">"), Some("zg".to_string()));
    assert_eq!(z_encode(">1"), Some("zg1".to_string()));
    assert_eq!(z_encode("foo#"), Some("foozh".to_string()));
    assert_eq!(z_encode("foo##"), Some("foozhzh".to_string()));
    assert_eq!(z_encode("foo##1"), Some("foozhzh1".to_string()));
    assert_eq!(z_encode("fooZ"), Some("fooZZ".to_string()));
    assert_eq!(z_encode(":+"), Some("ZCzp".to_string()));
}

#[test]
fn decode_rejects_bad_escapes() {
    assert_eq!(z_decode("z"), None);
    assert_eq!(z_decode("zx"), None);
    assert_eq!(z_decode("Z"), None);
    assert_eq!(z_decode("ZX"), None);
    assert_eq!(z_decode("z41"), None);
    assert_eq!(z_decode("z0U"), None);
    assert_eq!(z_decode("z0d800U"), None);
    assert_eq!(z_decode("Z256T"), None);
    assert_eq!(z_decode("Z12"), None);
}

#[test]
fn decode_code_points_and_wide_tuples() {
    assert_eq!(z_decode("z41U"), Some("A".to_string()));
    assert_eq!(z_decode("z00U"), Some("\u{0}".to_string()));
    assert_eq!(z_decode("z3bbUx"), Some("\u{3bb}x".to_string()));
    assert_eq!(z_decode("Z12T"), Some("(,,,,,,,,,,,)".to_string()));
    assert_eq!(z_decode("Z1H"), Some("(##)".to_string()));
    assert_eq!(z_decode(""), Some("".to_string()));
}

#[test]
fn encode_rejects_open_tuples() {
    assert_eq!(z_encode("(#"), None);
    assert_eq!(z_encode("(,x)"), None);
    assert_eq!(z_encode("(x)"), Some("ZLxZR".to_string()));
    assert_eq!(z_encode(""), Some("".to_string()));
}

#[test]
fn encode_then_decode() {
    for name in ["foo_wib", "(,,,,,,,,,,)", "a.b->c", "zZ%", "(# #)"] {
        let enc = z_encode(name).unwrap();
        assert_eq!(z_decode(&enc), Some(name.to_string()));
    }
    assert_eq!(z_encode("(,,,,,,,,,,,)"), Some("Z12T".to_string()));
}
