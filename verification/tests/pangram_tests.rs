use bucketmap::pangram::{is_pangram, PangramKind};

#[test]
fn perfect() {
    for input in [
        "abcdefghijklmnopqrstuvwxyz",
        "Mr Jock, TV quiz PhD, bags few lynx,",
        "Cwm fjord-bank glyhps vext quiz",
    ] {
        assert_eq!(PangramKind::Perfect, is_pangram(input));
    }
}

#[test]
fn good() {
    for input in [
        "AaBbcdefghijklmnopqrstuvwxyz",
        "Waltz, bad nymph, for quick jigs vex vec jigs",
    ] {
        assert_eq!(PangramKind::Good, is_pangram(input));
    }
}

#[test]
fn bad() {
    for input in ["_bcdefghijklmnopqrstuvwxyz", "abc", "", " "] {
        assert_eq!(PangramKind::Bad, is_pangram(input));
    }
}

#[test]
fn bad_on_digits_and_non_ascii() {
    assert_eq!(PangramKind::Bad, is_pangram("abcdefghijklmnopqrstuvwxyz1"));
    assert_eq!(PangramKind::Bad, is_pangram("abcdefghijklmnopqrstuvwxyzé"));
}
