use enigma::machine::{encode, Enigma, EnigmaSettings};
use enigma::parts::{Plugboard, Reflector, Rotor};
use enigma::table::{map_against_alpha, map_by_pair};

fn settings(
    text: &str,
    plugboard: &str,
    reflector: &str,
    rotors: [(&str, u8); 3],
    flags: (bool, bool, bool),
) -> EnigmaSettings {
    EnigmaSettings {
        plaintext: text.to_string(),
        reflector: reflector.to_string(),
        rotor1: rotors[0].0.to_string(),
        rotor1_pos: rotors[0].1,
        rotor2: rotors[1].0.to_string(),
        rotor2_pos: rotors[1].1,
        rotor3: rotors[2].0.to_string(),
        rotor3_pos: rotors[2].1,
        plugboard: plugboard.to_string(),
        preserve_case: flags.0,
        preserve_punctuation: flags.1,
        preserve_spacing: flags.2,
    }
}

const ZERO: [(&str, u8); 3] = [("I", 0), ("II", 0), ("III", 0)];

#[test]
fn reciprocity_example() {
    let rotors = [("II", 23), ("I", 1), ("V", 0)];
    let s = settings("thequickbrownfox", "abghfi", "UKWA", rotors, (true, true, true));
    let c = encode(&s);
    assert_eq!(c, "mmsbydpdeumqitbg");
    let back = settings(&c, "abghfi", "UKWA", rotors, (true, true, true));
    assert_eq!(encode(&back), "thequickbrownfox");
}

#[test]
fn reciprocity_keeps_capitals() {
    let rotors = [("IV", 5), ("III", 17), ("II", 9)];
    let s = settings("AttackAtDawn", "qwerty", "UKWC", rotors, (true, true, true));
    let c = encode(&s);
    assert_ne!(c, "AttackAtDawn");
    let back = settings(&c, "qwerty", "UKWC", rotors, (true, true, true));
    assert_eq!(encode(&back), "AttackAtDawn");
}

#[test]
fn grouping_in_fives() {
    let s = settings("helloworld", "", "UKWB", ZERO, (false, false, false));
    let out = encode(&s);
    assert_eq!(out, "ecmam ieyrr ");
    let chars: Vec<char> = out.chars().collect();
    assert_eq!(chars[5], ' ');
    assert!(chars[..5].iter().all(|c| c.is_ascii_lowercase()));
    assert!(chars[6..11].iter().all(|c| c.is_ascii_lowercase()));
}

#[test]
fn grouping_counts_kept_punctuation() {
    let s = settings("ab1 cd", "", "UKWB", ZERO, (false, true, false));
    assert_eq!(encode(&s), "zv1ek ");
}

#[test]
fn formatting_flags_keep_the_letters() {
    let text = "Hello, World!";
    let all = encode(&settings(text, "", "UKWB", ZERO, (true, true, true)));
    let bare = encode(&settings(text, "", "UKWB", ZERO, (false, false, true)));
    let grouped = encode(&settings(text, "", "UKWB", ZERO, (true, true, false)));
    assert_eq!(all, "Ecmam, Ieyrr!");
    assert_eq!(bare, "ecmam ieyrr");
    assert_eq!(grouped, "Ecmam ,Ieyr r!");
    let letters = |s: &str| -> String {
        s.chars().filter(|c| c.is_ascii_alphabetic()).map(|c| c.to_ascii_lowercase()).collect()
    };
    assert_eq!(letters(&all), letters(&bare));
    assert_eq!(letters(&all), letters(&grouped));
}

#[test]
fn same_letters_differ_as_rotors_step() {
    let s = settings("aaaaa", "", "UKWB", ZERO, (false, false, true));
    assert_eq!(encode(&s), "zshlq");
}

#[test]
fn machine_is_stateful() {
    let s = settings("hello", "", "UKWB", ZERO, (false, false, true));
    let mut e = Enigma::new(&s);
    let first = e.encode(&s);
    let second = e.encode(&s);
    assert_eq!(first, "ecmam");
    assert_ne!(first, second);
}

#[test]
fn twenty_six_letters_carry_once() {
    let typed = settings("abcdefghijklmnopqrstuvwxyz", "", "UKWB", ZERO, (false, false, true));
    let mut e = Enigma::new(&typed);
    e.encode(&typed);
    let probe = settings("thequickbrownfoxjumps", "", "UKWB", ZERO, (false, false, true));
    let after = e.encode(&probe);
    let moved = settings(
        "thequickbrownfoxjumps",
        "",
        "UKWB",
        [("I", 0), ("II", 1), ("III", 0)],
        (false, false, true),
    );
    assert_eq!(after, encode(&moved));
    let unmoved = settings(
        "thequickbrownfoxjumps",
        "",
        "UKWB",
        ZERO,
        (false, false, true),
    );
    assert_ne!(after, encode(&unmoved));
}

#[test]
fn unknown_rotor_is_rotor_one() {
    let zz = settings("fallbacktext", "ab", "UKWA", [("ZZ", 7), ("II", 3), ("ZZ", 0)], (true, true, true));
    let one = settings("fallbacktext", "ab", "UKWA", [("I", 7), ("II", 3), ("I", 0)], (true, true, true));
    assert_eq!(encode(&zz), encode(&one));
    let r = Rotor::new("ZZ", 4);
    let i = Rotor::new("I", 4);
    for b in b'a'..=b'z' {
        let (mut x, mut y) = (b, b);
        r.through_forwards(&mut x);
        i.through_forwards(&mut y);
        assert_eq!(x, y);
    }
}

#[test]
fn unknown_reflector_is_ukwa() {
    let odd = settings("reflector", "", "ukwb", ZERO, (true, true, true));
    let a = settings("reflector", "", "UKWA", ZERO, (true, true, true));
    let b = settings("reflector", "", "UKWB", ZERO, (true, true, true));
    assert_eq!(encode(&odd), encode(&a));
    assert_ne!(encode(&a), encode(&b));
}

#[test]
fn rotor_wirings_are_permutations() {
    for name in ["I", "II", "III", "IV", "V"] {
        for pos in [0u8, 11, 25] {
            let r = Rotor::new(name, pos);
            let mut seen = [false; 26];
            for b in b'a'..=b'z' {
                let mut c = b;
                r.through_forwards(&mut c);
                assert!(c.is_ascii_lowercase());
                assert!(!seen[(c - b'a') as usize]);
                seen[(c - b'a') as usize] = true;
                r.through_backwards(&mut c);
                assert_eq!(c, b);
            }
        }
    }
}

#[test]
fn rotor_exact_values() {
    let r0 = Rotor::new("I", 0);
    let mut c = b'a';
    r0.through_forwards(&mut c);
    assert_eq!(c, b'u');
    r0.through_backwards(&mut c);
    assert_eq!(c, b'a');
    let r1 = Rotor::new("I", 1);
    let mut d = b'a';
    r1.through_forwards(&mut d);
    assert_eq!(d, b'v');
}

#[test]
fn rotor_turns_and_notches() {
    let mut r = Rotor::new("I", 25);
    assert!(r.at_notch());
    r.turn();
    assert!(!r.at_notch());
    let zero = Rotor::new("I", 0);
    let wrapped = Rotor::new("I", 27);
    let one = Rotor::new("I", 1);
    for b in b'a'..=b'z' {
        let (mut x, mut y, mut z, mut w) = (b, b, b, b);
        r.through_forwards(&mut x);
        zero.through_forwards(&mut y);
        wrapped.through_forwards(&mut z);
        one.through_forwards(&mut w);
        assert_eq!(x, y);
        assert_eq!(z, w);
    }
    assert!(Rotor::new("II", 13).at_notch());
    assert!(Rotor::new("III", 4).at_notch());
    assert!(Rotor::new("IV", 18).at_notch());
    assert!(Rotor::new("V", 8).at_notch());
}

#[test]
fn reflectors_are_involutions() {
    for name in ["UKWA", "UKWB", "UKWC"] {
        let refl = Reflector::new(name);
        for b in b'a'..=b'z' {
            let mut c = b;
            refl.through(&mut c);
            assert!(c.is_ascii_lowercase());
            assert_ne!(c, b);
            refl.through(&mut c);
            assert_eq!(c, b);
        }
    }
    let refl = Reflector::new("UKWA");
    let mut e = b'e';
    refl.through(&mut e);
    assert_eq!(e, b'a');
    let mut a = b'a';
    refl.through(&mut a);
    assert_eq!(a, b'e');
}

#[test]
fn plugboard_swaps_and_passes_through() {
    let p = Plugboard::new("abghfiz");
    let cases = [(b'a', b'b'), (b'b', b'a'), (b'g', b'h'), (b'i', b'f'), (b'c', b'c'), (b'z', b'z')];
    for (input, expected) in cases {
        let mut c = input;
        p.through(&mut c);
        assert_eq!(c, expected);
        p.through(&mut c);
        assert_eq!(c, input);
    }
}

#[test]
fn pair_table_last_write_wins() {
    let t = map_by_pair("abac");
    assert_eq!(t.lookup_left(b'a'), Some(b'c'));
    assert_eq!(t.lookup_right(b'c'), Some(b'a'));
    assert_eq!(t.lookup_right(b'b'), None);
    assert_eq!(t.lookup_left(b'b'), None);
    let u = map_by_pair("abcd");
    assert_eq!(u.lookup_left(b'c'), Some(b'd'));
    assert_eq!(u.lookup_right(b'b'), Some(b'a'));
    assert_eq!(u.either(b'd'), b'c');
    assert_eq!(u.either(b'x'), b'x');
}

#[test]
fn alphabet_table_pairs_positions() {
    let t = map_against_alpha("ekmflgdqvzntowyhxuspaibrcj");
    assert_eq!(t.lookup_left(b'e'), Some(b'a'));
    assert_eq!(t.lookup_left(b'j'), Some(b'z'));
    assert_eq!(t.lookup_right(b'c'), Some(b'm'));
    assert_eq!(t.lookup_left(b'?'), None);
}

#[test]
fn whitespace_and_punctuation_policy() {
    let kept = settings("a b.c", "", "UKWB", ZERO, (false, true, true));
    let out = encode(&kept);
    let chars: Vec<char> = out.chars().collect();
    assert_eq!(chars.len(), 5);
    assert_eq!(chars[1], ' ');
    assert_eq!(chars[3], '.');
    let dropped = settings("a b.c", "", "UKWB", ZERO, (false, false, true));
    assert_eq!(encode(&dropped).chars().count(), 4);
    let grouped = settings("a b.c", "", "UKWB", ZERO, (false, true, false));
    assert_eq!(encode(&grouped).chars().count(), 4);
    let tab = settings("a\tb", "", "UKWB", ZERO, (false, false, true));
    assert_eq!(encode(&tab).chars().nth(1), Some('\t'));
}

#[test]
fn empty_text_gives_empty_output() {
    let s = settings("", "ab", "UKWC", ZERO, (true, true, false));
    assert_eq!(encode(&s), "");
}
