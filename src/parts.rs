//! The rotor, the reflector and the plugboard.
use crate::table::{
    Table, all_letters, alpha_table, byte_of, distinct_bytes, either_side, injective, letter,
    lemma_alpha_prefix, lemma_covers_letters, lemma_pair_table_apart, lemma_pair_table_involution,
    lemma_pairs_prefix, lemma_right_lookup, map_against_alpha, map_by_pair, pair_table,
    right_lookup, has_right,
};
use vstd::prelude::*;

verus! {

/// Number of letters on a rotor.
pub const LETTERS: u8 = 26;

/// Wiring of rotor I.
pub const ROTOR_I: &'static str = "ekmflgdqvzntowyhxuspaibrcj";

/// Wiring of rotor II.
pub const ROTOR_II: &'static str = "ajdksiruxblhwtmcqgznpyfvoe";

/// Wiring of rotor III.
pub const ROTOR_III: &'static str = "bdfhjlcprtxvznyeiwgakmusqo";

/// Wiring of rotor IV.
pub const ROTOR_IV: &'static str = "esovpzjayquirhxlnftgkdcmwb";

/// Wiring of rotor V.
pub const ROTOR_V: &'static str = "vzbrgityupsdnhlxawmjqofeck";

/// Pairs of reflector UKW-A.
pub const UKWA: &'static str = "eajbmczdlfygxhviwkrnqoupts";

/// Pairs of reflector UKW-B.
pub const UKWB: &'static str = "yarbuchdqesflgpixjnkomztwv";

/// Pairs of reflector UKW-C.
pub const UKWC: &'static str = "favbpcjdieogyhrkzlxmwntqus";

/// Whether two strings hold the same characters.
pub fn same_text(a: &str, b: &str) -> (r: bool)
    ensures
        r == (a@ == b@),
{
    let n = a.unicode_len();
    if n != b.unicode_len() {
        return false;
    }
    let mut i: usize = 0;
    while i < n
        invariant
            n == a@.len(),
            n == b@.len(),
            i <= n,
            a@.take(i as int) == b@.take(i as int),
        decreases n - i,
    {
        if a.get_char(i) != b.get_char(i) {
            assert(a@[i as int] != b@[i as int]);
            return false;
        }
        assert(a@.take(i + 1) == a@.take(i as int).push(a@[i as int]));
        assert(b@.take(i + 1) == b@.take(i as int).push(b@[i as int]));
        i = i + 1;
    }
    assert(a@ == a@.take(n as int));
    assert(b@ == b@.take(n as int));
    true
}

/// The wiring and notch of the rotor called `name`; rotor I for a name that
/// is none of I to V.
pub open spec fn rotor_setting(name: Seq<char>) -> (Seq<char>, u8) {
    if name == "II"@ {
        (ROTOR_II@, 13)
    } else if name == "III"@ {
        (ROTOR_III@, 4)
    } else if name == "IV"@ {
        (ROTOR_IV@, 18)
    } else if name == "V"@ {
        (ROTOR_V@, 8)
    } else {
        (ROTOR_I@, 25)
    }
}

/// The pairs of the reflector called `name`; UKW-A for a name that is none
/// of UKWA, UKWB, UKWC.
pub open spec fn reflector_setting(name: Seq<char>) -> Seq<char> {
    if name == "UKWB"@ {
        UKWB@
    } else if name == "UKWC"@ {
        UKWC@
    } else {
        UKWA@
    }
}

/// `b` moved `k` letters on round the alphabet, as a letter.
pub open spec fn shift(b: u8, k: int) -> u8 {
    (97 + (b - 97 + k) % 26) as u8
}

/// What a rotor is: its wiring, its notch and its position.
pub ghost struct RotorState {
    pub wiring: Map<u8, u8>,
    pub notch: int,
    pub pos: int,
}

/// A signal through the rotor from the entry side: moved on by the position,
/// through the wiring from the left, moved back; unchanged where the wiring
/// has no pair for it.
#[verifier::opaque]
pub open spec fn forward(r: RotorState, b: u8) -> u8 {
    let s = shift(b, r.pos);
    if r.wiring.contains_key(s) {
        shift(r.wiring[s], -r.pos)
    } else {
        b
    }
}

/// A signal through the rotor from the reflector side, through the wiring
/// from the right.
#[verifier::opaque]
pub open spec fn backward(r: RotorState, b: u8) -> u8 {
    let s = shift(b, r.pos);
    match right_lookup(r.wiring, s) {
        Some(l) => shift(l, -r.pos),
        None => b,
    }
}

/// A wired disk that turns.
pub struct Rotor {
    settings: Table,
    notch_pos: u8,
    curr_pos: u8,
}

impl View for Rotor {
    type V = RotorState;

    closed spec fn view(&self) -> RotorState {
        RotorState {
            wiring: self.settings@,
            notch: self.notch_pos as int,
            pos: self.curr_pos as int,
        }
    }
}

impl Rotor {
    /// The wiring is one-to-one and both positions are below 26.
    pub closed spec fn wf(&self) -> bool {
        &&& self.settings.wf()
        &&& self.notch_pos < 26
        &&& self.curr_pos < 26
    }

    /// The rotor called `rotor_name` (rotor I for an unknown name) at
    /// position `rotor_pos` modulo 26.
    pub fn new(rotor_name: &str, rotor_pos: u8) -> (r: Self)
        ensures
            r.wf(),
            r@ == (RotorState {
                wiring: crate::table::alpha_table(rotor_setting(rotor_name@).0),
                notch: rotor_setting(rotor_name@).1 as int,
                pos: rotor_pos as int % 26,
            }),
    {
        let (scrambled_alpha, notch_pos): (&str, u8) = if same_text(rotor_name, "II") {
            (ROTOR_II, 13)
        } else if same_text(rotor_name, "III") {
            (ROTOR_III, 4)
        } else if same_text(rotor_name, "IV") {
            (ROTOR_IV, 18)
        } else if same_text(rotor_name, "V") {
            (ROTOR_V, 8)
        } else {
            (ROTOR_I, 25)
        };
        proof {
            reveal_strlit("ekmflgdqvzntowyhxuspaibrcj");
            reveal_strlit("ajdksiruxblhwtmcqgznpyfvoe");
            reveal_strlit("bdfhjlcprtxvznyeiwgakmusqo");
            reveal_strlit("esovpzjayquirhxlnftgkdcmwb");
            reveal_strlit("vzbrgityupsdnhlxawmjqofeck");
        }
        Rotor {
            settings: map_against_alpha(scrambled_alpha),
            notch_pos,
            curr_pos: rotor_pos % LETTERS,
        }
    }

    /// Passes `c` through the rotor from the entry side.
    pub fn through_forwards(&self, c: &mut u8)
        requires
            self.wf(),
        ensures
            *final(c) == forward(self@, *old(c)),
    {
        reveal(forward);
        if let Some(new_c) = self.settings.lookup_left(self.shift(c)) {
            *c = self.unshift(&new_c);
        }
    }

    /// Passes `c` through the rotor from the reflector side.
    pub fn through_backwards(&self, c: &mut u8)
        requires
            self.wf(),
        ensures
            *final(c) == backward(self@, *old(c)),
    {
        reveal(backward);
        if let Some(new_c) = self.settings.lookup_right(self.shift(c)) {
            *c = self.unshift(&new_c);
        }
    }

    /// Moves the rotor on by one position.
    pub fn turn(&mut self)
        requires
            old(self).wf(),
        ensures
            final(self).wf(),
            final(self)@ == (RotorState { pos: (old(self)@.pos + 1) % 26, ..old(self)@ }),
    {
        self.curr_pos = (self.curr_pos + 1) % LETTERS;
    }

    /// Whether the rotor stands at its notch.
    pub fn at_notch(&self) -> (r: bool)
        ensures
            r == (self@.pos == self@.notch),
    {
        self.curr_pos == self.notch_pos
    }

    /// `c` moved on by the rotor's position.
    fn shift(&self, c: &u8) -> (r: u8)
        requires
            self.wf(),
        ensures
            r == shift(*c, self@.pos),
    {
        let k: u32 = ((*c as u32) + 163 + self.curr_pos as u32) % 26;
        assert(k == (*c - 97 + self@.pos) % 26) by (nonlinear_arith)
            requires
                k == ((*c as u32) + 163 + self.curr_pos as u32) % 26,
        ;
        k as u8 + 97
    }

    /// `c` moved back by the rotor's position.
    fn unshift(&self, c: &u8) -> (r: u8)
        requires
            self.wf(),
        ensures
            r == shift(*c, -self@.pos),
    {
        let k: u32 = ((*c as u32) + 189 - self.curr_pos as u32) % 26;
        assert(k == (*c - 97 - self@.pos) % 26) by (nonlinear_arith)
            requires
                k == ((*c as u32) + 189 - self.curr_pos as u32) % 26,
                self.curr_pos < 26,
        ;
        k as u8 + 97
    }
}

/// A fixed wiring that sends the signal back.
pub struct Reflector {
    settings: Table,
}

impl View for Reflector {
    type V = Map<u8, u8>;

    closed spec fn view(&self) -> Map<u8, u8> {
        self.settings@
    }
}

impl Reflector {
    /// The wiring is one-to-one.
    pub closed spec fn wf(&self) -> bool {
        self.settings.wf()
    }

    /// The reflector called `reflector_name`; UKW-A for an unknown name.
    pub fn new(reflector_name: &str) -> (r: Self)
        ensures
            r.wf(),
            r@ == crate::table::pair_table(reflector_setting(reflector_name@)),
    {
        let pairs: &str = if same_text(reflector_name, "UKWB") {
            UKWB
        } else if same_text(reflector_name, "UKWC") {
            UKWC
        } else {
            UKWA
        };
        Reflector { settings: map_by_pair(pairs) }
    }

    /// Sends `c` back: the letter paired with it, or `c` where there is none.
    pub fn through(&self, c: &mut u8)
        ensures
            *final(c) == either_side(self@, *old(c)),
    {
        *c = self.settings.either(*c);
    }
}

/// Letters swapped in pairs before and after the rotors.
pub struct Plugboard {
    settings: Table,
}

impl View for Plugboard {
    type V = Map<u8, u8>;

    closed spec fn view(&self) -> Map<u8, u8> {
        self.settings@
    }
}

impl Plugboard {
    /// The pairing is one-to-one.
    pub closed spec fn wf(&self) -> bool {
        self.settings.wf()
    }

    /// The plugboard that swaps `pairs[0]` with `pairs[1]`, `pairs[2]` with
    /// `pairs[3]` and so on.
    pub fn new(pairs: &str) -> (r: Self)
        ensures
            r.wf(),
            r@ == crate::table::pair_table(pairs@),
    {
        Plugboard { settings: map_by_pair(pairs) }
    }

    /// The letter that `c` is plugged to, or `c` where it is in no pair.
    pub fn through(&self, c: &mut u8)
        ensures
            *final(c) == either_side(self@, *old(c)),
    {
        *c = self.settings.either(*c);
    }
}

/// A rotor name that is none of I to V gives rotor I.
pub proof fn lemma_unknown_rotor(name: Seq<char>)
    requires
        name != "II"@,
        name != "III"@,
        name != "IV"@,
        name != "V"@,
    ensures
        rotor_setting(name) == rotor_setting("I"@),
{
    reveal_strlit("I");
    reveal_strlit("II");
    reveal_strlit("III");
    reveal_strlit("IV");
    reveal_strlit("V");
    assert("I"@.len() == 1);
    assert("II"@.len() == 2);
    assert("III"@.len() == 3);
    assert("IV"@.len() == 2);
    assert("IV"@[1] != "I"@[0]);
    assert("V"@[0] != "I"@[0]);
}

/// The rotor name "ZZ" gives rotor I.
pub proof fn lemma_rotor_zz()
    ensures
        rotor_setting("ZZ"@) == rotor_setting("I"@),
{
    reveal_strlit("ZZ");
    reveal_strlit("II");
    reveal_strlit("III");
    reveal_strlit("IV");
    reveal_strlit("V");
    assert("ZZ"@[0] != "II"@[0]);
    assert("ZZ"@.len() != "III"@.len());
    assert("ZZ"@[0] != "IV"@[0]);
    assert("ZZ"@.len() != "V"@.len());
    lemma_unknown_rotor("ZZ"@);
}

/// A reflector name that is none of UKWA, UKWB, UKWC gives UKW-A.
pub proof fn lemma_unknown_reflector(name: Seq<char>)
    requires
        name != "UKWB"@,
        name != "UKWC"@,
    ensures
        reflector_setting(name) == reflector_setting("UKWA"@),
{
    reveal_strlit("UKWA");
    reveal_strlit("UKWB");
    reveal_strlit("UKWC");
    assert("UKWA"@[3] != "UKWB"@[3]);
    assert("UKWA"@[3] != "UKWC"@[3]);
}

/// The wirings of the rotors and reflectors each hold twenty-six distinct
/// letters.
pub proof fn lemma_wirings_are_letters()
    ensures
        ROTOR_I@.len() == 26 && distinct_bytes(ROTOR_I@) && all_letters(ROTOR_I@),
        ROTOR_II@.len() == 26 && distinct_bytes(ROTOR_II@) && all_letters(ROTOR_II@),
        ROTOR_III@.len() == 26 && distinct_bytes(ROTOR_III@) && all_letters(ROTOR_III@),
        ROTOR_IV@.len() == 26 && distinct_bytes(ROTOR_IV@) && all_letters(ROTOR_IV@),
        ROTOR_V@.len() == 26 && distinct_bytes(ROTOR_V@) && all_letters(ROTOR_V@),
        UKWA@.len() == 26 && distinct_bytes(UKWA@) && all_letters(UKWA@),
        UKWB@.len() == 26 && distinct_bytes(UKWB@) && all_letters(UKWB@),
        UKWC@.len() == 26 && distinct_bytes(UKWC@) && all_letters(UKWC@),
{
    reveal_strlit("ekmflgdqvzntowyhxuspaibrcj");
    reveal_strlit("ajdksiruxblhwtmcqgznpyfvoe");
    reveal_strlit("bdfhjlcprtxvznyeiwgakmusqo");
    reveal_strlit("esovpzjayquirhxlnftgkdcmwb");
    reveal_strlit("vzbrgityupsdnhlxawmjqofeck");
    reveal_strlit("eajbmczdlfygxhviwkrnqoupts");
    reveal_strlit("yarbuchdqesflgpixjnkomztwv");
    reveal_strlit("favbpcjdieogyhrkzlxmwntqus");
}

/// The table maps each letter to a letter, no two letters to the same one,
/// reaches every letter, and holds nothing but letters.
pub open spec fn letter_permutation(m: Map<u8, u8>) -> bool {
    &&& injective(m)
    &&& forall|b: u8| #[trigger] m.contains_key(b) <==> letter(b)
    &&& forall|b: u8| m.contains_key(b) ==> letter(#[trigger] m[b])
    &&& forall|y: u8| letter(y) ==> exists|b: u8| m.contains_key(b) && #[trigger] m[b] == y
}

/// Every rotor's wiring, the fallback included, is a permutation of the
/// letters.
pub proof fn lemma_rotor_bijective(name: Seq<char>, notch: int, pos: int)
    ensures
        letter_permutation(alpha_table(rotor_setting(name).0)),
        rotor_ok(RotorState { wiring: alpha_table(rotor_setting(name).0), notch, pos }),
{
    reveal(rotor_ok);
    lemma_wirings_are_letters();
    let s = rotor_setting(name).0;
    let m = alpha_table(s);
    lemma_alpha_prefix(s, 26);
    assert forall|a: u8, b: u8| m.contains_key(a) && m.contains_key(b) && m[a] == m[b] implies a == b by {
        let i = choose|i: int| 0 <= i < 26 && #[trigger] byte_of(s[i]) == a;
        let j = choose|j: int| 0 <= j < 26 && #[trigger] byte_of(s[j]) == b;
        assert(m[a] == 97 + i);
        assert(m[b] == 97 + j);
    }
    assert forall|b: u8| #[trigger] m.contains_key(b) <==> letter(b) by {
        if m.contains_key(b) {
            let i = choose|i: int| 0 <= i < 26 && #[trigger] byte_of(s[i]) == b;
            assert(letter(byte_of(s[i])));
        }
        if letter(b) {
            lemma_covers_letters(s, b);
            let i = choose|i: int| 0 <= i < 26 && #[trigger] byte_of(s[i]) == b;
            assert(m.contains_key(byte_of(s[i])));
        }
    }
    assert forall|b: u8| m.contains_key(b) implies letter(#[trigger] m[b]) by {
        let i = choose|i: int| 0 <= i < 26 && #[trigger] byte_of(s[i]) == b;
        assert(m[byte_of(s[i])] == 97 + i);
    }
    assert forall|y: u8| letter(y) implies exists|b: u8| m.contains_key(b) && #[trigger] m[b] == y by {
        let i: int = y - 97;
        assert(m.contains_key(byte_of(s[i])) && m[byte_of(s[i])] == y);
    }
}

/// Every reflector, the fallback included, sends each letter to another
/// letter, and sending that back gives the first.
pub proof fn lemma_reflector_bijective(name: Seq<char>, c: u8)
    requires
        letter(c),
    ensures
        letter(either_side(pair_table(reflector_setting(name)), c)),
        either_side(pair_table(reflector_setting(name)), c) != c,
        either_side(
            pair_table(reflector_setting(name)),
            either_side(pair_table(reflector_setting(name)), c),
        ) == c,
{
    lemma_wirings_are_letters();
    let s = reflector_setting(name);
    let m = pair_table(s);
    lemma_pair_table_apart(s);
    lemma_pair_table_involution(s, c);
    lemma_pairs_prefix(s, 13);
    lemma_covers_letters(s, c);
    let j = choose|j: int| 0 <= j < 26 && #[trigger] byte_of(s[j]) == c;
    let i: int = j / 2;
    assert(m.contains_key(byte_of(s[2 * i])));
    if j == 2 * i {
        assert(m[c] == byte_of(s[2 * i + 1]));
    } else {
        assert(j == 2 * i + 1);
        lemma_right_lookup(m, byte_of(s[2 * i]));
        assert(!m.contains_key(c));
        assert(either_side(m, c) == byte_of(s[2 * i]));
    }
}

/// Through any reflector, reflecting twice gives back what went in.
pub proof fn lemma_reflector_involution(name: Seq<char>, c: u8)
    ensures
        either_side(
            pair_table(reflector_setting(name)),
            either_side(pair_table(reflector_setting(name)), c),
        ) == c,
{
    lemma_wirings_are_letters();
    lemma_pair_table_involution(reflector_setting(name), c);
}

/// Through a plugboard whose pairs hold no byte twice, swapping twice gives
/// back what went in.
pub proof fn lemma_plugboard_involution(pairs: Seq<char>, c: u8)
    requires
        distinct_bytes(pairs),
    ensures
        either_side(pair_table(pairs), either_side(pair_table(pairs), c)) == c,
{
    lemma_pair_table_involution(pairs, c);
}

/// Moving a letter on and back again gives the letter; moving anything on
/// gives a letter.
pub proof fn lemma_shift_back(b: u8, k: int)
    ensures
        letter(shift(b, k)),
        letter(b) ==> shift(shift(b, k), -k) == b,
{
    let x: int = b - 97;
    let r = (x + k) % 26;
    assert(0 <= r < 26);
    if letter(b) {
        assert((r - k) % 26 == x) by (nonlinear_arith)
            requires
                r == (x + k) % 26,
                0 <= x < 26,
        ;
    }
}

/// A rotor whose wiring is a permutation of the letters.
#[verifier::opaque]
pub open spec fn rotor_ok(r: RotorState) -> bool {
    letter_permutation(r.wiring)
}

/// Through a well-wired rotor a letter stays a letter, and the backward
/// pass undoes the forward pass and the other way round.
pub proof fn lemma_rotor_inverse(r: RotorState, b: u8)
    requires
        rotor_ok(r),
        letter(b),
    ensures
        letter(forward(r, b)),
        letter(backward(r, b)),
        backward(r, forward(r, b)) == b,
        forward(r, backward(r, b)) == b,
{
    reveal(forward);
    reveal(backward);
    reveal(rotor_ok);
    let s = shift(b, r.pos);
    lemma_shift_back(b, r.pos);
    assert(r.wiring.contains_key(s));
    let w = r.wiring[s];
    lemma_shift_back(w, -r.pos);
    assert(-(-r.pos) == r.pos);
    assert(shift(forward(r, b), r.pos) == w);
    lemma_right_lookup(r.wiring, s);
    assert(has_right(r.wiring, s));
    let l = choose|k: u8| #[trigger] r.wiring.contains_key(k) && r.wiring[k] == s;
    assert(right_lookup(r.wiring, s) == Some(l));
    lemma_shift_back(l, -r.pos);
    assert(letter(l));
    assert(shift(backward(r, b), r.pos) == l);
}

} // verus!
