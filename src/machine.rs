//! The machine: stepping, the signal path and the text pipeline.
use crate::parts::{
    Plugboard, Reflector, Rotor, RotorState, backward, forward, lemma_reflector_bijective,
    lemma_rotor_bijective, lemma_rotor_inverse, reflector_setting, rotor_ok, rotor_setting,
};
use crate::table::{
    all_letters, alpha_table, byte_of, char_byte, chars_of, distinct_bytes, either_side, has_right,
    lemma_pair_table_involution, lemma_pairs_prefix, letter, pair_table, right_lookup,
};
use vstd::prelude::*;

verus! {

/// What the machine is built from, and how its text is to be formatted.
pub struct EnigmaSettings {
    pub plaintext: String,
    pub reflector: String,
    pub rotor1: String,
    pub rotor1_pos: u8,
    pub rotor2: String,
    pub rotor2_pos: u8,
    pub rotor3: String,
    pub rotor3_pos: u8,
    pub plugboard: String,
    pub preserve_case: bool,
    pub preserve_punctuation: bool,
    pub preserve_spacing: bool,
}

/// Whether a character past ASCII has Unicode's Alphabetic property.
pub uninterp spec fn non_ascii_alphabetic(c: char) -> bool;

/// Whether `c` is an ASCII letter of either case.
pub open spec fn ascii_letter(c: char) -> bool {
    ('a' <= c <= 'z') || ('A' <= c <= 'Z')
}

/// Whether a character has Unicode's Alphabetic property: within ASCII,
/// exactly the letters.
pub open spec fn alphabetic(c: char) -> bool {
    ascii_letter(c) || (c as u32 >= 128 && non_ascii_alphabetic(c))
}

/// Whether a character has Unicode's White_Space property.
pub uninterp spec fn whitespace(c: char) -> bool;

/// Relies on `char::is_alphabetic`: whether `c` has the Alphabetic property,
/// which within ASCII the letters alone have.
#[verifier::external_body]
fn is_alphabetic(c: char) -> (r: bool)
    ensures
        r == (ascii_letter(c) || (c as u32 >= 128 && non_ascii_alphabetic(c))),
{
    c.is_alphabetic()
}

/// Relies on `char::is_whitespace`: whether `c` has the White_Space property.
#[verifier::external_body]
fn is_whitespace(c: char) -> (r: bool)
    ensures
        r == whitespace(c),
{
    c.is_whitespace()
}

/// Relies on `String::push`: appends `c`.
#[verifier::external_body]
fn push_char(s: &mut String, c: char)
    ensures
        final(s)@ == old(s)@.push(c),
{
    s.push(c);
}

/// The machine's parts: plugboard and reflector tables and three rotors,
/// `r0` the one that steps on every letter.
pub ghost struct MachineState {
    pub plug: Map<u8, u8>,
    pub refl: Map<u8, u8>,
    pub r0: RotorState,
    pub r1: RotorState,
    pub r2: RotorState,
}

/// A rotor moved on by one position.
pub open spec fn turned(r: RotorState) -> RotorState {
    RotorState { pos: (r.pos + 1) % 26, ..r }
}

/// The machine after one keystroke's stepping: `r0` always turns, `r1` when
/// `r0` stood at its notch, `r2` when `r1` stood at its notch, both read
/// before anything turns.
pub open spec fn step(m: MachineState) -> MachineState {
    MachineState {
        r0: turned(m.r0),
        r1: if m.r0.pos == m.r0.notch { turned(m.r1) } else { m.r1 },
        r2: if m.r1.pos == m.r1.notch { turned(m.r2) } else { m.r2 },
        ..m
    }
}

/// The signal path at fixed rotor positions: plugboard, the rotors in order,
/// reflector, the rotors in reverse order, plugboard.
pub open spec fn cipher(m: MachineState, b: u8) -> u8 {
    let p = either_side(m.plug, b);
    let f = forward(m.r2, forward(m.r1, forward(m.r0, p)));
    let x = either_side(m.refl, f);
    let g = backward(m.r0, backward(m.r1, backward(m.r2, x)));
    either_side(m.plug, g)
}

/// Whether `c` is an ASCII capital.
pub open spec fn ascii_upper(c: char) -> bool {
    'A' <= c <= 'Z'
}

/// The byte that enters the signal path for a letter: its ASCII lower case.
pub open spec fn lower_byte(c: char) -> u8 {
    if ascii_upper(c) {
        (c as u32 + 32) as u8
    } else {
        byte_of(c)
    }
}

/// `b` in ASCII upper case.
pub open spec fn upper_byte(b: u8) -> u8 {
    if 97 <= b <= 122 {
        (b - 32) as u8
    } else {
        b
    }
}

/// Where the pipeline stands after part of the text: what it wrote, the
/// machine, how many characters are in the current group of five, and the
/// bytes that came out of the signal path.
pub ghost struct RunState {
    pub out: Seq<char>,
    pub machine: MachineState,
    pub group: nat,
    pub stream: Seq<u8>,
}

/// Writes `ch`; without literal spacing, a space follows each fifth
/// character written.
pub open spec fn emit(s: RunState, ch: char, spacing: bool) -> RunState {
    if spacing {
        RunState { out: s.out.push(ch), ..s }
    } else if s.group + 1 == 5 {
        RunState { out: s.out.push(ch).push(' '), group: 0, ..s }
    } else {
        RunState { out: s.out.push(ch), group: s.group + 1, ..s }
    }
}

/// One character of the text: a letter steps the machine and goes through
/// the signal path, its case kept where asked; whitespace is kept only with
/// literal spacing, other characters only where punctuation is kept.
pub open spec fn encode_char(s: RunState, c: char, case: bool, punc: bool, spacing: bool) -> RunState {
    if alphabetic(c) {
        let m = step(s.machine);
        let b = cipher(m, lower_byte(c));
        let ch = if ascii_upper(c) && case { upper_byte(b) as char } else { b as char };
        emit(RunState { machine: m, stream: s.stream.push(b), ..s }, ch, spacing)
    } else if (whitespace(c) && !spacing) || (!whitespace(c) && !punc) {
        s
    } else {
        emit(s, c, spacing)
    }
}

/// The pipeline over the whole of `t`, from machine `m`.
pub open spec fn encode_run(m: MachineState, t: Seq<char>, case: bool, punc: bool, spacing: bool) -> RunState
    decreases t.len(),
{
    if t.len() == 0 {
        RunState { out: Seq::empty(), machine: m, group: 0, stream: Seq::empty() }
    } else {
        encode_char(encode_run(m, t.drop_last(), case, punc, spacing), t.last(), case, punc, spacing)
    }
}

/// The machine that a configuration describes.
pub open spec fn initial_state(s: EnigmaSettings) -> MachineState {
    MachineState {
        plug: pair_table(s.plugboard@),
        refl: pair_table(reflector_setting(s.reflector@)),
        r0: RotorState {
            wiring: alpha_table(rotor_setting(s.rotor1@).0),
            notch: rotor_setting(s.rotor1@).1 as int,
            pos: s.rotor1_pos as int % 26,
        },
        r1: RotorState {
            wiring: alpha_table(rotor_setting(s.rotor2@).0),
            notch: rotor_setting(s.rotor2@).1 as int,
            pos: s.rotor2_pos as int % 26,
        },
        r2: RotorState {
            wiring: alpha_table(rotor_setting(s.rotor3@).0),
            notch: rotor_setting(s.rotor3@).1 as int,
            pos: s.rotor3_pos as int % 26,
        },
    }
}

/// The cipher machine.
pub struct Enigma {
    plugboard: Plugboard,
    reflector: Reflector,
    rotors: [Rotor; 3],
}

impl View for Enigma {
    type V = MachineState;

    closed spec fn view(&self) -> MachineState {
        MachineState {
            plug: self.plugboard@,
            refl: self.reflector@,
            r0: self.rotors@[0]@,
            r1: self.rotors@[1]@,
            r2: self.rotors@[2]@,
        }
    }
}

impl Enigma {
    /// Every part is well formed.
    pub closed spec fn wf(&self) -> bool {
        &&& self.plugboard.wf()
        &&& self.reflector.wf()
        &&& self.rotors@[0].wf()
        &&& self.rotors@[1].wf()
        &&& self.rotors@[2].wf()
    }

    /// The machine that `settings` describes.
    pub fn new(settings: &EnigmaSettings) -> (e: Self)
        ensures
            e.wf(),
            e@ == initial_state(*settings),
    {
        Enigma {
            plugboard: Plugboard::new(settings.plugboard.as_str()),
            reflector: Reflector::new(settings.reflector.as_str()),
            rotors: [
                Rotor::new(settings.rotor1.as_str(), settings.rotor1_pos),
                Rotor::new(settings.rotor2.as_str(), settings.rotor2_pos),
                Rotor::new(settings.rotor3.as_str(), settings.rotor3_pos),
            ],
        }
    }

    /// Steps the rotors as `step` states.
    fn turn_rotors(&mut self)
        requires
            old(self).wf(),
        ensures
            final(self).wf(),
            final(self)@ == step(old(self)@),
    {
        let turn_rot2 = self.rotors[0].at_notch();
        let turn_rot3 = self.rotors[1].at_notch();
        if turn_rot3 {
            self.rotors[2].turn();
        }
        if turn_rot2 {
            self.rotors[1].turn();
        }
        self.rotors[0].turn();
    }

    /// Passes `c` through the rotors from the entry side, first rotor first.
    fn through_rotors_forwards(&self, c: &mut u8)
        requires
            self.wf(),
        ensures
            *final(c) == forward(self@.r2, forward(self@.r1, forward(self@.r0, *old(c)))),
    {
        self.rotors[0].through_forwards(c);
        self.rotors[1].through_forwards(c);
        self.rotors[2].through_forwards(c);
    }

    /// Passes `c` through the rotors from the reflector side, last rotor
    /// first.
    fn through_rotors_backwards(&self, c: &mut u8)
        requires
            self.wf(),
        ensures
            *final(c) == backward(self@.r0, backward(self@.r1, backward(self@.r2, *old(c)))),
    {
        self.rotors[2].through_backwards(c);
        self.rotors[1].through_backwards(c);
        self.rotors[0].through_backwards(c);
    }

    /// One keystroke: steps the rotors, then sends `c` along the signal path.
    pub fn through(&mut self, c: &mut u8)
        requires
            old(self).wf(),
        ensures
            final(self).wf(),
            final(self)@ == step(old(self)@),
            *final(c) == cipher(step(old(self)@), *old(c)),
    {
        self.turn_rotors();
        self.plugboard.through(c);
        self.through_rotors_forwards(c);
        self.reflector.through(c);
        self.through_rotors_backwards(c);
        self.plugboard.through(c);
    }

    /// Transforms `settings.plaintext` character by character, as
    /// `encode_run` states; the rotors are left where the text took them.
    pub fn encode(&mut self, settings: &EnigmaSettings) -> (r: String)
        requires
            old(self).wf(),
        ensures
            final(self).wf(),
            r@ == encode_run(
                old(self)@,
                settings.plaintext@,
                settings.preserve_case,
                settings.preserve_punctuation,
                settings.preserve_spacing,
            ).out,
            final(self)@ == encode_run(
                old(self)@,
                settings.plaintext@,
                settings.preserve_case,
                settings.preserve_punctuation,
                settings.preserve_spacing,
            ).machine,
    {
        let case = settings.preserve_case;
        let punc = settings.preserve_punctuation;
        let spacing = settings.preserve_spacing;
        let text = chars_of(settings.plaintext.as_str());
        let ghost m0 = self@;
        let mut ciphertext = String::new();
        let mut group: u8 = 0;
        let ghost mut stream: Seq<u8> = Seq::empty();
        let mut i: usize = 0;
        while i < text.len()
            invariant
                self.wf(),
                text@ == settings.plaintext@,
                i <= text@.len(),
                group < 5,
                (RunState { out: ciphertext@, machine: self@, group: group as nat, stream })
                    == encode_run(m0, text@.take(i as int), case, punc, spacing),
            decreases text.len() - i,
        {
            let c = text[i];
            proof {
                assert(text@.take(i + 1).drop_last() == text@.take(i as int));
                assert(text@.take(i + 1).last() == c);
            }
            let emitted: char;
            if is_alphabetic(c) {
                let is_upper = 'A' <= c && c <= 'Z';
                let mut c_byte: u8 = if is_upper {
                    (c as u32 + 32) as u8
                } else {
                    char_byte(c)
                };
                self.through(&mut c_byte);
                proof {
                    stream = stream.push(c_byte);
                }
                if is_upper && case && 97 <= c_byte && c_byte <= 122 {
                    c_byte = c_byte - 32;
                }
                emitted = c_byte as char;
            } else {
                let ws = is_whitespace(c);
                if (ws && !spacing) || (!ws && !punc) {
                    i = i + 1;
                    continue;
                }
                emitted = c;
            }
            push_char(&mut ciphertext, emitted);
            if !spacing {
                group = group + 1;
                if group == 5 {
                    push_char(&mut ciphertext, ' ');
                    group = 0;
                }
            }
            i = i + 1;
        }
        proof {
            assert(text@.take(text@.len() as int) == text@);
        }
        ciphertext
    }
}

/// The text that a fresh machine built from `settings` makes of
/// `settings.plaintext`.
pub fn encode(settings: &EnigmaSettings) -> (r: String)
    ensures
        r@ == encode_run(
            initial_state(*settings),
            settings.plaintext@,
            settings.preserve_case,
            settings.preserve_punctuation,
            settings.preserve_spacing,
        ).out,
{
    let mut enigma = Enigma::new(settings);
    enigma.encode(settings)
}

/// The machine after `n` keystrokes.
pub open spec fn steps(m: MachineState, n: nat) -> MachineState
    decreases n,
{
    if n == 0 {
        m
    } else {
        step(steps(m, (n - 1) as nat))
    }
}

/// Each letter of the text steps the machine once, and nothing else steps
/// it: the flags play no part.
pub proof fn lemma_letters_step(m: MachineState, t: Seq<char>, case: bool, punc: bool, spacing: bool)
    requires
        forall|i: int| 0 <= i < t.len() ==> alphabetic(#[trigger] t[i]),
    ensures
        encode_run(m, t, case, punc, spacing).machine == steps(m, t.len()),
    decreases t.len(),
{
    if t.len() > 0 {
        let p = t.drop_last();
        assert forall|i: int| 0 <= i < p.len() implies alphabetic(#[trigger] p[i]) by {
            assert(p[i] == t[i]);
        }
        lemma_letters_step(m, p, case, punc, spacing);
    }
}

/// From positions (0, 0, 0) with notches 25, 13 and 4, the first rotor
/// passes through every position in 26 keystrokes while the second turns
/// once, on the last of them, and the third not at all.
pub proof fn lemma_stepping_from_zero(m: MachineState, k: nat)
    requires
        m.r0.pos == 0,
        m.r1.pos == 0,
        m.r2.pos == 0,
        m.r0.notch == 25,
        m.r1.notch == 13,
        m.r2.notch == 4,
        k <= 26,
    ensures
        steps(m, k).r0.pos == k % 26,
        steps(m, k).r1.pos == (if k == 26 { 1int } else { 0 }),
        steps(m, k).r2.pos == 0,
        steps(m, k).r0.notch == 25,
        steps(m, k).r1.notch == 13,
    decreases k,
{
    if k > 0 {
        lemma_stepping_from_zero(m, (k - 1) as nat);
    }
}

/// Twenty-six letters typed on a machine at (0, 0, 0) with notches 25, 13
/// and 4 leave it at (0, 1, 0), whatever the formatting flags.
pub proof fn lemma_twenty_six_letters(m: MachineState, t: Seq<char>, case: bool, punc: bool, spacing: bool)
    requires
        m.r0.pos == 0,
        m.r1.pos == 0,
        m.r2.pos == 0,
        m.r0.notch == 25,
        m.r1.notch == 13,
        m.r2.notch == 4,
        t.len() == 26,
        forall|i: int| 0 <= i < t.len() ==> alphabetic(#[trigger] t[i]),
    ensures
        encode_run(m, t, case, punc, spacing).machine.r0.pos == 0,
        encode_run(m, t, case, punc, spacing).machine.r1.pos == 1,
        encode_run(m, t, case, punc, spacing).machine.r2.pos == 0,
{
    lemma_letters_step(m, t, case, punc, spacing);
    lemma_stepping_from_zero(m, 26);
}

/// The bytes that the signal path gives for the letters of `t`, in order,
/// and the machine afterwards; nothing here depends on formatting.
pub open spec fn cipher_run(m: MachineState, t: Seq<char>) -> (Seq<u8>, MachineState)
    decreases t.len(),
{
    if t.len() == 0 {
        (Seq::empty(), m)
    } else {
        let (s, m1) = cipher_run(m, t.drop_last());
        if alphabetic(t.last()) {
            let m2 = step(m1);
            (s.push(cipher(m2, lower_byte(t.last()))), m2)
        } else {
            (s, m1)
        }
    }
}

/// The formatting flags change neither the bytes that come out of the
/// signal path nor where the rotors end: only which characters are written
/// and where spaces go.
pub proof fn lemma_formatting_independent(m: MachineState, t: Seq<char>, case: bool, punc: bool, spacing: bool)
    ensures
        encode_run(m, t, case, punc, spacing).stream == cipher_run(m, t).0,
        encode_run(m, t, case, punc, spacing).machine == cipher_run(m, t).1,
    decreases t.len(),
{
    if t.len() > 0 {
        lemma_formatting_independent(m, t.drop_last(), case, punc, spacing);
    }
}

/// A pairing that keeps letters letters and undoes itself on them.
pub open spec fn swap_ok(t: Map<u8, u8>) -> bool {
    forall|b: u8|
        letter(b) ==> letter(#[trigger] either_side(t, b)) && either_side(t, either_side(t, b)) == b
}

/// A machine whose plugboard and reflector pair letters with letters and
/// whose rotors are wired with permutations of the letters.
pub open spec fn machine_ok(m: MachineState) -> bool {
    &&& swap_ok(m.plug)
    &&& swap_ok(m.refl)
    &&& rotor_ok(m.r0)
    &&& rotor_ok(m.r1)
    &&& rotor_ok(m.r2)
}

/// At fixed rotor positions the signal path undoes itself on letters.
pub proof fn lemma_cipher_involution(m: MachineState, b: u8)
    requires
        machine_ok(m),
        letter(b),
    ensures
        letter(cipher(m, b)),
        cipher(m, cipher(m, b)) == b,
{
    let p = either_side(m.plug, b);
    lemma_rotor_inverse(m.r0, p);
    let f0 = forward(m.r0, p);
    lemma_rotor_inverse(m.r1, f0);
    let f1 = forward(m.r1, f0);
    lemma_rotor_inverse(m.r2, f1);
    let f2 = forward(m.r2, f1);
    let x = either_side(m.refl, f2);
    lemma_rotor_inverse(m.r2, x);
    let g2 = backward(m.r2, x);
    lemma_rotor_inverse(m.r1, g2);
    let g1 = backward(m.r1, g2);
    lemma_rotor_inverse(m.r0, g1);
    let g0 = backward(m.r0, g1);
    let out = either_side(m.plug, g0);
    assert(cipher(m, b) == out);
    assert(either_side(m.plug, out) == g0);
}

/// Stepping moves only the rotor positions.
pub proof fn lemma_step_ok(m: MachineState)
    requires
        machine_ok(m),
    ensures
        machine_ok(step(m)),
{
    reveal(rotor_ok);
}

/// A pair table built from distinct letters pairs letters with letters and
/// undoes itself.
pub proof fn lemma_letter_pairs_ok(s: Seq<char>)
    requires
        distinct_bytes(s),
        all_letters(s),
    ensures
        swap_ok(pair_table(s)),
{
    let m = pair_table(s);
    let n = s.len() / 2;
    lemma_pairs_prefix(s, n);
    assert forall|b: u8| letter(b) implies letter(#[trigger] either_side(m, b)) && either_side(
        m,
        either_side(m, b),
    ) == b by {
        lemma_pair_table_involution(s, b);
        if m.contains_key(b) {
            let i = choose|i: int| 0 <= i < n && #[trigger] byte_of(s[2 * i]) == b;
            assert(m[b] == byte_of(s[2 * i + 1]));
            assert(letter(byte_of(s[2 * i + 1])));
        } else if has_right(m, b) {
            let l = choose|k: u8| #[trigger] m.contains_key(k) && m[k] == b;
            assert(right_lookup(m, b) == Some(l));
            let i = choose|i: int| 0 <= i < n && #[trigger] byte_of(s[2 * i]) == l;
            assert(letter(byte_of(s[2 * i])));
        }
    }
}

/// Every reflector pairs letters with letters and undoes itself.
pub proof fn lemma_reflector_ok(name: Seq<char>)
    ensures
        swap_ok(pair_table(reflector_setting(name))),
{
    let t = pair_table(reflector_setting(name));
    assert forall|b: u8| letter(b) implies letter(#[trigger] either_side(t, b)) && either_side(
        t,
        either_side(t, b),
    ) == b by {
        lemma_reflector_bijective(name, b);
    }
}

/// A machine built from any rotor and reflector names, and a plugboard
/// string of distinct letters, is well wired.
pub proof fn lemma_initial_ok(st: EnigmaSettings)
    requires
        distinct_bytes(st.plugboard@),
        all_letters(st.plugboard@),
    ensures
        machine_ok(initial_state(st)),
{
    let m = initial_state(st);
    lemma_letter_pairs_ok(st.plugboard@);
    lemma_reflector_ok(st.reflector@);
    lemma_rotor_bijective(st.rotor1@, m.r0.notch, m.r0.pos);
    lemma_rotor_bijective(st.rotor2@, m.r1.notch, m.r1.pos);
    lemma_rotor_bijective(st.rotor3@, m.r2.notch, m.r2.pos);
}

/// Whether every character of `t` is a lower-case ASCII letter.
pub open spec fn lowercase_text(t: Seq<char>) -> bool {
    forall|i: int| 0 <= i < t.len() ==> 'a' <= #[trigger] t[i] <= 'z'
}

/// Run over lower-case letters with literal spacing, the pipeline writes
/// lower-case letters, one for each, and the same machine run over what it
/// wrote writes the text back and ends where the first run ended.
pub proof fn lemma_run_reciprocal(m: MachineState, t: Seq<char>, case: bool, punc: bool)
    requires
        machine_ok(m),
        lowercase_text(t),
    ensures
        machine_ok(encode_run(m, t, case, punc, true).machine),
        encode_run(m, t, case, punc, true).out.len() == t.len(),
        lowercase_text(encode_run(m, t, case, punc, true).out),
        encode_run(m, encode_run(m, t, case, punc, true).out, case, punc, true).out == t,
        encode_run(m, encode_run(m, t, case, punc, true).out, case, punc, true).machine
            == encode_run(m, t, case, punc, true).machine,
    decreases t.len(),
{
    if t.len() > 0 {
        let p = t.drop_last();
        let x = t.last();
        assert(lowercase_text(p)) by {
            assert forall|i: int| 0 <= i < p.len() implies 'a' <= #[trigger] p[i] <= 'z' by {
                assert(p[i] == t[i]);
            }
        }
        lemma_run_reciprocal(m, p, case, punc);
        let r1 = encode_run(m, p, case, punc, true);
        let r2 = encode_run(m, r1.out, case, punc, true);
        let m2 = step(r1.machine);
        lemma_step_ok(r1.machine);
        let bx = lower_byte(x);
        assert('a' <= x <= 'z');
        assert(bx == x as u32);
        lemma_cipher_involution(m2, bx);
        let b = cipher(m2, bx);
        let ch = b as char;
        let full = encode_run(m, t, case, punc, true);
        assert(full.out == r1.out.push(ch));
        assert(full.machine == m2);
        assert(full.out.drop_last() == r1.out);
        assert(full.out.last() == ch);
        assert(lower_byte(ch) == b);
        assert(encode_run(m, full.out, case, punc, true).out == r2.out.push(bx as char));
        assert((bx as char) == x);
        assert(t == p.push(x));
        assert(lowercase_text(full.out)) by {
            assert forall|i: int| 0 <= i < full.out.len() implies 'a' <= #[trigger] full.out[i] <= 'z' by {
                if i < r1.out.len() {
                    assert(full.out[i] == r1.out[i]);
                }
            }
        }
    }
}

/// A fresh machine turns the text that an identically configured fresh
/// machine made of lower-case letters back into those letters, where
/// spacing is kept literally and the plugboard pairs distinct letters.
pub proof fn lemma_reciprocity(st: EnigmaSettings, t: Seq<char>)
    requires
        distinct_bytes(st.plugboard@),
        all_letters(st.plugboard@),
        lowercase_text(t),
        st.preserve_spacing,
    ensures
        encode_run(
            initial_state(st),
            encode_run(initial_state(st), t, st.preserve_case, st.preserve_punctuation, true).out,
            st.preserve_case,
            st.preserve_punctuation,
            true,
        ).out == t,
{
    lemma_initial_ok(st);
    lemma_run_reciprocal(initial_state(st), t, st.preserve_case, st.preserve_punctuation);
}

} // verus!
