//! A two-way table of byte pairs, kept in a `bimap::BiMap`.
use bimap::BiMap;
use vstd::prelude::*;
use vstd::std_specs::iter::IteratorSpec;

verus! {

#[verifier::external_type_specification]
#[verifier::external_body]
#[verifier::reject_recursive_types(L)]
#[verifier::reject_recursive_types(R)]
#[verifier::reject_recursive_types(LS)]
#[verifier::reject_recursive_types(RS)]
pub struct ExBiHashMap<L, R, LS, RS>(bimap::BiHashMap<L, R, LS, RS>);

/// A `BiMap` of bytes.
pub type ByteBiMap = BiMap<u8, u8>;

/// The pairs that a `BiMap` holds, as a map from each left value to its right value.
pub uninterp spec fn pairs_of(m: ByteBiMap) -> Map<u8, u8>;

/// The map after `bimap`'s `insert(l, r)`: every pair that holds `l` on the
/// left or `r` on the right is removed, then `l <> r` is added.
pub open spec fn insert_pair(m: Map<u8, u8>, l: u8, r: u8) -> Map<u8, u8> {
    Map::new(|k: u8| k == l || (m.contains_key(k) && m[k] != r), |k: u8| if k == l { r } else { m[k] })
}

/// The map with no pair.
pub open spec fn no_pairs() -> Map<u8, u8> {
    Map::empty()
}

/// Relies on `BiMap::new`: the new map holds no pair.
#[verifier::external_body]
fn bimap_new() -> (res: ByteBiMap)
    ensures
        pairs_of(res) == no_pairs(),
{
    BiMap::new()
}

/// Relies on `BiHashMap::insert`: it removes the pair of `l` and the pair of
/// `r`, where there are such, then inserts `l <> r`.
#[verifier::external_body]
fn bimap_insert(m: &mut ByteBiMap, l: u8, r: u8)
    ensures
        pairs_of(*final(m)) == insert_pair(pairs_of(*old(m)), l, r),
{
    m.insert(l, r);
}

/// Relies on `BiHashMap::get_by_left`: the right value paired with `l`.
#[verifier::external_body]
fn bimap_get_by_left(m: &ByteBiMap, l: u8) -> (r: Option<u8>)
    ensures
        r == (if pairs_of(*m).contains_key(l) { Some(pairs_of(*m)[l]) } else { None::<u8> }),
{
    m.get_by_left(&l).copied()
}

/// Whether some left value is paired with `r`.
pub open spec fn has_right(m: Map<u8, u8>, r: u8) -> bool {
    exists|k: u8| #[trigger] m.contains_key(k) && m[k] == r
}

/// The left value paired with `r`, where there is one.
pub open spec fn right_lookup(m: Map<u8, u8>, r: u8) -> Option<u8> {
    if has_right(m, r) {
        Some(choose|k: u8| #[trigger] m.contains_key(k) && m[k] == r)
    } else {
        None
    }
}

/// Relies on `BiHashMap::get_by_right`: a left value paired with `r`, where
/// there is one.
#[verifier::external_body]
fn bimap_get_by_right(m: &ByteBiMap, r: u8) -> (l: Option<u8>)
    ensures
        l == right_lookup(pairs_of(*m), r),
{
    m.get_by_right(&r).copied()
}

/// The byte that stands for a character: its code point modulo 256.
pub open spec fn byte_of(c: char) -> u8 {
    (c as u32 % 256) as u8
}

/// Each byte is paired with at most one other: no two left values share a
/// right value.
pub open spec fn injective(m: Map<u8, u8>) -> bool {
    forall|a: u8, b: u8|
        #![trigger m[a], m[b]]
        m.contains_key(a) && m.contains_key(b) && m[a] == m[b] ==> a == b
}

/// The table after the first `n` pairs of `s` (characters `2i` and `2i + 1`).
pub open spec fn pairs_prefix(s: Seq<char>, n: nat) -> Map<u8, u8>
    decreases n,
{
    if n == 0 {
        no_pairs()
    } else {
        insert_pair(
            pairs_prefix(s, (n - 1) as nat),
            byte_of(s[2 * n - 2]),
            byte_of(s[2 * n - 1]),
        )
    }
}

/// The table that pairs the characters of `s` two by two; a trailing odd
/// character is ignored.
pub open spec fn pair_table(s: Seq<char>) -> Map<u8, u8> {
    pairs_prefix(s, s.len() / 2)
}

/// The table after the first `n` characters of `s`, each paired with the
/// letter at its position in `a..z`.
pub open spec fn alpha_prefix(s: Seq<char>, n: nat) -> Map<u8, u8>
    decreases n,
{
    if n == 0 {
        no_pairs()
    } else {
        insert_pair(alpha_prefix(s, (n - 1) as nat), byte_of(s[n - 1]), (97 + n - 1) as u8)
    }
}

/// The table that pairs the `i`-th character of `s` with the `i`-th letter.
pub open spec fn alpha_table(s: Seq<char>) -> Map<u8, u8> {
    alpha_prefix(s, s.len())
}

/// What a table gives for `b`: its right value, else its left value, else
/// `b` itself.
pub open spec fn either_side(m: Map<u8, u8>, b: u8) -> u8 {
    if m.contains_key(b) {
        m[b]
    } else {
        match right_lookup(m, b) {
            Some(l) => l,
            None => b,
        }
    }
}

/// Inserting a pair keeps a table one-to-one.
pub proof fn lemma_insert_injective(m: Map<u8, u8>, l: u8, r: u8)
    requires
        injective(m),
    ensures
        injective(insert_pair(m, l, r)),
{
}

/// A one-to-one table has at most one left value for each right value.
pub proof fn lemma_right_lookup(m: Map<u8, u8>, l: u8)
    requires
        injective(m),
        m.contains_key(l),
    ensures
        right_lookup(m, m[l]) == Some(l),
{
    assert(has_right(m, m[l]));
}

/// Whether `b` is a lower-case ASCII letter.
pub open spec fn letter(b: u8) -> bool {
    97 <= b <= 122
}

/// No two characters of `s` stand for the same byte.
pub open spec fn distinct_bytes(s: Seq<char>) -> bool {
    forall|i: int, j: int|
        0 <= i < j < s.len() ==> #[trigger] byte_of(s[i]) != #[trigger] byte_of(s[j])
}

/// Every character of `s` stands for a letter.
pub open spec fn all_letters(s: Seq<char>) -> bool {
    forall|i: int| 0 <= i < s.len() ==> letter(#[trigger] byte_of(s[i]))
}

/// No right value of the table is also a left value.
pub open spec fn sides_apart(m: Map<u8, u8>) -> bool {
    forall|k: u8| #[trigger] m.contains_key(k) ==> !m.contains_key(m[k])
}

/// Twenty-six distinct letters are all of them.
pub proof fn lemma_covers_letters(s: Seq<char>, x: u8)
    requires
        s.len() == 26,
        distinct_bytes(s),
        all_letters(s),
        letter(x),
    ensures
        exists|i: int| 0 <= i < 26 && #[trigger] byte_of(s[i]) == x,
{
    let bs = s.map_values(|c: char| byte_of(c) as int);
    assert(bs.no_duplicates()) by {
        assert forall|i: int, j: int| 0 <= i < bs.len() && 0 <= j < bs.len() && i != j implies bs[i] != bs[j] by {
            if i < j {
                assert(byte_of(s[i]) != byte_of(s[j]));
            } else {
                assert(byte_of(s[j]) != byte_of(s[i]));
            }
        }
    }
    bs.unique_seq_to_set();
    let all = vstd::set_lib::set_int_range(97, 123);
    vstd::set_lib::lemma_int_range(97, 123);
    assert(bs.to_set().subset_of(all)) by {
        assert forall|v: int| bs.to_set().contains(v) implies all.contains(v) by {
            let i = choose|i: int| 0 <= i < bs.len() && bs[i] == v;
            assert(letter(byte_of(s[i])));
        }
    }
    vstd::set_lib::lemma_len_subset(bs.to_set(), all);
    vstd::set_lib::lemma_subset_equality(bs.to_set(), all);
    assert(all.contains(x as int));
    assert(bs.to_set().contains(x as int));
    let i = choose|i: int| 0 <= i < bs.len() && bs[i] == x as int;
    assert(byte_of(s[i]) == x);
}

/// Built from distinct bytes, the alphabet table pairs the `i`-th character
/// with the `i`-th letter and holds nothing else.
pub proof fn lemma_alpha_prefix(s: Seq<char>, n: nat)
    requires
        n <= s.len() <= 26,
        distinct_bytes(s),
    ensures
        forall|i: int|
            0 <= i < n ==> alpha_prefix(s, n).contains_key(#[trigger] byte_of(s[i]))
                && alpha_prefix(s, n)[byte_of(s[i])] == 97 + i,
        forall|k: u8|
            #[trigger] alpha_prefix(s, n).contains_key(k) ==> exists|i: int|
                0 <= i < n && #[trigger] byte_of(s[i]) == k,
    decreases n,
{
    if n > 0 {
        lemma_alpha_prefix(s, (n - 1) as nat);
        let m = alpha_prefix(s, (n - 1) as nat);
        assert forall|k: u8| m.contains_key(k) implies m[k] != 97 + n - 1 && k != byte_of(s[n - 1]) by {
            let i = choose|i: int| 0 <= i < n - 1 && #[trigger] byte_of(s[i]) == k;
            assert(byte_of(s[i]) != byte_of(s[n - 1]));
        }
        assert forall|k: u8| #[trigger] alpha_prefix(s, n).contains_key(k) implies exists|i: int|
            0 <= i < n && #[trigger] byte_of(s[i]) == k by {
            if k != byte_of(s[n - 1]) {
                let i = choose|i: int| 0 <= i < n - 1 && #[trigger] byte_of(s[i]) == k;
                assert(0 <= i < n && byte_of(s[i]) == k);
            } else {
                assert(byte_of(s[n - 1]) == k);
            }
        }
    }
}

/// Built from distinct bytes, the pair table maps `s[2i]` to `s[2i + 1]`
/// and holds nothing else.
pub proof fn lemma_pairs_prefix(s: Seq<char>, n: nat)
    requires
        2 * n <= s.len(),
        distinct_bytes(s),
    ensures
        forall|i: int|
            0 <= i < n ==> pairs_prefix(s, n).contains_key(#[trigger] byte_of(s[2 * i]))
                && pairs_prefix(s, n)[byte_of(s[2 * i])] == byte_of(s[2 * i + 1]),
        forall|k: u8|
            #[trigger] pairs_prefix(s, n).contains_key(k) ==> exists|i: int|
                0 <= i < n && #[trigger] byte_of(s[2 * i]) == k,
    decreases n,
{
    if n > 0 {
        lemma_pairs_prefix(s, (n - 1) as nat);
        let m = pairs_prefix(s, (n - 1) as nat);
        assert forall|k: u8| m.contains_key(k) implies m[k] != byte_of(s[2 * n - 1]) && k != byte_of(
            s[2 * n - 2],
        ) by {
            let i = choose|i: int| 0 <= i < n - 1 && #[trigger] byte_of(s[2 * i]) == k;
            assert(byte_of(s[2 * i]) != byte_of(s[2 * n - 2]));
            assert(byte_of(s[2 * i + 1]) != byte_of(s[2 * n - 1]));
        }
        assert forall|k: u8| #[trigger] pairs_prefix(s, n).contains_key(k) implies exists|i: int|
            0 <= i < n && #[trigger] byte_of(s[2 * i]) == k by {
            if k != byte_of(s[2 * n - 2]) {
                let i = choose|i: int| 0 <= i < n - 1 && #[trigger] byte_of(s[2 * i]) == k;
                assert(0 <= i < n && byte_of(s[2 * i]) == k);
            } else {
                assert(byte_of(s[2 * (n - 1)]) == k);
            }
        }
    }
}

/// Where no right value is also a left value, looking up either side is
/// its own inverse.
pub proof fn lemma_either_side_involution(m: Map<u8, u8>, c: u8)
    requires
        injective(m),
        sides_apart(m),
    ensures
        either_side(m, either_side(m, c)) == c,
{
    if m.contains_key(c) {
        lemma_right_lookup(m, c);
    } else if has_right(m, c) {
        let l = choose|k: u8| #[trigger] m.contains_key(k) && m[k] == c;
        assert(right_lookup(m, c) == Some(l));
    }
}

/// Built from distinct bytes, a pair table is one-to-one and no right value
/// in it is also a left value.
pub proof fn lemma_pair_table_apart(s: Seq<char>)
    requires
        distinct_bytes(s),
    ensures
        injective(pair_table(s)),
        sides_apart(pair_table(s)),
{
    let n = s.len() / 2;
    let m = pair_table(s);
    lemma_pairs_prefix(s, n);
    assert forall|a: u8, b: u8|
        m.contains_key(a) && m.contains_key(b) && m[a] == m[b] implies a == b by {
        let i = choose|i: int| 0 <= i < n && #[trigger] byte_of(s[2 * i]) == a;
        let j = choose|j: int| 0 <= j < n && #[trigger] byte_of(s[2 * j]) == b;
        assert(m[a] == byte_of(s[2 * i + 1]));
        assert(m[b] == byte_of(s[2 * j + 1]));
        if i < j {
            assert(byte_of(s[2 * i + 1]) != byte_of(s[2 * j + 1]));
        } else if j < i {
            assert(byte_of(s[2 * j + 1]) != byte_of(s[2 * i + 1]));
        }
    }
    assert forall|k: u8| #[trigger] m.contains_key(k) implies !m.contains_key(m[k]) by {
        let i = choose|i: int| 0 <= i < n && #[trigger] byte_of(s[2 * i]) == k;
        assert(m[k] == byte_of(s[2 * i + 1]));
        if m.contains_key(m[k]) {
            let j = choose|j: int| 0 <= j < n && #[trigger] byte_of(s[2 * j]) == m[k];
            if 2 * j < 2 * i + 1 {
                assert(byte_of(s[2 * j]) != byte_of(s[2 * i + 1]));
            } else {
                assert(byte_of(s[2 * i + 1]) != byte_of(s[2 * j]));
            }
        }
    }
}

/// Swapping twice through a pair table built from distinct bytes gives back
/// the byte that went in.
pub proof fn lemma_pair_table_involution(s: Seq<char>, c: u8)
    requires
        distinct_bytes(s),
    ensures
        either_side(pair_table(s), either_side(pair_table(s), c)) == c,
{
    lemma_pair_table_apart(s);
    lemma_either_side_involution(pair_table(s), c);
}

/// A table of byte pairs that can be read from either side.
pub struct Table {
    pairs: ByteBiMap,
}

impl View for Table {
    type V = Map<u8, u8>;

    closed spec fn view(&self) -> Map<u8, u8> {
        pairs_of(self.pairs)
    }
}

impl Table {
    /// No byte is paired with two others.
    pub open spec fn wf(&self) -> bool {
        injective(self@)
    }

    /// The right value paired with `b`.
    pub fn lookup_left(&self, b: u8) -> (r: Option<u8>)
        ensures
            r == (if self@.contains_key(b) { Some(self@[b]) } else { None::<u8> }),
    {
        bimap_get_by_left(&self.pairs, b)
    }

    /// The left value paired with `b`.
    pub fn lookup_right(&self, b: u8) -> (r: Option<u8>)
        ensures
            r == right_lookup(self@, b),
    {
        bimap_get_by_right(&self.pairs, b)
    }

    /// The value paired with `b` on either side, the left side first; `b`
    /// itself where it is in no pair.
    pub fn either(&self, b: u8) -> (r: u8)
        ensures
            r == either_side(self@, b),
    {
        match self.lookup_left(b) {
            Some(v) => v,
            None => match self.lookup_right(b) {
                Some(v) => v,
                None => b,
            },
        }
    }
}

/// The byte for a character, as `byte_of` states.
pub fn char_byte(c: char) -> (r: u8)
    ensures
        r == byte_of(c),
{
    ((c as u32) % 256) as u8
}

/// Pairs `pairs[0]` with `pairs[1]`, `pairs[2]` with `pairs[3]` and so on;
/// a later pair replaces what an earlier one held of the same bytes.
pub fn map_by_pair(pairs: &str) -> (t: Table)
    ensures
        t.wf(),
        t@ == pair_table(pairs@),
{
    let cs = chars_of(pairs);
    let mut m = bimap_new();
    let len: usize = cs.len();
    let n: usize = len / 2;
    let mut i: usize = 0;
    while i < n
        invariant
            len == cs@.len(),
            n == len / 2,
            cs@ == pairs@,
            i <= n,
            pairs_of(m) == pairs_prefix(cs@, i as nat),
            injective(pairs_of(m)),
        decreases n - i,
    {
        let a = char_byte(cs[2 * i]);
        let b = char_byte(cs[2 * i + 1]);
        proof {
            lemma_insert_injective(pairs_of(m), a, b);
        }
        bimap_insert(&mut m, a, b);
        i = i + 1;
    }
    Table { pairs: m }
}

/// Pairs the `i`-th character of `scrambled` with the `i`-th letter of
/// `a..z`.
pub fn map_against_alpha(scrambled: &str) -> (t: Table)
    requires
        scrambled@.len() <= 26,
    ensures
        t.wf(),
        t@ == alpha_table(scrambled@),
{
    let cs = chars_of(scrambled);
    let mut m = bimap_new();
    let mut i: usize = 0;
    while i < cs.len()
        invariant
            cs@ == scrambled@,
            cs@.len() <= 26,
            i <= cs@.len(),
            pairs_of(m) == alpha_prefix(cs@, i as nat),
            injective(pairs_of(m)),
        decreases cs.len() - i,
    {
        let a = char_byte(cs[i]);
        let b: u8 = 97 + i as u8;
        proof {
            lemma_insert_injective(pairs_of(m), a, b);
        }
        bimap_insert(&mut m, a, b);
        i = i + 1;
    }
    Table { pairs: m }
}

/// The characters of a string, in order.
pub fn chars_of(s: &str) -> (r: Vec<char>)
    ensures
        r@ == s@,
{
    let mut r: Vec<char> = Vec::new();
    for c in it: s.chars()
        invariant
            r@ == it.seq().take(it.index() as int),
    {
        r.push(c);
    }
    r
}

} // verus!
