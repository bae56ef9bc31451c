//! The persisted record and its on-disk codec.
//!
//! A pet is persisted as one small JSON object with four fields. The
//! encoder and the decoder here are exact inverses: `from_json` accepts
//! precisely the byte strings that `to_json` produces, and returns the
//! record that produced them.

use vstd::prelude::*;

use vstd::string::StringExecFns;

use crate::Mood;
use crate::PetState;

verus! {

/// The record as it is persisted: the same four fields as `PetState`,
/// with the mood as a symbolic tag.
#[derive(Debug, PartialEq, Eq, Structural, Clone, Copy)]
pub struct PersistedPet {
    pub mood: Mood,
    pub energy: i32,
    pub xp: u32,
    pub level: u32,
}

impl PersistedPet {
    /// The record that persists a given state.
    pub fn of_state(s: &PetState) -> (r: PersistedPet)
        ensures
            r == (PersistedPet { mood: s.mood, energy: s.energy, xp: s.xp, level: s.level }),
    {
        PersistedPet { mood: s.mood, energy: s.energy, xp: s.xp, level: s.level }
    }

    /// The state that a record reconstructs.
    pub fn to_state(&self) -> (r: PetState)
        ensures
            r == (PetState { mood: self.mood, energy: self.energy, xp: self.xp, level: self.level }),
    {
        PetState { mood: self.mood, energy: self.energy, xp: self.xp, level: self.level }
    }
}

/// An ASCII decimal digit.
pub open spec fn is_digit(b: u8) -> bool {
    48 <= b <= 57
}

/// The decimal digits of `n`, most significant first, no leading zeros.
pub open spec fn dec_digits(n: nat) -> Seq<u8>
    decreases n,
{
    if n < 10 {
        seq![(48 + n) as u8]
    } else {
        dec_digits(n / 10).push((48 + n % 10) as u8)
    }
}

/// The value of a digit string, read in decimal.
pub open spec fn val_of(s: Seq<u8>) -> int
    decreases s.len(),
{
    if s.len() == 0 {
        0
    } else {
        val_of(s.drop_last()) * 10 + s.last() - 48
    }
}

/// A digit string in canonical form: nonempty, all digits, and no
/// leading zero unless it is exactly "0".
pub open spec fn canonical(s: Seq<u8>) -> bool {
    &&& s.len() >= 1
    &&& forall|i: int| 0 <= i < s.len() ==> is_digit(s[i])
    &&& (s.len() == 1 || s[0] != 48)
}

/// Where the run of digits that starts at `i` ends.
pub open spec fn run_end(s: Seq<u8>, i: int) -> int
    decreases s.len() - i when 0 <= i <= s.len()
{
    if i < s.len() && is_digit(s[i]) {
        run_end(s, i + 1)
    } else {
        i
    }
}

/// The decimal bytes of a signed value: a minus sign for a negative one,
/// then the digits of its magnitude.
pub open spec fn int_bytes(v: int) -> Seq<u8> {
    if v < 0 {
        seq![45u8] + dec_digits((-v) as nat)
    } else {
        dec_digits(v as nat)
    }
}

/// The symbolic tag of a mood, as ASCII bytes.
pub open spec fn mood_tag(m: Mood) -> Seq<u8> {
    match m {
        Mood::Happy => seq![72u8, 97u8, 112u8, 112u8, 121u8],
        Mood::Neutral => seq![78u8, 101u8, 117u8, 116u8, 114u8, 97u8, 108u8],
        Mood::Sad => seq![83u8, 97u8, 100u8],
        Mood::Sleeping => seq![83u8, 108u8, 101u8, 101u8, 112u8, 105u8, 110u8, 103u8],
        Mood::Scared => seq![83u8, 99u8, 97u8, 114u8, 101u8, 100u8],
    }
}

/// The bytes of `{"mood":"`.
pub open spec fn lit_open() -> Seq<u8> {
    seq![123u8, 34u8, 109u8, 111u8, 111u8, 100u8, 34u8, 58u8, 34u8]
}

/// The bytes of `","energy":`.
pub open spec fn lit_energy() -> Seq<u8> {
    seq![34u8, 44u8, 34u8, 101u8, 110u8, 101u8, 114u8, 103u8, 121u8, 34u8, 58u8]
}

/// The bytes of `,"xp":`.
pub open spec fn lit_xp() -> Seq<u8> {
    seq![44u8, 34u8, 120u8, 112u8, 34u8, 58u8]
}

/// The bytes of `,"level":`.
pub open spec fn lit_level() -> Seq<u8> {
    seq![44u8, 34u8, 108u8, 101u8, 118u8, 101u8, 108u8, 34u8, 58u8]
}

/// The whole encoding of one record.
pub open spec fn json_of(p: PersistedPet) -> Seq<u8> {
    lit_open() + mood_tag(p.mood) + lit_energy() + int_bytes(p.energy as int) + lit_xp()
        + dec_digits(p.xp as nat) + lit_level() + dec_digits(p.level as nat) + seq![125u8]
}

/// Append the decimal digits of `n`.
fn push_dec(out: &mut Vec<u8>, n: u64)
    ensures
        final(out)@ == old(out)@ + dec_digits(n as nat),
    decreases n,
{
    if n < 10 {
        out.push((48 + n) as u8);
        proof {
            assert(out@ =~= old(out)@ + dec_digits(n as nat));
        }
    } else {
        push_dec(out, n / 10);
        out.push((48 + n % 10) as u8);
        proof {
            assert(out@ =~= old(out)@ + dec_digits(n as nat));
        }
    }
}

/// Append the mood's tag.
fn push_mood(out: &mut Vec<u8>, m: Mood)
    ensures
        final(out)@ == old(out)@ + mood_tag(m),
{
    match m {
        Mood::Happy => {
            out.push(72);
            out.push(97);
            out.push(112);
            out.push(112);
            out.push(121);
        },
        Mood::Neutral => {
            out.push(78);
            out.push(101);
            out.push(117);
            out.push(116);
            out.push(114);
            out.push(97);
            out.push(108);
        },
        Mood::Sad => {
            out.push(83);
            out.push(97);
            out.push(100);
        },
        Mood::Sleeping => {
            out.push(83);
            out.push(108);
            out.push(101);
            out.push(101);
            out.push(112);
            out.push(105);
            out.push(110);
            out.push(103);
        },
        Mood::Scared => {
            out.push(83);
            out.push(99);
            out.push(97);
            out.push(114);
            out.push(101);
            out.push(100);
        },
    }
    proof {
        assert(out@ =~= old(out)@ + mood_tag(m));
    }
}

/// Append the decimal bytes of a signed value.
fn push_int(out: &mut Vec<u8>, v: i32)
    ensures
        final(out)@ == old(out)@ + int_bytes(v as int),
{
    if v < 0 {
        out.push(45);
        let mag: u64 = (-(v as i64)) as u64;
        push_dec(out, mag);
        proof {
            assert(out@ =~= old(out)@ + int_bytes(v as int));
        }
    } else {
        push_dec(out, v as u64);
    }
}

/// Encode one record as the JSON object that is written to disk.
pub fn to_json(p: &PersistedPet) -> (out: Vec<u8>)
    ensures
        out@ == json_of(*p),
{
    let mut out: Vec<u8> = Vec::new();
    out.push(123);
    out.push(34);
    out.push(109);
    out.push(111);
    out.push(111);
    out.push(100);
    out.push(34);
    out.push(58);
    out.push(34);
    proof {
        assert(out@ =~= lit_open());
    }
    push_mood(&mut out, p.mood);
    out.push(34);
    out.push(44);
    out.push(34);
    out.push(101);
    out.push(110);
    out.push(101);
    out.push(114);
    out.push(103);
    out.push(121);
    out.push(34);
    out.push(58);
    proof {
        assert(out@ =~= lit_open() + mood_tag(p.mood) + lit_energy());
    }
    push_int(&mut out, p.energy);
    out.push(44);
    out.push(34);
    out.push(120);
    out.push(112);
    out.push(34);
    out.push(58);
    proof {
        assert(out@ =~= lit_open() + mood_tag(p.mood) + lit_energy() + int_bytes(p.energy as int)
            + lit_xp());
    }
    push_dec(&mut out, p.xp as u64);
    out.push(44);
    out.push(34);
    out.push(108);
    out.push(101);
    out.push(118);
    out.push(101);
    out.push(108);
    out.push(34);
    out.push(58);
    push_dec(&mut out, p.level as u64);
    out.push(125);
    proof {
        assert(out@ =~= json_of(*p));
    }
    out
}

/// Powers of ten.
pub open spec fn pow10(k: nat) -> nat
    decreases k,
{
    if k == 0 {
        1
    } else {
        10 * pow10((k - 1) as nat)
    }
}

/// The shape of an encoded number: nonempty, all digits, canonical, and
/// its value read back is the number itself.
proof fn lemma_dec_digits_props(n: nat)
    ensures
        dec_digits(n).len() >= 1,
        forall|i: int| 0 <= i < dec_digits(n).len() ==> is_digit(dec_digits(n)[i]),
        n >= 1 ==> dec_digits(n)[0] != 48,
        val_of(dec_digits(n)) == n,
        canonical(dec_digits(n)),
    decreases n,
{
    if n < 10 {
        let s0 = dec_digits(n);
        assert(s0 =~= seq![(48 + n) as u8]);
        assert(s0.drop_last() =~= Seq::<u8>::empty());
        assert(val_of(Seq::<u8>::empty()) == 0);
        assert(s0.last() == (48 + n) as u8);
        assert(val_of(s0) == n);
    } else {
        lemma_dec_digits_props(n / 10);
        let t = dec_digits(n / 10);
        let d = (48 + n % 10) as u8;
        assert(dec_digits(n) == t.push(d));
        assert(t.push(d).drop_last() =~= t);
        assert(t.push(d).last() == d);
        vstd::arithmetic::div_mod::lemma_mod_bound(n as int, 10);
        assert(d - 48 == n % 10);
        assert(val_of(dec_digits(n)) == val_of(t) * 10 + n % 10);
        assert(val_of(t) == n / 10);
        vstd::arithmetic::div_mod::lemma_fundamental_div_mod(n as int, 10);
        assert((n / 10) * 10 + n % 10 == n);
        assert(val_of(dec_digits(n)) == n);
        assert(dec_digits(n)[0] == t[0]);
    }
}

/// An encoded number is no longer than `k` digits when it is below the
/// `k`-th power of ten.
proof fn lemma_dec_digits_len(n: nat, k: nat)
    requires
        k >= 1,
        n < pow10(k),
    ensures
        dec_digits(n).len() <= k,
    decreases n,
{
    if n < 10 {
    } else {
        assert(pow10(0) == 1);
        assert(pow10(1) == 10);
        if k == 1 {
            assert(false);
        }
        assert(pow10(k) == 10 * pow10((k - 1) as nat));
        vstd::arithmetic::div_mod::lemma_fundamental_div_mod(n as int, 10);
        assert(10 * (n / 10) <= n);
        assert(n / 10 < pow10((k - 1) as nat));
        lemma_dec_digits_len(n / 10, (k - 1) as nat);
    }
}

/// A canonical digit string is exactly the encoding of its value.
proof fn lemma_canonical_to_digits(s: Seq<u8>)
    requires
        canonical(s),
    ensures
        val_of(s) >= 0,
        s[0] != 48 ==> val_of(s) >= 1,
        s.len() >= 2 ==> val_of(s) >= 10,
        dec_digits(val_of(s) as nat) == s,
    decreases s.len(),
{
    if s.len() == 1 {
        let v = val_of(s);
        assert(s.drop_last() =~= Seq::<u8>::empty());
        assert(val_of(Seq::<u8>::empty()) == 0);
        assert(s.last() == s[0]);
        assert(v == s[0] - 48);
        assert(dec_digits(v as nat) =~= seq![(48 + v) as u8]);
        assert(dec_digits(v as nat) =~= s);
    } else {
        let t = s.drop_last();
        assert(canonical(t));
        lemma_canonical_to_digits(t);
        let vt = val_of(t);
        let d = s.last();
        let v = val_of(s);
        assert(v == vt * 10 + d - 48);
        assert(vt >= 1);
        assert(v >= 10);
        assert(v / 10 == vt && v % 10 == d - 48) by {
            vstd::arithmetic::div_mod::lemma_fundamental_div_mod_converse(
                v as int, 10, vt as int, (d - 48) as int);
        }
        assert(dec_digits(v as nat) == dec_digits((v as nat) / 10).push((48 + (v as nat) % 10) as u8));
        assert((v as nat) / 10 == vt as nat);
        assert(dec_digits(vt as nat) == t);
        assert(dec_digits(v as nat) =~= s);
    }
}

/// `run_end` is the end of the maximal digit run.
proof fn lemma_run_end_is(s: Seq<u8>, i: int, j: int)
    requires
        0 <= i <= j <= s.len(),
        forall|k: int| i <= k < j ==> is_digit(s[k]),
        j == s.len() || !is_digit(s[j]),
    ensures
        run_end(s, i) == j,
    decreases j - i,
{
    if i < j {
        lemma_run_end_is(s, i + 1, j);
    }
}

/// What holds of `run_end` itself: it bounds a run of digits ended by a
/// non-digit or the end of the string.
proof fn lemma_run_end_props(s: Seq<u8>, i: int)
    requires
        0 <= i <= s.len(),
    ensures
        i <= run_end(s, i) <= s.len(),
        forall|k: int| i <= k < run_end(s, i) ==> is_digit(s[k]),
        run_end(s, i) == s.len() || !is_digit(s[run_end(s, i)]),
    decreases s.len() - i,
{
    if i < s.len() && is_digit(s[i]) {
        lemma_run_end_props(s, i + 1);
    }
}

/// A prefix grows by one adjacent piece.
proof fn lemma_prefix_extend(s: Seq<u8>, a: int, b: int)
    requires
        0 <= a <= b <= s.len(),
    ensures
        s.subrange(0, b) == s.subrange(0, a) + s.subrange(a, b),
{
    assert(s.subrange(0, b) =~= s.subrange(0, a) + s.subrange(a, b));
}

/// The numeric values of the small powers of ten.
proof fn lemma_pow10_vals()
    ensures
        pow10(0) == 1,
        pow10(1) == 10,
        pow10(9) == 1000000000,
        pow10(10) == 10000000000,
{
    assert(pow10(0) == 1);
    assert(pow10(1) == 10);
    assert(pow10(2) == 100);
    assert(pow10(3) == 1000);
    assert(pow10(4) == 10000);
    assert(pow10(5) == 100000);
    assert(pow10(6) == 1000000);
    assert(pow10(7) == 10000000);
    assert(pow10(8) == 100000000);
    assert(pow10(9) == 1000000000);
    assert(pow10(10) == 10000000000);
}

/// Powers of ten are monotone in the exponent.
proof fn lemma_pow10_le(a: nat, b: nat)
    requires
        a <= b,
    ensures
        pow10(a) <= pow10(b),
        pow10(a) >= 1,
    decreases b,
{
    if b == 0 {
    } else if a == b {
        lemma_pow10_le((a - 1) as nat, (b - 1) as nat);
    } else {
        lemma_pow10_le(a, (b - 1) as nat);
    }
}

/// A fresh vector holding a mood's tag.
fn mood_tag_vec(m: Mood) -> (v: Vec<u8>)
    ensures
        v@ == mood_tag(m),
{
    let mut v: Vec<u8> = Vec::new();
    push_mood(&mut v, m);
    proof {
        assert(v@ =~= mood_tag(m));
    }
    v
}

/// A fresh vector holding the bytes of `{"mood":"`.
fn lit_open_vec() -> (v: Vec<u8>)
    ensures
        v@ == lit_open(),
{
    let mut v: Vec<u8> = Vec::new();
    v.push(123);
    v.push(34);
    v.push(109);
    v.push(111);
    v.push(111);
    v.push(100);
    v.push(34);
    v.push(58);
    v.push(34);
    proof {
        assert(v@ =~= lit_open());
    }
    v
}

/// A fresh vector holding the bytes of `","energy":`.
fn lit_energy_vec() -> (v: Vec<u8>)
    ensures
        v@ == lit_energy(),
{
    let mut v: Vec<u8> = Vec::new();
    v.push(34);
    v.push(44);
    v.push(34);
    v.push(101);
    v.push(110);
    v.push(101);
    v.push(114);
    v.push(103);
    v.push(121);
    v.push(34);
    v.push(58);
    proof {
        assert(v@ =~= lit_energy());
    }
    v
}

/// A fresh vector holding the bytes of `,"xp":`.
fn lit_xp_vec() -> (v: Vec<u8>)
    ensures
        v@ == lit_xp(),
{
    let mut v: Vec<u8> = Vec::new();
    v.push(44);
    v.push(34);
    v.push(120);
    v.push(112);
    v.push(34);
    v.push(58);
    proof {
        assert(v@ =~= lit_xp());
    }
    v
}

/// A fresh vector holding the bytes of `,"level":`.
fn lit_level_vec() -> (v: Vec<u8>)
    ensures
        v@ == lit_level(),
{
    let mut v: Vec<u8> = Vec::new();
    v.push(44);
    v.push(34);
    v.push(108);
    v.push(101);
    v.push(118);
    v.push(101);
    v.push(108);
    v.push(34);
    v.push(58);
    proof {
        assert(v@ =~= lit_level());
    }
    v
}

/// Whether the bytes at `i` start with the pattern; on a match, where
/// the pattern ends.
fn eat_lit(bytes: &Vec<u8>, i: usize, pat: &Vec<u8>) -> (r: Option<usize>)
    requires
        i <= bytes@.len(),
    ensures
        r is Some <==> (i + pat@.len() <= bytes@.len() && bytes@.subrange(
            i as int,
            i + pat@.len(),
        ) == pat@),
        r matches Some(j) ==> j == i + pat@.len(),
{
    if pat.len() > bytes.len() - i {
        return None;
    }
    let mut k: usize = 0;
    proof {
        assert(bytes@.len() <= usize::MAX);
    }
    while k < pat.len()
        invariant
            i + pat@.len() <= bytes@.len(),
            bytes@.len() <= usize::MAX,
            k <= pat@.len(),
            forall|t: int| 0 <= t < k ==> bytes@[i + t] == pat@[t],
        decreases pat@.len() - k,
    {
        if bytes[i + k] != pat[k] {
            proof {
                assert(bytes@.subrange(i as int, i + pat@.len())[k as int] == bytes@[i + k]);
            }
            return None;
        }
        k += 1;
    }
    proof {
        assert(bytes@.subrange(i as int, i + pat@.len()) =~= pat@);
    }
    Some(i + pat.len())
}

/// Parse the canonical digit run that starts at `i`: at least one digit,
/// at most ten, no leading zero unless the run is exactly "0".
fn parse_digits(bytes: &Vec<u8>, i: usize) -> (r: Option<(u64, usize)>)
    requires
        i <= bytes@.len(),
    ensures
        ({
            let j = run_end(bytes@, i as int);
            &&& (r is Some <==> (i < j && j <= i + 10 && (j == i + 1 || bytes@[i as int] != 48)))
            &&& (r matches Some((v, jj)) ==> jj == j && i < jj <= bytes@.len() && v == val_of(
                bytes@.subrange(i as int, j),
            ))
        }),
{
    proof {
        lemma_pow10_vals();
        lemma_run_end_props(bytes@, i as int);
    }
    let len = bytes.len();
    let mut j: usize = i;
    let mut v: u64 = 0;
    proof {
        assert(bytes@.subrange(i as int, i as int) =~= Seq::<u8>::empty());
    }
    while j < len && 48 <= bytes[j] && bytes[j] <= 57
        invariant
            i <= j <= len,
            len == bytes@.len(),
            j <= i + 10,
            forall|k: int| i <= k < j ==> is_digit(bytes@[k]),
            run_end(bytes@, i as int) == run_end(bytes@, j as int),
            v == val_of(bytes@.subrange(i as int, j as int)),
            v < pow10((j - i) as nat),
        decreases len - j,
    {
        let b: u8 = bytes[j];
        proof {
            assert(run_end(bytes@, j as int) == run_end(bytes@, j + 1));
        }
        if j - i == 10 {
            proof {
                lemma_run_end_props(bytes@, j + 1);
                assert(run_end(bytes@, i as int) > i + 10);
            }
            return None;
        }
        proof {
            lemma_pow10_vals();
            assert(pow10((j + 1 - i) as nat) == 10 * pow10((j - i) as nat));
            lemma_pow10_le((j - i) as nat, 9);
            assert(v * 10 + (b - 48) < 10 * pow10((j - i) as nat));
            assert(bytes@.subrange(i as int, j + 1).drop_last() =~= bytes@.subrange(
                i as int,
                j as int,
            ));
            assert(bytes@.subrange(i as int, j + 1).last() == b);
        }
        v = v * 10 + ((b - 48) as u64);
        j += 1;
    }
    proof {
        assert(run_end(bytes@, j as int) == j);
    }
    if j == i {
        return None;
    }
    if bytes[i] == 48 && j > i + 1 {
        return None;
    }
    Some((v, j))
}

/// Where each piece of an encoding stands: offsets of the literals, the
/// mood tag, and the three numbers inside `json_of`.
proof fn lemma_json_pieces(p: PersistedPet)
    ensures
        ({
            let s = json_of(p);
            let t = mood_tag(p.mood).len() as int;
            let e = int_bytes(p.energy as int).len() as int;
            let x = dec_digits(p.xp as nat).len() as int;
            let l = dec_digits(p.level as nat).len() as int;
            &&& s.len() == 36 + t + e + x + l
            &&& s.subrange(0, 9) == lit_open()
            &&& s.subrange(9, 9 + t) == mood_tag(p.mood)
            &&& s.subrange(9 + t, 20 + t) == lit_energy()
            &&& s.subrange(20 + t, 20 + t + e) == int_bytes(p.energy as int)
            &&& s.subrange(20 + t + e, 26 + t + e) == lit_xp()
            &&& s.subrange(26 + t + e, 26 + t + e + x) == dec_digits(p.xp as nat)
            &&& s.subrange(26 + t + e + x, 35 + t + e + x) == lit_level()
            &&& s.subrange(35 + t + e + x, 35 + t + e + x + l) == dec_digits(p.level as nat)
            &&& s[35 + t + e + x + l] == 125
        }),
{
    let s = json_of(p);
    let t = mood_tag(p.mood).len() as int;
    let e = int_bytes(p.energy as int).len() as int;
    let x = dec_digits(p.xp as nat).len() as int;
    let l = dec_digits(p.level as nat).len() as int;
    assert(s.len() == 36 + t + e + x + l);
    assert(s.subrange(0, 9) =~= lit_open());
    assert(s.subrange(9, 9 + t) =~= mood_tag(p.mood));
    assert(s.subrange(9 + t, 20 + t) =~= lit_energy());
    assert(s.subrange(20 + t, 20 + t + e) =~= int_bytes(p.energy as int));
    assert(s.subrange(20 + t + e, 26 + t + e) =~= lit_xp());
    assert(s.subrange(26 + t + e, 26 + t + e + x) =~= dec_digits(p.xp as nat));
    assert(s.subrange(26 + t + e + x, 35 + t + e + x) =~= lit_level());
    assert(s.subrange(35 + t + e + x, 35 + t + e + x + l) =~= dec_digits(p.level as nat));
    assert(s[35 + t + e + x + l] == 125);
}

/// A matched tag at position 9 of an encoding identifies the mood: no
/// two tags agree on their first two bytes.
proof fn lemma_mood_pin(p: PersistedPet, m: Mood)
    requires
        9 + mood_tag(m).len() <= json_of(p).len(),
        json_of(p).subrange(9, 9 + mood_tag(m).len() as int) == mood_tag(m),
    ensures
        p.mood == m,
{
    lemma_json_pieces(p);
    let s = json_of(p);
    let tp = mood_tag(p.mood);
    let tm = mood_tag(m);
    assert(tp.len() >= 3 && tm.len() >= 3);
    assert(s.subrange(9, 9 + tp.len() as int)[0] == s[9]);
    assert(s.subrange(9, 9 + tp.len() as int)[1] == s[10]);
    assert(s[9] == tp[0] && s[10] == tp[1]);
    assert(s.subrange(9, 9 + tm.len() as int)[0] == s[9]);
    assert(s.subrange(9, 9 + tm.len() as int)[1] == s[10]);
    assert(s[9] == tm[0] && s[10] == tm[1]);
    assert(p.mood == m);
}

/// Everything a decoder meets while walking a valid encoding: where each
/// literal stands, where each digit run starts and ends, and the values
/// the runs spell.
#[verifier::rlimit(60)]
proof fn lemma_encoding_facts(p: PersistedPet)
    ensures
        ({
            let s = json_of(p);
            let t = mood_tag(p.mood).len() as int;
            let e = int_bytes(p.energy as int).len() as int;
            let x = dec_digits(p.xp as nat).len() as int;
            let l = dec_digits(p.level as nat).len() as int;
            let ds = if p.energy < 0 { 21 + t } else { 20 + t };
            let mag = if p.energy < 0 { -(p.energy as int) } else { p.energy as int };
            &&& s.len() == 36 + t + e + x + l
            &&& 3 <= t <= 8
            &&& 1 <= e && 1 <= x && 1 <= l
            &&& s.subrange(0, 9) == lit_open()
            &&& s.subrange(9, 9 + t) == mood_tag(p.mood)
            &&& s.subrange(9 + t, 20 + t) == lit_energy()
            &&& (p.energy < 0 ==> s[20 + t] == 45 && e == 1 + dec_digits(mag as nat).len())
            &&& (p.energy >= 0 ==> is_digit(s[20 + t]))
            &&& s.subrange(ds, 20 + t + e) == dec_digits(mag as nat)
            &&& run_end(s, ds) == 20 + t + e
            &&& val_of(s.subrange(ds, 20 + t + e)) == mag
            &&& 20 + t + e <= ds + 10
            &&& (20 + t + e == ds + 1 || s[ds] != 48)
            &&& s.subrange(20 + t + e, 26 + t + e) == lit_xp()
            &&& run_end(s, 26 + t + e) == 26 + t + e + x
            &&& val_of(s.subrange(26 + t + e, 26 + t + e + x)) == p.xp
            &&& x <= 10
            &&& (x == 1 || s[26 + t + e] != 48)
            &&& s.subrange(26 + t + e + x, 35 + t + e + x) == lit_level()
            &&& run_end(s, 35 + t + e + x) == 35 + t + e + x + l
            &&& val_of(s.subrange(35 + t + e + x, 35 + t + e + x + l)) == p.level
            &&& l <= 10
            &&& (l == 1 || s[35 + t + e + x] != 48)
            &&& s[35 + t + e + x + l] == 125
        }),
{
    lemma_json_pieces(p);
    lemma_pow10_vals();
    let s = json_of(p);
    let t = mood_tag(p.mood).len() as int;
    let e = int_bytes(p.energy as int).len() as int;
    let x = dec_digits(p.xp as nat).len() as int;
    let l = dec_digits(p.level as nat).len() as int;
    let ds: int = if p.energy < 0 { 21 + t } else { 20 + t };
    let mag: int = if p.energy < 0 { -(p.energy as int) } else { p.energy as int };
    assert(0 <= mag <= 2147483648);
    lemma_dec_digits_props(mag as nat);
    lemma_dec_digits_props(p.xp as nat);
    lemma_dec_digits_props(p.level as nat);
    lemma_dec_digits_len(mag as nat, 10);
    lemma_dec_digits_len(p.xp as nat, 10);
    lemma_dec_digits_len(p.level as nat, 10);
    assert(3 <= t <= 8);

    // the energy number: sign byte, digit run, value
    let ib = int_bytes(p.energy as int);
    let md = dec_digits(mag as nat);
    if p.energy < 0 {
        assert(ib =~= seq![45u8] + md);
        assert(ib[0] == 45);
        assert(s.subrange(20 + t, 20 + t + e)[0] == s[20 + t]);
        assert(s[20 + t] == 45);
        assert(s.subrange(ds, 20 + t + e) =~= md);
    } else {
        assert(ib == md);
        assert(s[20 + t] == md[0]);
        assert(is_digit(s[20 + t]));
        assert(s.subrange(ds, 20 + t + e) =~= md);
    }
    assert forall|k: int| ds <= k < 20 + t + e implies is_digit(s[k]) by {
        assert(s.subrange(ds, 20 + t + e)[k - ds] == s[k]);
        assert(is_digit(md[k - ds]));
    }
    assert(s.subrange(20 + t + e, 26 + t + e)[0] == s[20 + t + e]);
    assert(s[20 + t + e] == 44);
    lemma_run_end_is(s, ds, 20 + t + e);
    assert(val_of(s.subrange(ds, 20 + t + e)) == mag);
    assert(md.len() <= 10);
    assert(s.subrange(ds, 20 + t + e)[0] == s[ds]);
    assert(md.len() == 1 || md[0] != 48);
    assert(20 + t + e == ds + 1 || s[ds] != 48);

    // the xp number
    let xd = dec_digits(p.xp as nat);
    assert forall|k: int| 26 + t + e <= k < 26 + t + e + x implies is_digit(s[k]) by {
        assert(s.subrange(26 + t + e, 26 + t + e + x)[k - (26 + t + e)] == s[k]);
        assert(is_digit(xd[k - (26 + t + e)]));
    }
    assert(s.subrange(26 + t + e + x, 35 + t + e + x)[0] == s[26 + t + e + x]);
    assert(s[26 + t + e + x] == 44);
    lemma_run_end_is(s, 26 + t + e, 26 + t + e + x);
    assert(s.subrange(26 + t + e, 26 + t + e + x)[0] == s[26 + t + e]);
    assert(x == 1 || s[26 + t + e] != 48);

    // the level number
    let ld = dec_digits(p.level as nat);
    assert forall|k: int| 35 + t + e + x <= k < 35 + t + e + x + l implies is_digit(s[k]) by {
        assert(s.subrange(35 + t + e + x, 35 + t + e + x + l)[k - (35 + t + e + x)] == s[k]);
        assert(is_digit(ld[k - (35 + t + e + x)]));
    }
    assert(s[35 + t + e + x + l] == 125);
    assert(!is_digit(125));
    lemma_run_end_is(s, 35 + t + e + x, 35 + t + e + x + l);
    assert(s.subrange(35 + t + e + x, 35 + t + e + x + l)[0] == s[35 + t + e + x]);
    assert(l == 1 || s[35 + t + e + x] != 48);
}

/// A parsed digit run is the canonical encoding of its value.
proof fn lemma_parsed_digits(s: Seq<u8>, i: int, j: int, v: int)
    requires
        0 <= i < j <= s.len(),
        j == run_end(s, i),
        j == i + 1 || s[i] != 48,
        v == val_of(s.subrange(i, j)),
    ensures
        v >= 0,
        s.subrange(i, j) == dec_digits(v as nat),
        s[i] != 48 ==> v >= 1,
{
    lemma_run_end_props(s, i);
    let sub = s.subrange(i, j);
    assert forall|k: int| 0 <= k < sub.len() implies is_digit(sub[k]) by {
        assert(sub[k] == s[i + k]);
    }
    assert(sub[0] == s[i]);
    assert(canonical(sub));
    lemma_canonical_to_digits(sub);
}

/// Consecutive pieces that spell out a whole encoding assemble to it.
proof fn lemma_assemble(
    s: Seq<u8>,
    m: Mood,
    energy: i32,
    xp: u32,
    level: u32,
    i2: int,
    i3: int,
    i4: int,
    i5: int,
    i6: int,
    i7: int,
    i8: int,
)
    requires
        9 <= i2 <= i3 <= i4 <= i5 <= i6 <= i7 <= i8 < s.len(),
        i8 + 1 == s.len(),
        s.subrange(0, 9) == lit_open(),
        s.subrange(9, i2) == mood_tag(m),
        s.subrange(i2, i3) == lit_energy(),
        s.subrange(i3, i4) == int_bytes(energy as int),
        s.subrange(i4, i5) == lit_xp(),
        s.subrange(i5, i6) == dec_digits(xp as nat),
        s.subrange(i6, i7) == lit_level(),
        s.subrange(i7, i8) == dec_digits(level as nat),
        s[i8] == 125,
    ensures
        s == json_of(PersistedPet { mood: m, energy, xp, level }),
{
    lemma_prefix_extend(s, 9, i2);
    assert(s.subrange(0, i2) == lit_open() + mood_tag(m));
    lemma_prefix_extend(s, i2, i3);
    assert(s.subrange(0, i3) == lit_open() + mood_tag(m) + lit_energy());
    lemma_prefix_extend(s, i3, i4);
    assert(s.subrange(0, i4) == lit_open() + mood_tag(m) + lit_energy() + int_bytes(
        energy as int,
    ));
    lemma_prefix_extend(s, i4, i5);
    assert(s.subrange(0, i5) == lit_open() + mood_tag(m) + lit_energy() + int_bytes(
        energy as int,
    ) + lit_xp());
    lemma_prefix_extend(s, i5, i6);
    assert(s.subrange(0, i6) == lit_open() + mood_tag(m) + lit_energy() + int_bytes(
        energy as int,
    ) + lit_xp() + dec_digits(xp as nat));
    lemma_prefix_extend(s, i6, i7);
    assert(s.subrange(0, i7) == lit_open() + mood_tag(m) + lit_energy() + int_bytes(
        energy as int,
    ) + lit_xp() + dec_digits(xp as nat) + lit_level());
    lemma_prefix_extend(s, i7, i8);
    assert(s.subrange(0, i8) == lit_open() + mood_tag(m) + lit_energy() + int_bytes(
        energy as int,
    ) + lit_xp() + dec_digits(xp as nat) + lit_level() + dec_digits(level as nat));
    lemma_prefix_extend(s, i8, i8 + 1);
    assert(s.subrange(i8, i8 + 1) =~= seq![125u8]);
    assert(s.subrange(0, i8 + 1) == lit_open() + mood_tag(m) + lit_energy() + int_bytes(
        energy as int,
    ) + lit_xp() + dec_digits(xp as nat) + lit_level() + dec_digits(level as nat) + seq![125u8]);
    assert(s =~= s.subrange(0, i8 + 1));
}

/// On a valid encoding whose mood tag has been matched, every later
/// decoding step is pinned: each literal is in place, each digit run is
/// canonical, and each value is the record's field.
proof fn lemma_pins(s: Seq<u8>, p: PersistedPet, m: Mood, i2: int)
    requires
        s == json_of(p),
        i2 == 9 + mood_tag(m).len(),
        i2 <= s.len(),
        s.subrange(9, i2) == mood_tag(m),
    ensures
        p.mood == m,
        s.len() > i2 + 11,
        s.subrange(i2, i2 + 11) == lit_energy(),
        ({
            let i3 = i2 + 11;
            let st = if s[i3] == 45 { i3 + 1 } else { i3 };
            let j0 = run_end(s, st);
            let mag = if p.energy < 0 { -(p.energy as int) } else { p.energy as int };
            &&& (s[i3] == 45 <==> p.energy < 0)
            &&& st < j0 <= st + 10
            &&& (j0 == st + 1 || s[st] != 48)
            &&& val_of(s.subrange(st, j0)) == mag
            &&& (p.energy < 0 ==> mag >= 1)
            &&& mag <= 2147483648
            &&& (p.energy >= 0 ==> mag <= 2147483647)
            &&& j0 + 6 <= s.len()
            &&& s.subrange(j0, j0 + 6) == lit_xp()
            &&& ({
                let j1 = run_end(s, j0 + 6);
                &&& j0 + 6 < j1 <= j0 + 16
                &&& (j1 == j0 + 7 || s[j0 + 6] != 48)
                &&& val_of(s.subrange(j0 + 6, j1)) == p.xp
                &&& j1 + 9 <= s.len()
                &&& s.subrange(j1, j1 + 9) == lit_level()
                &&& ({
                    let j2 = run_end(s, j1 + 9);
                    &&& j1 + 9 < j2 <= j1 + 19
                    &&& (j2 == j1 + 10 || s[j1 + 9] != 48)
                    &&& val_of(s.subrange(j1 + 9, j2)) == p.level
                    &&& j2 + 1 == s.len()
                    &&& s[j2] == 125
                })
            })
        }),
{
    lemma_mood_pin(p, m);
    lemma_encoding_facts(p);
}


/// The signed energy piece: sign byte and digit run spell `int_bytes`.
proof fn lemma_signed_piece(s: Seq<u8>, i3: int, st: int, j: int, v: int, en: i32)
    requires
        0 <= i3 <= st < j <= s.len(),
        st == (if en < 0 { i3 + 1 } else { i3 }),
        en < 0 ==> s[i3] == 45 && v >= 1,
        en as int == (if en < 0 { -v } else { v }),
        j == run_end(s, st),
        j == st + 1 || s[st] != 48,
        v == val_of(s.subrange(st, j)),
    ensures
        s.subrange(i3, j) == int_bytes(en as int),
        en < 0 <==> s[i3] == 45,
{
    lemma_parsed_digits(s, st, j, v);
    if en < 0 {
        assert(s.subrange(i3, j) =~= seq![45u8] + s.subrange(st, j));
    } else {
        assert(s.subrange(i3, j) == s.subrange(st, j));
        assert(s[i3] == s.subrange(st, j)[0]);
        lemma_run_end_props(s, st);
        assert(is_digit(s[i3]));
    }
}

/// Decode the opening literal and the mood tag. On failure, no record
/// encodes to these bytes.
fn parse_mood(bytes: &Vec<u8>) -> (r: Option<(Mood, usize)>)
    ensures
        r is None ==> forall|p: PersistedPet| bytes@ != json_of(p),
        r matches Some((m, j)) ==> ({
            &&& j == 9 + mood_tag(m).len()
            &&& j <= bytes@.len()
            &&& bytes@.subrange(0, 9) == lit_open()
            &&& bytes@.subrange(9, j as int) == mood_tag(m)
        }),
{
    let i1 = match eat_lit(bytes, 0, &lit_open_vec()) {
        Some(j) => j,
        None => {
            proof {
                assert forall|p: PersistedPet| bytes@ == json_of(p) implies false by {
                    lemma_encoding_facts(p);
                }
            }
            return None;
        },
    };
    let rh = eat_lit(bytes, i1, &mood_tag_vec(Mood::Happy));
    let rn = eat_lit(bytes, i1, &mood_tag_vec(Mood::Neutral));
    let rsa = eat_lit(bytes, i1, &mood_tag_vec(Mood::Sad));
    let rsl = eat_lit(bytes, i1, &mood_tag_vec(Mood::Sleeping));
    let rsc = eat_lit(bytes, i1, &mood_tag_vec(Mood::Scared));
    if let Some(j) = rh {
        Some((Mood::Happy, j))
    } else if let Some(j) = rn {
        Some((Mood::Neutral, j))
    } else if let Some(j) = rsa {
        Some((Mood::Sad, j))
    } else if let Some(j) = rsl {
        Some((Mood::Sleeping, j))
    } else if let Some(j) = rsc {
        Some((Mood::Scared, j))
    } else {
        proof {
            assert forall|p: PersistedPet| bytes@ == json_of(p) implies false by {
                lemma_encoding_facts(p);
                match p.mood {
                    Mood::Happy => assert(rh is Some),
                    Mood::Neutral => assert(rn is Some),
                    Mood::Sad => assert(rsa is Some),
                    Mood::Sleeping => assert(rsl is Some),
                    Mood::Scared => assert(rsc is Some),
                }
            }
        }
        None
    }
}

/// Decode the head of a record: the opening literal, the mood tag, the
/// energy literal and the signed energy number. On success, where the
/// head ends; on failure, no record at all encodes to these bytes.
#[verifier::rlimit(60)]
fn parse_head(bytes: &Vec<u8>) -> (r: Option<(Mood, i32, usize)>)
    ensures
        r is None ==> forall|p: PersistedPet| bytes@ != json_of(p),
        r matches Some((m, en, j)) ==> ({
            let t = mood_tag(m).len() as int;
            let i3 = 20 + t;
            let st = if en < 0 { i3 + 1 } else { i3 };
            &&& 9 + t <= bytes@.len()
            &&& st < j <= bytes@.len()
            &&& bytes@.subrange(0, 9) == lit_open()
            &&& bytes@.subrange(9, 9 + t) == mood_tag(m)
            &&& bytes@.subrange(9 + t, i3) == lit_energy()
            &&& bytes@.subrange(i3, j as int) == int_bytes(en as int)
            &&& j == run_end(bytes@, st)
            &&& (en < 0 <==> bytes@[i3] == 45)
        }),
{
    let (mood, i2) = match parse_mood(bytes) {
        Some(pair) => pair,
        None => {
            return None;
        },
    };
    let i3 = match eat_lit(bytes, i2, &lit_energy_vec()) {
        Some(j) => j,
        None => {
            proof {
                assert forall|p: PersistedPet| bytes@ == json_of(p) implies false by {
                    lemma_pins(bytes@, p, mood, i2 as int);
                }
            }
            return None;
        },
    };
    if i3 >= bytes.len() {
        proof {
            assert forall|p: PersistedPet| bytes@ == json_of(p) implies false by {
                lemma_pins(bytes@, p, mood, i2 as int);
            }
        }
        return None;
    }
    let neg: bool = bytes[i3] == 45;
    let i3d: usize = if neg {
        i3 + 1
    } else {
        i3
    };
    let (ve, i4) = match parse_digits(bytes, i3d) {
        Some(pair) => pair,
        None => {
            proof {
                assert forall|p: PersistedPet| bytes@ == json_of(p) implies false by {
                    lemma_pins(bytes@, p, mood, i2 as int);
                }
            }
            return None;
        },
    };
    if (neg && ve == 0) || (neg && ve > 2147483648) || (!neg && ve > 2147483647) {
        proof {
            assert forall|p: PersistedPet| bytes@ == json_of(p) implies false by {
                lemma_pins(bytes@, p, mood, i2 as int);
            }
        }
        return None;
    }
    let energy: i32 = if neg {
        (-(ve as i64)) as i32
    } else {
        ve as i32
    };
    proof {
        lemma_signed_piece(bytes@, i3 as int, i3d as int, i4 as int, ve as int, energy);
    }
    Some((mood, energy, i4))
}

/// Decode a persisted record. This accepts exactly the byte strings that
/// `to_json` produces: decoding an encoding gives back the record that
/// was encoded, and nothing else decodes.
#[verifier::rlimit(60)]
pub fn from_json(bytes: &Vec<u8>) -> (r: Option<PersistedPet>)
    ensures
        r matches Some(p) ==> bytes@ == json_of(p),
        forall|p: PersistedPet| bytes@ == json_of(p) ==> r == Some(p),
{
    let (mood, energy, i4) = match parse_head(bytes) {
        Some(tr) => tr,
        None => {
            return None;
        },
    };
    let ghost i2: int = 9 + mood_tag(mood).len() as int;
    let ghost i3: int = 20 + mood_tag(mood).len() as int;
    let i5 = match eat_lit(bytes, i4, &lit_xp_vec()) {
        Some(j) => j,
        None => {
            proof {
                assert forall|p: PersistedPet| bytes@ == json_of(p) implies false by {
                    lemma_pins(bytes@, p, mood, i2);
                }
            }
            return None;
        },
    };
    let (vx, i6) = match parse_digits(bytes, i5) {
        Some(pair) => pair,
        None => {
            proof {
                assert forall|p: PersistedPet| bytes@ == json_of(p) implies false by {
                    lemma_pins(bytes@, p, mood, i2);
                }
            }
            return None;
        },
    };
    if vx > 4294967295 {
        proof {
            assert forall|p: PersistedPet| bytes@ == json_of(p) implies false by {
                lemma_pins(bytes@, p, mood, i2);
            }
        }
        return None;
    }
    let xp: u32 = vx as u32;
    let i7 = match eat_lit(bytes, i6, &lit_level_vec()) {
        Some(j) => j,
        None => {
            proof {
                assert forall|p: PersistedPet| bytes@ == json_of(p) implies false by {
                    lemma_pins(bytes@, p, mood, i2);
                }
            }
            return None;
        },
    };
    let (vl, i8) = match parse_digits(bytes, i7) {
        Some(pair) => pair,
        None => {
            proof {
                assert forall|p: PersistedPet| bytes@ == json_of(p) implies false by {
                    lemma_pins(bytes@, p, mood, i2);
                }
            }
            return None;
        },
    };
    if vl > 4294967295 {
        proof {
            assert forall|p: PersistedPet| bytes@ == json_of(p) implies false by {
                lemma_pins(bytes@, p, mood, i2);
            }
        }
        return None;
    }
    let level: u32 = vl as u32;
    if !(i8 < bytes.len() && bytes[i8] == 125 && i8 + 1 == bytes.len()) {
        proof {
            assert forall|p: PersistedPet| bytes@ == json_of(p) implies false by {
                lemma_pins(bytes@, p, mood, i2);
            }
        }
        return None;
    }
    let pp = PersistedPet { mood, energy, xp, level };
    proof {
        lemma_parsed_digits(bytes@, i5 as int, i6 as int, vx as int);
        lemma_parsed_digits(bytes@, i7 as int, i8 as int, vl as int);
        lemma_assemble(
            bytes@,
            mood,
            energy,
            xp,
            level,
            i2,
            i3,
            i4 as int,
            i5 as int,
            i6 as int,
            i7 as int,
            i8 as int,
        );
        assert(bytes@ == json_of(pp));
        assert forall|p: PersistedPet| bytes@ == json_of(p) implies pp == p by {
            lemma_pins(bytes@, p, mood, i2);
            lemma_pins(bytes@, pp, mood, i2);
            assert(energy == p.energy);
            assert(xp == p.xp);
            assert(level == p.level);
        }
    }
    Some(pp)
}

/// No two records share an encoding: the whole byte string pins every
/// field, so a persisted pet is reconstructed exactly.
pub proof fn lemma_encoding_injective(p1: PersistedPet, p2: PersistedPet)
    requires
        json_of(p1) == json_of(p2),
    ensures
        p1 == p2,
{
    lemma_encoding_facts(p1);
    let s = json_of(p1);
    let t = mood_tag(p1.mood).len() as int;
    lemma_mood_pin(p2, p1.mood);
    lemma_pins(s, p1, p1.mood, 9 + t);
    lemma_pins(s, p2, p1.mood, 9 + t);
}

/// Relies on dirs::home_dir: the running user's home directory, if the
/// platform reports one. The result depends on the environment, so
/// nothing is promised of it.
#[verifier::external_body]
fn home_dir_string() -> (r: Option<String>)
{
    dirs::home_dir().map(|p| p.to_string_lossy().into_owned())
}

/// The base that storage paths are built on: the home directory when one
/// is reported, the current directory otherwise.
pub open spec fn home_base(home: Option<String>) -> Seq<char> {
    match home {
        Some(h) => h@,
        None => "."@,
    }
}

/// The directory that holds the persisted pet for a given home value:
/// the home directory (or "." when none is reported) joined with the
/// `.terminal-pet` dot directory.
pub fn storage_dir_from(home: Option<String>) -> (r: String)
    ensures
        r@ == home_base(home) + "/.terminal-pet"@,
{
    let ghost base = home_base(home);
    let mut dir: String = match home {
        Some(h) => h,
        None => String::from_str("."),
    };
    proof {
        assert(dir@ == base);
    }
    dir.append("/.terminal-pet");
    dir
}

/// The path of the persisted pet file for a given home value: the
/// storage directory joined with `pet.json`.
pub fn default_path_from(home: Option<String>) -> (r: String)
    ensures
        r@ == home_base(home) + "/.terminal-pet/pet.json"@,
{
    let ghost base = home_base(home);
    let mut p = storage_dir_from(home);
    p.append("/pet.json");
    proof {
        reveal_strlit("/.terminal-pet");
        reveal_strlit("/pet.json");
        reveal_strlit("/.terminal-pet/pet.json");
        assert("/.terminal-pet"@ + "/pet.json"@ =~= "/.terminal-pet/pet.json"@);
        assert(p@ =~= base + "/.terminal-pet/pet.json"@);
    }
    p
}

/// The directory that holds the persisted pet, built on the environment's
/// reported home directory as `storage_dir_from` states.
pub fn storage_dir() -> (r: String)
    ensures
        exists|home: Option<String>| r@ == home_base(home) + "/.terminal-pet"@,
{
    let home = home_dir_string();
    let ghost h = home;
    let r = storage_dir_from(home);
    proof {
        assert(r@ == home_base(h) + "/.terminal-pet"@);
    }
    r
}

/// The default path of the persisted pet file, built on the environment's
/// reported home directory as `default_path_from` states.
pub fn default_path() -> (r: String)
    ensures
        exists|home: Option<String>| r@ == home_base(home) + "/.terminal-pet/pet.json"@,
{
    let home = home_dir_string();
    let ghost h = home;
    let r = default_path_from(home);
    proof {
        assert(r@ == home_base(h) + "/.terminal-pet/pet.json"@);
    }
    r
}

} // verus!
