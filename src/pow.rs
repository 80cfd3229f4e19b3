//! Challenges: generation, solving by a chain of modular square roots, and
//! verification by the cheap chain of squarings back.
use rand::Rng;
use vstd::arithmetic::power::{lemma_pow_positive, pow};
use vstd::prelude::*;
use vstd::string::*;

use crate::arith::{
    add_big, digits_of, div_small, flip_low_bit, pow_mod, pow_mod_spec, pow_of, sub_small, xor_one,
};
use crate::bignat::{be_nat, lemma_be_nat_of_nat_to_be, nat_to_be, trim_leading_zeros};
use crate::codec::{
    b64_text, challenge_model, challenge_text, decode_segment, decode_solution, difficulty_bytes,
    dot_segments, encode_b64, is_version_tag, lemma_split_challenge_text, lemma_split_nonempty,
    read_difficulty, solution_model, solution_text, split_dots, u32_be, version_tag, KctfErrors,
};

verus! {

/// The bit length that fixes the scheme's numbers.
pub const MODULUS_BITS: u32 = 1279;

/// The modulus: `2^1279 - 1`.
pub open spec fn modulus() -> nat {
    (pow(2, MODULUS_BITS as nat) - 1) as nat
}

/// The exponent of one solving step: `2^1279 / 4`, which is `(modulus + 1) / 4`.
pub open spec fn exponent() -> nat {
    (pow(2, MODULUS_BITS as nat) / 4) as nat
}

/// One solving step: a modular square root, up to sign, then the low bit
/// flipped.
pub open spec fn solve_step(v: nat) -> nat {
    flip_low_bit(pow_mod_spec(v, exponent(), modulus()))
}

/// The value after `d` solving steps from `v`.
pub open spec fn wind(v: nat, d: nat) -> nat
    decreases d,
{
    if d == 0 {
        v
    } else {
        wind(solve_step(v), (d - 1) as nat)
    }
}

/// One verifying step: the low bit flipped, then squared modulo the modulus.
pub open spec fn verify_step(c: nat) -> nat {
    pow_mod_spec(flip_low_bit(c), 2, modulus())
}

/// The value after `d` verifying steps from `c`.
pub open spec fn unwind(c: nat, d: nat) -> nat
    decreases d,
{
    if d == 0 {
        c
    } else {
        unwind(verify_step(c), (d - 1) as nat)
    }
}

/// Whether the end `f` of the verifying chain matches the starting value
/// `v`, with either sign.
pub open spec fn accepts(v: nat, f: nat) -> bool {
    f == v || f + v == modulus()
}

/// What verifying the solution text `s` against the challenge `(d, v)` gives.
pub open spec fn verify_result(d: u32, v: nat, s: Seq<char>) -> Result<bool, KctfErrors> {
    match solution_model(s) {
        Ok(c) => Ok(accepts(v, unwind(c, d as nat))),
        Err(e) => Err(e),
    }
}

proof fn lemma_digits_of(n: nat)
    ensures
        be_nat(digits_of(n)) == n,
{
    lemma_be_nat_of_nat_to_be(n);
    if n == 0 {
        assert(seq![0u8].drop_last() =~= Seq::<u8>::empty());
    }
}

/// The scheme's numbers, as shortest big-endian byte sequences; built once
/// for each solve or verify.
pub struct KctfParams {
    modulus: Vec<u8>,
    exponent: Vec<u8>,
}

impl KctfParams {
    #[verifier::type_invariant]
    spec fn holds_scheme_numbers(self) -> bool {
        &&& self.modulus@ == nat_to_be(modulus())
        &&& self.exponent@ == nat_to_be(exponent())
    }

    fn new() -> (r: Self) {
        let big = pow_of(2, MODULUS_BITS);
        proof {
            lemma_pow_positive(2, MODULUS_BITS as nat);
            lemma_digits_of(pow(2, MODULUS_BITS as nat) as nat);
            lemma_digits_of(modulus());
            lemma_digits_of(exponent());
        }
        let modulus = trim_leading_zeros(&sub_small(&big, 1));
        let exponent = trim_leading_zeros(&div_small(&big, 4));
        KctfParams { modulus, exponent }
    }
}

/// Relies on `rand::thread_rng` and `Rng::fill`: sixteen bytes, of which
/// nothing else is known.
#[verifier::external_body]
fn random_bytes() -> (r: Vec<u8>)
    ensures
        r@.len() == 16,
{
    let mut bytes: [u8; 16] = [0; 16];
    rand::thread_rng().fill(&mut bytes[..]);
    bytes.to_vec()
}

/// A challenge: how many steps it takes, and the value it starts from as a
/// big-endian byte sequence.
#[derive(Debug, Clone, PartialEq, Eq)]
pub struct KctfPow {
    /// The difficulty of the challenge
    pub difficulty: u32,
    /// The starting value of the challenge, big-endian
    pub value: Vec<u8>,
}

impl View for KctfPow {
    type V = (u32, nat);

    open spec fn view(&self) -> (u32, nat) {
        (self.difficulty, be_nat(self.value@))
    }
}

impl KctfPow {
    /// A challenge with the given difficulty and starting value, which is
    /// kept as its shortest big-endian encoding.
    pub fn from_difficulty_and_value(difficulty: u32, value: Vec<u8>) -> (r: Self)
        ensures
            r.difficulty == difficulty,
            r.value@ == nat_to_be(be_nat(value@)),
            r@ == (difficulty, be_nat(value@)),
    {
        let trimmed = trim_leading_zeros(&value);
        proof {
            lemma_be_nat_of_nat_to_be(be_nat(value@));
        }
        KctfPow { difficulty, value: trimmed }
    }

    /// Decodes a challenge, keeping the starting value's shortest encoding.
    pub fn from_challenge(challenge: &str) -> (r: Result<Self, KctfErrors>)
        ensures
            match challenge_model(challenge@) {
                Ok(m) => r is Ok && r->Ok_0@ == m && r->Ok_0.value@ == nat_to_be(m.1),
                Err(e) => r == Err::<Self, KctfErrors>(e),
            },
            forall|d: u32, v: nat|
                challenge@ == #[trigger] challenge_text(d, v) ==> (r is Ok && r->Ok_0.difficulty
                    == d && r->Ok_0.value@ == nat_to_be(v)),
    {
        let segs = dot_segments(challenge);
        proof {
            lemma_split_nonempty(challenge@);
            assert(segs@[0].0 <= segs@[0].1);
            assert forall|d: u32, v: nat| challenge@ == #[trigger] challenge_text(d, v) implies {
                &&& split_dots(challenge@) == seq![
                    version_tag(),
                    b64_text(u32_be(d)),
                    b64_text(nat_to_be(v)),
                ]
                &&& be_nat(u32_be(d)) == d
            } by {
                lemma_split_challenge_text(d, v);
                lemma_u32_be(d);
            }
        }
        if !is_version_tag(challenge, segs[0]) {
            return Err(KctfErrors::UnknownVersion);
        }
        if segs.len() != 3 {
            return Err(KctfErrors::FormatError);
        }
        proof {
            assert(segs@[1].0 <= segs@[1].1);
            assert(segs@[2].0 <= segs@[2].1);
        }
        let difficulty = decode_segment(challenge, segs[1]);
        let value = decode_segment(challenge, segs[2]);
        match (difficulty, value) {
            (Ok(d), Ok(v)) => match read_difficulty(&d) {
                Ok(difficulty) => {
                    let value = trim_leading_zeros(&v);
                    proof {
                        lemma_be_nat_of_nat_to_be(be_nat(v@));
                        assert forall|d: u32, v: nat| challenge@ == #[trigger] challenge_text(
                            d,
                            v,
                        ) implies value@ == nat_to_be(v) by {
                            lemma_be_nat_of_nat_to_be(v);
                        }
                    }
                    Ok(KctfPow { difficulty, value })
                },
                Err(e) => Err(e),
            },
            _ => Err(KctfErrors::DecodeError),
        }
    }

    /// Solves the challenge: `difficulty` times, raise the value to the
    /// exponent modulo the modulus and flip its low bit; the result is the
    /// solution's text.
    pub fn solve(self) -> (r: String)
        ensures
            r@ == solution_text(wind(self@.1, self.difficulty as nat)),
    {
        let ghost target = wind(self@.1, self.difficulty as nat);
        let mut task = SolveTask::new(self);
        while task.remaining > 0
            invariant
                task.end() == target,
            decreases task.remaining,
        {
            task.step();
        }
        solution_string(&task.value)
    }

    /// The challenge's text, with the starting value's shortest encoding.
    pub fn serialize_challenge(&self) -> (r: String)
        ensures
            r@ == challenge_text(self.difficulty, self@.1),
    {
        let mut r = String::from_str("s.");
        let d = encode_b64(&difficulty_bytes(self.difficulty));
        r.append(d.as_str());
        r.append(".");
        let v = encode_b64(&trim_leading_zeros(&self.value));
        r.append(v.as_str());
        proof {
            reveal_strlit("s.");
            reveal_strlit(".");
            assert(r@ =~= challenge_text(self.difficulty, self@.1));
        }
        r
    }

    /// Verifies a solution: `difficulty` times, flip the candidate's low bit
    /// and square it modulo the modulus; the solution is right when the result
    /// is the starting value or the modulus minus it.
    pub fn verify(&self, solution: &str) -> (r: Result<bool, KctfErrors>)
        ensures
            r == verify_result(self.difficulty, self@.1, solution@),
            forall|n: nat|
                solution@ == #[trigger] solution_text(n) ==> r == Ok::<bool, KctfErrors>(
                    accepts(self@.1, unwind(n, self.difficulty as nat)),
                ),
    {
        let mut task = match VerifyTask::new(self, solution) {
            Ok(t) => t,
            Err(e) => return Err(e),
        };
        let ghost target = task.end();
        while task.remaining > 0
            invariant
                task.end() == target,
                be_nat(task.value@) == self@.1,
            decreases task.remaining,
        {
            task.step();
        }
        Ok(task.outcome())
    }

    /// A fresh challenge of the given difficulty, from sixteen random bytes.
    pub fn gen_challenge(difficulty: u32) -> (r: Self)
        ensures
            r.difficulty == difficulty,
            r@.1 < pow(256, 16),
            r.value@ == nat_to_be(r@.1),
    {
        let bytes = random_bytes();
        let value = trim_leading_zeros(&bytes);
        proof {
            lemma_be_nat_bound(bytes@);
            lemma_be_nat_of_nat_to_be(be_nat(bytes@));
        }
        KctfPow { difficulty, value }
    }
}

/// One solving round: `value` raised to the exponent modulo the modulus,
/// with its low bit flipped.
fn solve_round(params: &KctfParams, value: &Vec<u8>) -> (r: Vec<u8>)
    ensures
        be_nat(r@) == solve_step(be_nat(value@)),
{
    proof {
        use_type_invariant(params);
        lemma_be_nat_of_nat_to_be(modulus());
        lemma_be_nat_of_nat_to_be(exponent());
        lemma_modulus_odd();
    }
    let root = pow_mod(value, &params.exponent, &params.modulus);
    proof {
        lemma_digits_of(pow_mod_spec(be_nat(value@), exponent(), modulus()));
    }
    let r = xor_one(&root);
    proof {
        lemma_digits_of(solve_step(be_nat(value@)));
    }
    r
}

/// One verifying round: `candidate` with its low bit flipped, squared modulo
/// the modulus.
fn verify_round(params: &KctfParams, candidate: &Vec<u8>) -> (r: Vec<u8>)
    ensures
        be_nat(r@) == verify_step(be_nat(candidate@)),
{
    let two: Vec<u8> = vec![2u8];
    proof {
        use_type_invariant(params);
        lemma_be_nat_of_nat_to_be(modulus());
        lemma_modulus_odd();
        assert(two@.drop_last() =~= Seq::<u8>::empty());
        assert(two@.last() == 2);
        assert(be_nat(two@) == be_nat(two@.drop_last()) * 256 + 2);
    }
    let flipped = xor_one(candidate);
    proof {
        lemma_digits_of(flip_low_bit(be_nat(candidate@)));
    }
    let r = pow_mod(&flipped, &two, &params.modulus);
    proof {
        lemma_digits_of(verify_step(be_nat(candidate@)));
    }
    r
}

/// The text of the solution with value `v`.
fn solution_string(v: &Vec<u8>) -> (r: String)
    ensures
        r@ == solution_text(be_nat(v@)),
{
    let mut r = String::from_str("s.");
    let t = encode_b64(&trim_leading_zeros(v));
    r.append(t.as_str());
    proof {
        reveal_strlit("s.");
        assert(r@ =~= solution_text(be_nat(v@)));
    }
    r
}

/// A solve in progress, one round at a time: the value reached so far and
/// the rounds still to run.
pub struct SolveTask {
    /// The value reached so far, big-endian
    pub value: Vec<u8>,
    /// The rounds still to run
    pub remaining: u32,
    /// The scheme's numbers
    pub params: KctfParams,
}

impl SolveTask {
    /// The value that the solve reaches once every remaining round has run.
    pub open spec fn end(&self) -> nat {
        wind(be_nat(self.value@), self.remaining as nat)
    }

    /// A solve of the challenge `c`, with no round run yet.
    pub fn new(c: KctfPow) -> (t: Self)
        ensures
            t.end() == wind(c@.1, c.difficulty as nat),
            t.remaining == c.difficulty,
            t.value == c.value,
    {
        SolveTask { value: c.value, remaining: c.difficulty, params: KctfParams::new() }
    }

    /// Runs one round if one is left; true when none was left.
    pub fn step(&mut self) -> (done: bool)
        ensures
            final(self).end() == old(self).end(),
            done == (old(self).remaining == 0),
            !done ==> final(self).remaining == old(self).remaining - 1,
            done ==> final(self).remaining == 0,
    {
        if self.remaining == 0 {
            return true;
        }
        let ghost before = be_nat(self.value@);
        self.value = solve_round(&self.params, &self.value);
        self.remaining = self.remaining - 1;
        proof {
            assert(wind(before, old(self).remaining as nat) == wind(
                solve_step(before),
                self.remaining as nat,
            ));
        }
        false
    }

    /// The solution's text once no round is left.
    pub fn finish(&self) -> (r: Option<String>)
        ensures
            (r is Some) == (self.remaining == 0),
            r is Some ==> r->Some_0@ == solution_text(self.end()),
    {
        if self.remaining == 0 {
            Some(solution_string(&self.value))
        } else {
            None
        }
    }
}

/// A verify in progress, one round at a time: the candidate reached so far,
/// the rounds still to run, and the challenge's starting value.
pub struct VerifyTask {
    /// The candidate reached so far, big-endian
    pub candidate: Vec<u8>,
    /// The rounds still to run
    pub remaining: u32,
    /// The challenge's starting value, big-endian
    pub value: Vec<u8>,
    /// The scheme's numbers
    pub params: KctfParams,
}

impl VerifyTask {
    /// The candidate that the verify reaches once every remaining round has
    /// run.
    pub open spec fn end(&self) -> nat {
        unwind(be_nat(self.candidate@), self.remaining as nat)
    }

    /// A verify of `solution` against the challenge `c`, with no round run
    /// yet; an error exactly when `solution` is not a solution's text.
    pub fn new(c: &KctfPow, solution: &str) -> (r: Result<Self, KctfErrors>)
        ensures
            match solution_model(solution@) {
                Ok(n) => r is Ok && r->Ok_0.end() == unwind(n, c.difficulty as nat)
                    && r->Ok_0.remaining == c.difficulty && be_nat(r->Ok_0.value@) == c@.1,
                Err(e) => r == Err::<Self, KctfErrors>(e),
            },
            forall|n: nat|
                solution@ == #[trigger] solution_text(n) ==> (r is Ok && r->Ok_0.end() == unwind(
                    n,
                    c.difficulty as nat,
                )),
    {
        let candidate = match decode_solution(solution) {
            Ok(x) => x,
            Err(e) => return Err(e),
        };
        proof {
            lemma_be_nat_of_nat_to_be(solution_model(solution@)->Ok_0);
            assert forall|n: nat| solution@ == #[trigger] solution_text(n) implies be_nat(
                candidate@,
            ) == n by {
                lemma_be_nat_of_nat_to_be(n);
            }
        }
        Ok(
            VerifyTask {
                candidate,
                remaining: c.difficulty,
                value: c.value.clone(),
                params: KctfParams::new(),
            },
        )
    }

    /// Runs one round if one is left; true when none was left.
    pub fn step(&mut self) -> (done: bool)
        ensures
            final(self).end() == old(self).end(),
            done == (old(self).remaining == 0),
            !done ==> final(self).remaining == old(self).remaining - 1,
            done ==> final(self).remaining == 0,
            final(self).value == old(self).value,
    {
        if self.remaining == 0 {
            return true;
        }
        let ghost before = be_nat(self.candidate@);
        self.candidate = verify_round(&self.params, &self.candidate);
        self.remaining = self.remaining - 1;
        proof {
            assert(unwind(before, old(self).remaining as nat) == unwind(
                verify_step(before),
                self.remaining as nat,
            ));
        }
        false
    }

    /// Whether the solution is right, once no round is left.
    pub fn finish(&self) -> (r: Option<bool>)
        ensures
            (r is Some) == (self.remaining == 0),
            r is Some ==> r->Some_0 == accepts(be_nat(self.value@), self.end()),
    {
        if self.remaining == 0 {
            Some(self.outcome())
        } else {
            None
        }
    }

    /// Whether the current candidate is the starting value or the modulus
    /// minus it.
    fn outcome(&self) -> (r: bool)
        ensures
            r == accepts(be_nat(self.value@), be_nat(self.candidate@)),
    {
        proof {
            use_type_invariant(&self.params);
        }
        let end = trim_leading_zeros(&self.candidate);
        let start = trim_leading_zeros(&self.value);
        let sum = trim_leading_zeros(&add_big(&end, &start));
        proof {
            lemma_be_nat_of_nat_to_be(modulus());
            lemma_be_nat_of_nat_to_be(be_nat(self.candidate@));
            lemma_be_nat_of_nat_to_be(be_nat(self.value@));
            lemma_digits_of(be_nat(end@) + be_nat(start@));
            lemma_be_nat_of_nat_to_be(be_nat(end@) + be_nat(start@));
        }
        let same = end == start;
        let opposite = sum == self.params.modulus;
        proof {
            if same {
                assert(end@ =~= start@);
            }
            if opposite {
                assert(sum@ =~= self.params.modulus@);
            }
        }
        same || opposite
    }
}

/// Square roots modulo the modulus come in pairs of opposite sign: a
/// solution whose verifying chain ends at the modulus minus the starting
/// value verifies as true, as one that ends at the starting value does.
pub proof fn lemma_either_sign_verifies(d: u32, v: nat, s: Seq<char>)
    requires
        solution_model(s) is Ok,
        v <= modulus(),
        unwind(solution_model(s)->Ok_0, d as nat) == modulus() - v || unwind(
            solution_model(s)->Ok_0,
            d as nat,
        ) == v,
    ensures
        verify_result(d, v, s) == Ok::<bool, KctfErrors>(true),
{
}

/// Every root that a solving round takes squares back, modulo the modulus,
/// to its input or to the input's negation. For a prime modulus that is
/// `3` modulo `4`, as the scheme's is, Euler's criterion gives this.
pub open spec fn roots_square_back() -> bool {
    forall|x: nat|
        x <= modulus() ==> {
            let q = #[trigger] pow_mod_spec(pow_mod_spec(x, exponent(), modulus()), 2, modulus());
            q == x % modulus() || q + x % modulus() == modulus()
        }
}

/// Verifying the result of solving accepts it: the chain of squarings walks
/// back through the solving chain, up to sign at each round, provided the
/// roots that solving takes square back as `roots_square_back` says.
pub proof fn lemma_solved_chain_verifies(v: nat, d: nat)
    requires
        roots_square_back(),
        v <= modulus(),
    ensures
        accepts(v, unwind(wind(v, d), d)),
    decreases d,
{
    lemma_modulus_odd();
    if d > 0 {
        let k = (d - 1) as nat;
        let w = wind(v, k);
        lemma_wind_back(v, k);
        lemma_wind_bound(v, k);
        let r = pow_mod_spec(w, exponent(), modulus());
        let q = pow_mod_spec(r, 2, modulus());
        lemma_flip_twice(r);
        assert(verify_step(solve_step(w)) == q);
        assert(q == w % modulus() || q + w % modulus() == modulus());
        assert(unwind(wind(v, d), d) == unwind(q, k));
        lemma_solved_chain_verifies(v, k);
        if k == 0 {
            assert(w == v);
            if v == modulus() {
                vstd::arithmetic::div_mod::lemma_mod_self_0(modulus() as int);
            } else {
                vstd::arithmetic::div_mod::lemma_small_mod(v, modulus());
            }
        } else {
            assert(q < modulus()) by {
                vstd::arithmetic::div_mod::lemma_mod_bound(pow(r as int, 2), modulus() as int);
            }
            if w == modulus() {
                vstd::arithmetic::div_mod::lemma_mod_self_0(modulus() as int);
            } else {
                vstd::arithmetic::div_mod::lemma_small_mod(w, modulus());
            }
            lemma_verify_step_sign(q, w);
            assert(unwind(q, k) == unwind(verify_step(q), (k - 1) as nat));
            assert(unwind(w, k) == unwind(verify_step(w), (k - 1) as nat));
        }
    }
}

/// The solving chain, one round longer, is one more round on its end.
proof fn lemma_wind_back(v: nat, d: nat)
    ensures
        wind(v, d + 1) == solve_step(wind(v, d)),
    decreases d,
{
    assert(wind(v, d + 1) == wind(solve_step(v), d));
    if d > 0 {
        lemma_wind_back(solve_step(v), (d - 1) as nat);
        assert(wind(v, d) == wind(solve_step(v), (d - 1) as nat));
    } else {
        assert(wind(solve_step(v), 0) == solve_step(v));
    }
}

/// The solving chain from a value up to the modulus stays up to the modulus.
proof fn lemma_wind_bound(v: nat, d: nat)
    requires
        v <= modulus(),
    ensures
        wind(v, d) <= modulus(),
    decreases d,
{
    if d > 0 {
        lemma_modulus_odd();
        vstd::arithmetic::div_mod::lemma_mod_bound(
            pow(v as int, exponent()),
            modulus() as int,
        );
        lemma_wind_bound(solve_step(v), (d - 1) as nat);
    }
}

proof fn lemma_flip_twice(y: nat)
    ensures
        flip_low_bit(flip_low_bit(y)) == y,
{
}

/// Squaring forgets the sign.
proof fn lemma_square_opposite(y: nat)
    requires
        y <= modulus(),
    ensures
        pow_mod_spec((modulus() - y) as nat, 2, modulus()) == pow_mod_spec(y, 2, modulus()),
{
    lemma_modulus_odd();
    let m = modulus() as int;
    let z = m - y;
    vstd::arithmetic::power::lemma_square_is_pow2(z);
    vstd::arithmetic::power::lemma_square_is_pow2(y as int);
    assert(z * z == (y * y) + m * (m - 2 * y)) by (nonlinear_arith)
        requires
            z == m - y;
    vstd::arithmetic::div_mod::lemma_mod_multiples_vanish(m - 2 * y, (y * y) as int, m);
}

/// A verifying round gives the same result on two values up to the modulus
/// that are equal, or opposite, modulo the modulus.
proof fn lemma_verify_step_sign(a: nat, b: nat)
    requires
        a <= modulus(),
        b <= modulus(),
        a == b % modulus() || a + b % modulus() == modulus(),
    ensures
        verify_step(a) == verify_step(b),
{
    lemma_modulus_odd();
    let m = modulus();
    if b == m {
        vstd::arithmetic::div_mod::lemma_mod_self_0(m as int);
    } else {
        vstd::arithmetic::div_mod::lemma_small_mod(b, m);
    }
    if a != b {
        let (fa, fb) = (flip_low_bit(a), flip_low_bit(b));
        assert(fa + fb == m);
        if fa <= m {
            lemma_square_opposite(fa);
            assert(fb == (m - fa) as nat);
        } else {
            lemma_square_opposite(fb);
            assert(fa == (m - fb) as nat);
        }
    }
}

proof fn lemma_modulus_odd()
    ensures
        modulus() % 2 == 1,
        modulus() >= 1,
{
    vstd::arithmetic::power::lemma_pow_adds(2, 1, (MODULUS_BITS - 1) as nat);
    lemma_pow_positive(2, (MODULUS_BITS - 1) as nat);
    vstd::arithmetic::power::lemma_pow1(2);
}

proof fn lemma_u32_be(d: u32)
    ensures
        be_nat(u32_be(d)) == d,
{
    let s = u32_be(d);
    let s3 = s.drop_last();
    let s2 = s3.drop_last();
    let s1 = s2.drop_last();
    assert(s1.drop_last() =~= Seq::<u8>::empty());
    assert(s1.len() == 1 && s1.last() == s[0]);
    assert(be_nat(s1.drop_last()) == 0);
    assert(be_nat(s1) == s[0] as nat);
    assert(be_nat(s2) == be_nat(s1) * 256 + s[1] as nat);
    assert(be_nat(s3) == be_nat(s2) * 256 + s[2] as nat);
    assert(be_nat(s) == be_nat(s3) * 256 + s[3] as nat);
    let (a, b, c, e) = (d / 0x100_0000, (d / 0x1_0000) % 256, (d / 0x100) % 256, d % 256);
    assert(s[0] == a && s[1] == b && s[2] == c && s[3] == e);
    assert(((a * 256 + b) * 256 + c) * 256 + e == d) by (bit_vector)
        requires
            a == d / 0x100_0000,
            b == (d / 0x1_0000) % 256,
            c == (d / 0x100) % 256,
            e == d % 256;
}

/// A number is below `256` to the power of its byte count.
proof fn lemma_be_nat_bound(s: Seq<u8>)
    ensures
        be_nat(s) < pow(256, s.len()),
    decreases s.len(),
{
    vstd::arithmetic::power::lemma_pow0(256);
    if s.len() > 0 {
        lemma_be_nat_bound(s.drop_last());
        vstd::arithmetic::power::lemma_pow_adds(256, (s.len() - 1) as nat, 1);
        vstd::arithmetic::power::lemma_pow1(256);
        let p = pow(256, (s.len() - 1) as nat);
        assert(be_nat(s.drop_last()) * 256 + s.last() < p * 256) by (nonlinear_arith)
            requires be_nat(s.drop_last()) < p, s.last() < 256;
    }
}

} // verus!
