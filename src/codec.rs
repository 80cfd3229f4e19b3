//! The text form of challenges and solutions: dot-separated segments after a
//! version tag, each segment the base64 form of a big-endian number.
use base64::engine::general_purpose::{GeneralPurpose, GeneralPurposeConfig};
use base64::engine::DecodePaddingMode;
use base64::Engine;
use vstd::prelude::*;
use vstd::string::*;

use crate::bignat::{
    be_nat, lemma_be_nat_of_nat_to_be, lemma_be_nat_prefix, lemma_be_nat_prefix_le, nat_to_be,
    trim_leading_zeros,
};

verus! {

/// Why a text is not a challenge or a solution.
#[derive(Debug, Clone, Copy, PartialEq, Eq, PartialOrd, Ord, Structural)]
pub enum KctfErrors {
    /// The first segment is not the version tag `s`.
    UnknownVersion,
    /// The number of segments after the version tag is wrong.
    FormatError,
    /// A segment is not base64.
    DecodeError,
    /// The difficulty does not fit in 32 bits.
    LargeDifficulty,
}

#[verifier::external_type_specification]
#[verifier::external_body]
pub struct ExDecodeError(base64::DecodeError);

/// The base64 digit of a six-bit value, in the standard alphabet.
pub open spec fn b64_digit(x: int) -> char {
    if x < 26 {
        (65 + x) as char
    } else if x < 52 {
        (97 + (x - 26)) as char
    } else if x < 62 {
        (48 + (x - 52)) as char
    } else if x == 62 {
        '+'
    } else {
        '/'
    }
}

/// Standard base64 with padding: each group of three bytes becomes four
/// digits, and a final group of one or two bytes is padded with `=`.
pub open spec fn b64_text(b: Seq<u8>) -> Seq<char>
    decreases b.len(),
{
    if b.len() == 0 {
        seq![]
    } else if b.len() == 1 {
        let x = b[0] as int;
        seq![b64_digit(x / 4), b64_digit((x % 4) * 16), '=', '=']
    } else if b.len() == 2 {
        let (x, y) = (b[0] as int, b[1] as int);
        seq![b64_digit(x / 4), b64_digit((x % 4) * 16 + y / 16), b64_digit((y % 16) * 4), '=']
    } else {
        let (x, y, z) = (b[0] as int, b[1] as int, b[2] as int);
        seq![
            b64_digit(x / 4),
            b64_digit((x % 4) * 16 + y / 16),
            b64_digit((y % 16) * 4 + z / 64),
            b64_digit(z % 64),
        ] + b64_text(b.subrange(3, b.len() as int))
    }
}

/// What the lenient base64 decoder makes of a text: `None` where it fails.
pub uninterp spec fn b64_decoded(s: Seq<char>) -> Option<Seq<u8>>;

/// Relies on `base64`'s `Engine::encode`, with the standard alphabet and
/// padding on.
#[verifier::external_body]
pub(crate) fn encode_b64(b: &[u8]) -> (r: String)
    ensures
        r@ == b64_text(b@),
{
    let config = GeneralPurposeConfig::new().with_encode_padding(true);
    GeneralPurpose::new(&base64::alphabet::STANDARD, config).encode(b)
}

/// Relies on `base64`'s `Engine::decode`, with the standard alphabet, any
/// amount of padding and nonzero trailing bits allowed: the result is a
/// function of the text, and a padded standard encoding gives back its
/// bytes.
#[verifier::external_body]
pub(crate) fn decode_b64(s: &str) -> (r: Result<Vec<u8>, base64::DecodeError>)
    ensures
        r is Ok <==> b64_decoded(s@) is Some,
        r is Ok ==> b64_decoded(s@) == Some(r->Ok_0@),
        forall|b: Seq<u8>| #[trigger] b64_text(b) == s@ ==> (r is Ok && r->Ok_0@ == b),
{
    let config = GeneralPurposeConfig::new()
        .with_decode_allow_trailing_bits(true)
        .with_decode_padding_mode(DecodePaddingMode::Indifferent);
    GeneralPurpose::new(&base64::alphabet::STANDARD, config).decode(s)
}

/// The segments of `s` between its dots: one more than there are dots.
pub open spec fn split_dots(s: Seq<char>) -> Seq<Seq<char>>
    decreases s.len(),
{
    if s.len() == 0 {
        seq![seq![]]
    } else {
        let p = split_dots(s.drop_last());
        if s.last() == '.' {
            p.push(seq![])
        } else {
            p.update(p.len() - 1, p.last().push(s.last()))
        }
    }
}

pub(crate) proof fn lemma_split_nonempty(s: Seq<char>)
    ensures
        split_dots(s).len() >= 1,
    decreases s.len(),
{
    if s.len() > 0 {
        lemma_split_nonempty(s.drop_last());
    }
}

/// The bounds of the segments of `s` between its dots.
pub(crate) fn dot_segments(s: &str) -> (r: Vec<(usize, usize)>)
    ensures
        r@.len() == split_dots(s@).len(),
        forall|j: int|
            0 <= j < r@.len() ==> #[trigger] r@[j].0 <= r@[j].1 && r@[j].1 <= s@.len() && s@.subrange(
                r@[j].0 as int,
                r@[j].1 as int,
            ) == split_dots(s@)[j],
{
    let n = s.unicode_len();
    let mut r: Vec<(usize, usize)> = Vec::new();
    let mut start: usize = 0;
    let mut i: usize = 0;
    while i < n
        invariant
            n == s@.len(),
            start <= i <= n,
            r@.len() + 1 == split_dots(s@.subrange(0, i as int)).len(),
            forall|j: int|
                0 <= j < r@.len() ==> #[trigger] r@[j].0 <= r@[j].1 && r@[j].1 <= s@.len() && s@.subrange(
                    r@[j].0 as int,
                    r@[j].1 as int,
                ) == split_dots(s@.subrange(0, i as int))[j],
            s@.subrange(start as int, i as int) == split_dots(s@.subrange(0, i as int)).last(),
        decreases n - i,
    {
        let c = s.get_char(i);
        let ghost p = split_dots(s@.subrange(0, i as int));
        let ghost q = split_dots(s@.subrange(0, i + 1));
        let ghost r0 = r@;
        proof {
            let t = s@.subrange(0, i + 1);
            assert(t.drop_last() =~= s@.subrange(0, i as int));
            assert(t.last() == c);
            lemma_split_nonempty(s@.subrange(0, i as int));
            if c == '.' {
                assert(q == p.push(seq![]));
            } else {
                assert(q == p.update(p.len() - 1, p.last().push(c)));
            }
        }
        if c == '.' {
            r.push((start, i));
            start = i + 1;
            proof {
                assert(s@.subrange(start as int, start as int) =~= Seq::<char>::empty());
                assert forall|j: int| 0 <= j < r@.len() implies #[trigger] r@[j].0 <= r@[j].1 && r@[j].1 <= s@.len()
                    && s@.subrange(r@[j].0 as int, r@[j].1 as int) == q[j] by {
                    if j < r0.len() {
                        assert(r@[j] == r0[j]);
                        assert(q[j] == p[j]);
                    }
                }
            }
        } else {
            proof {
                assert(s@.subrange(start as int, i + 1) =~= s@.subrange(start as int, i as int).push(c));
                assert forall|j: int| 0 <= j < r@.len() implies #[trigger] r@[j].0 <= r@[j].1 && r@[j].1 <= s@.len()
                    && s@.subrange(r@[j].0 as int, r@[j].1 as int) == q[j] by {
                    assert(j < p.len() - 1);
                    assert(r@[j] == r0[j]);
                    assert(s@.subrange(r0[j].0 as int, r0[j].1 as int) == p[j]);
                    assert(q[j] == p[j]);
                }
            }
        }
        i = i + 1;
    }
    let ghost r0 = r@;
    r.push((start, n));
    proof {
        assert(s@.subrange(0, n as int) =~= s@);
        lemma_split_nonempty(s@);
        assert(split_dots(s@.subrange(0, n as int)) == split_dots(s@));
        assert forall|j: int| 0 <= j < r@.len() implies #[trigger] r@[j].0 <= r@[j].1 && r@[j].1 <= s@.len()
            && s@.subrange(r@[j].0 as int, r@[j].1 as int) == split_dots(s@)[j] by {
            if j < r0.len() {
                assert(r@[j] == r0[j]);
                let pre = split_dots(s@.subrange(0, n as int));
                assert(r0[j].0 <= r0[j].1 && r0[j].1 <= s@.len());
                assert(s@.subrange(r0[j].0 as int, r0[j].1 as int) == pre[j]);
            } else {
                assert(j == r0.len());
                assert(r@[j] == (start, n));
            }
        }
    }
    r
}

/// The difficulty that a big-endian byte sequence denotes: an error where it
/// does not fit in 32 bits.
pub open spec fn difficulty_of(b: Seq<u8>) -> Result<u32, KctfErrors> {
    if be_nat(b) < 0x1_0000_0000 {
        Ok(be_nat(b) as u32)
    } else {
        Err(KctfErrors::LargeDifficulty)
    }
}

/// Reads a difficulty: any number of leading zero bytes, then at most four
/// significant ones.
pub fn read_difficulty(b: &[u8]) -> (r: Result<u32, KctfErrors>)
    ensures
        r == difficulty_of(b@),
{
    let mut acc: u64 = 0;
    let mut i: usize = 0;
    while i < b.len()
        invariant
            i <= b@.len(),
            acc == be_nat(b@.subrange(0, i as int)),
            acc < 0x1_0000_0000,
        decreases b@.len() - i,
    {
        proof {
            lemma_be_nat_prefix(b@, i as int);
        }
        acc = acc * 256 + b[i] as u64;
        if acc >= 0x1_0000_0000 {
            proof {
                lemma_be_nat_prefix_le(b@, i + 1);
            }
            return Err(KctfErrors::LargeDifficulty);
        }
        i = i + 1;
    }
    proof {
        assert(b@.subrange(0, b@.len() as int) =~= b@);
    }
    Ok(acc as u32)
}

/// The version tag that starts every challenge and solution.
pub open spec fn version_tag() -> Seq<char> {
    seq!['s']
}

/// The four big-endian bytes of a difficulty.
pub open spec fn u32_be(d: u32) -> Seq<u8> {
    seq![
        (d / 0x100_0000) as u8,
        ((d / 0x1_0000) % 256) as u8,
        ((d / 0x100) % 256) as u8,
        (d % 256) as u8,
    ]
}

/// The text of the challenge with difficulty `d` and starting value `v`.
pub open spec fn challenge_text(d: u32, v: nat) -> Seq<char> {
    version_tag() + seq!['.'] + b64_text(u32_be(d)) + seq!['.'] + b64_text(nat_to_be(v))
}

/// The text of the solution `v`.
pub open spec fn solution_text(v: nat) -> Seq<char> {
    version_tag() + seq!['.'] + b64_text(nat_to_be(v))
}

/// What a text denotes as a challenge: its difficulty and starting value,
/// or why it is none.
pub open spec fn challenge_model(s: Seq<char>) -> Result<(u32, nat), KctfErrors> {
    let p = split_dots(s);
    if p[0] != version_tag() {
        Err(KctfErrors::UnknownVersion)
    } else if p.len() != 3 {
        Err(KctfErrors::FormatError)
    } else if b64_decoded(p[1]) is None || b64_decoded(p[2]) is None {
        Err(KctfErrors::DecodeError)
    } else {
        match difficulty_of(b64_decoded(p[1])->Some_0) {
            Ok(d) => Ok((d, be_nat(b64_decoded(p[2])->Some_0))),
            Err(e) => Err(e),
        }
    }
}

/// What a text denotes as a solution: a number, or why it is none.
pub open spec fn solution_model(s: Seq<char>) -> Result<nat, KctfErrors> {
    let p = split_dots(s);
    if p[0] != version_tag() {
        Err(KctfErrors::UnknownVersion)
    } else if p.len() != 2 {
        Err(KctfErrors::FormatError)
    } else if b64_decoded(p[1]) is None {
        Err(KctfErrors::DecodeError)
    } else {
        Ok(be_nat(b64_decoded(p[1])->Some_0))
    }
}

proof fn lemma_b64_digit_not_dot(x: int)
    requires
        0 <= x < 64,
    ensures
        b64_digit(x) != '.',
{
}

/// Base64 text holds no dot.
pub proof fn lemma_b64_text_no_dot(b: Seq<u8>)
    ensures
        forall|i: int| 0 <= i < b64_text(b).len() ==> b64_text(b)[i] != '.',
    decreases b.len(),
{
    let t = b64_text(b);
    if b.len() >= 3 {
        let (x, y, z) = (b[0] as int, b[1] as int, b[2] as int);
        let rest = b.subrange(3, b.len() as int);
        lemma_b64_text_no_dot(rest);
        lemma_b64_digit_not_dot(x / 4);
        lemma_b64_digit_not_dot((x % 4) * 16 + y / 16);
        lemma_b64_digit_not_dot((y % 16) * 4 + z / 64);
        lemma_b64_digit_not_dot(z % 64);
        assert forall|i: int| 0 <= i < t.len() implies t[i] != '.' by {
            if i >= 4 {
                assert(t[i] == b64_text(rest)[i - 4]);
            }
        }
    } else if b.len() == 2 {
        let (x, y) = (b[0] as int, b[1] as int);
        lemma_b64_digit_not_dot(x / 4);
        lemma_b64_digit_not_dot((x % 4) * 16 + y / 16);
        lemma_b64_digit_not_dot((y % 16) * 4);
    } else if b.len() == 1 {
        let x = b[0] as int;
        lemma_b64_digit_not_dot(x / 4);
        lemma_b64_digit_not_dot((x % 4) * 16);
    }
}

/// A dot followed by a dot-free text adds that text as the last segment.
pub proof fn lemma_split_append(p: Seq<char>, b: Seq<char>)
    requires
        forall|i: int| 0 <= i < b.len() ==> b[i] != '.',
    ensures
        split_dots(p + seq!['.'] + b) == split_dots(p).push(b),
    decreases b.len(),
{
    let t = p + seq!['.'] + b;
    if b.len() == 0 {
        assert(t.drop_last() =~= p);
        assert(b =~= Seq::<char>::empty());
    } else {
        lemma_split_append(p, b.drop_last());
        assert(t.drop_last() =~= p + seq!['.'] + b.drop_last());
        assert(b.drop_last().push(b.last()) =~= b);
        assert(split_dots(t) =~= split_dots(p).push(b));
    }
}

proof fn lemma_split_tag()
    ensures
        split_dots(version_tag()) == seq![version_tag()],
{
    let t = version_tag();
    assert(t.drop_last() =~= Seq::<char>::empty());
    assert(split_dots(Seq::<char>::empty()) == seq![Seq::<char>::empty()]);
    assert(Seq::<char>::empty().push('s') =~= t);
    assert(split_dots(t) =~= seq![t]);
}

/// The segments of a challenge's text are its tag and its two base64 texts.
pub proof fn lemma_split_challenge_text(d: u32, v: nat)
    ensures
        split_dots(challenge_text(d, v)) == seq![
            version_tag(),
            b64_text(u32_be(d)),
            b64_text(nat_to_be(v)),
        ],
{
    let (x, y) = (b64_text(u32_be(d)), b64_text(nat_to_be(v)));
    lemma_b64_text_no_dot(u32_be(d));
    lemma_b64_text_no_dot(nat_to_be(v));
    lemma_split_tag();
    lemma_split_append(version_tag(), x);
    lemma_split_append(version_tag() + seq!['.'] + x, y);
    assert(seq![version_tag()].push(x).push(y) =~= seq![version_tag(), x, y]);
}

/// The segments of a solution's text are its tag and its base64 text.
pub proof fn lemma_split_solution_text(v: nat)
    ensures
        split_dots(solution_text(v)) == seq![version_tag(), b64_text(nat_to_be(v))],
{
    lemma_b64_text_no_dot(nat_to_be(v));
    lemma_split_tag();
    lemma_split_append(version_tag(), b64_text(nat_to_be(v)));
    assert(seq![version_tag()].push(b64_text(nat_to_be(v))) =~= seq![
        version_tag(),
        b64_text(nat_to_be(v)),
    ]);
}

/// Whether the segment `b` of `s` is the version tag.
pub(crate) fn is_version_tag(s: &str, b: (usize, usize)) -> (r: bool)
    requires
        b.0 <= b.1 <= s@.len(),
    ensures
        r == (s@.subrange(b.0 as int, b.1 as int) == version_tag()),
{
    assert(version_tag().len() == 1);
    if b.1 - b.0 != 1 {
        return false;
    }
    let c = s.get_char(b.0);
    proof {
        assert(s@.subrange(b.0 as int, b.1 as int)[0] == c);
        if c == 's' {
            assert(s@.subrange(b.0 as int, b.1 as int) =~= version_tag());
        }
    }
    c == 's'
}

/// The bytes that base64 segment `b` of `s` holds, or why it holds none.
pub(crate) fn decode_segment(s: &str, b: (usize, usize)) -> (r: Result<Vec<u8>, KctfErrors>)
    requires
        b.0 <= b.1 <= s@.len(),
    ensures
        match b64_decoded(s@.subrange(b.0 as int, b.1 as int)) {
            Some(x) => r is Ok && r->Ok_0@ == x,
            None => r == Err::<Vec<u8>, KctfErrors>(KctfErrors::DecodeError),
        },
        forall|x: Seq<u8>| #[trigger] b64_text(x) == s@.subrange(b.0 as int, b.1 as int) ==> (
        r is Ok && r->Ok_0@ == x),
{
    match decode_b64(s.substring_char(b.0, b.1)) {
        Ok(bytes) => Ok(bytes),
        Err(_) => Err(KctfErrors::DecodeError),
    }
}

/// Decodes a solution: its number as the shortest big-endian byte sequence.
pub fn decode_solution(solution: &str) -> (r: Result<Vec<u8>, KctfErrors>)
    ensures
        match solution_model(solution@) {
            Ok(n) => r is Ok && r->Ok_0@ == nat_to_be(n),
            Err(e) => r == Err::<Vec<u8>, KctfErrors>(e),
        },
        forall|v: nat| solution@ == #[trigger] solution_text(v) ==> (r is Ok && r->Ok_0@ == nat_to_be(v)),
{
    let segs = dot_segments(solution);
    proof {
        lemma_split_nonempty(solution@);
        assert(segs@[0].0 <= segs@[0].1);
    }
    proof {
        assert forall|v: nat| solution@ == #[trigger] solution_text(v) implies split_dots(
            solution@,
        ).len() == 2 && split_dots(solution@)[0] == version_tag() by {
            lemma_split_solution_text(v);
        }
    }
    if !is_version_tag(solution, segs[0]) {
        return Err(KctfErrors::UnknownVersion);
    }
    if segs.len() != 2 {
        return Err(KctfErrors::FormatError);
    }
    proof {
        assert(segs@[1].0 <= segs@[1].1);
    }
    match decode_segment(solution, segs[1]) {
        Ok(bytes) => {
            let r = trim_leading_zeros(&bytes);
            proof {
                assert forall|v: nat| solution@ == #[trigger] solution_text(v) implies r@ == nat_to_be(v) by {
                    lemma_split_solution_text(v);
                    lemma_be_nat_of_nat_to_be(v);
                }
            }
            Ok(r)
        }
        Err(e) => {
            proof {
                assert forall|v: nat| solution@ == #[trigger] solution_text(v) implies false by {
                    lemma_split_solution_text(v);
                    assert(solution@.subrange(segs@[1].0 as int, segs@[1].1 as int) == b64_text(
                        nat_to_be(v),
                    ));
                }
            }
            Err(e)
        }
    }
}

/// The four big-endian bytes of a difficulty.
pub fn difficulty_bytes(d: u32) -> (r: Vec<u8>)
    ensures
        r@ == u32_be(d),
{
    let r = vec![
        (d / 0x100_0000) as u8,
        ((d / 0x1_0000) % 256) as u8,
        ((d / 0x100) % 256) as u8,
        (d % 256) as u8,
    ];
    proof {
        assert(r@ =~= u32_be(d));
    }
    r
}

} // verus!
