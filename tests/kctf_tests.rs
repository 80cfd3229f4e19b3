use kctf::pow::{SolveTask, VerifyTask};
use kctf::{decode_solution, KctfErrors, KctfPow};

const KNOWN_CHALLENGE: &str = "s.AAU5.AACV7mM375HM8wElUbxsknqD";
const KNOWN_SOLUTION: &str = "s.LR15WHZE5YO/8EEY9BF7pdvxiJxwkDi7mdS52bg7eVUdHbAwBVxfahl/qxceccZV2PHkj4wQTQ9Ng837/KD9IWQL4v2GmRyjc5O9MxiAXBtxn7FYjjA2as/17lF2lEtQtABbSEUgxam+sIsdfDJMAUzn4fYsS7vOarXh7iY6ZYknrwt1S8EHyQeYkoTUzkpUIVAuSvl8jExcPzvmuaoM6A==";

/// The modulus `2^1279 - 1` minus `k`, big-endian, for `k < 256`.
fn modulus_minus(k: u8) -> Vec<u8> {
    let mut m = vec![0xffu8; 160];
    m[0] = 0x7f;
    m[159] = 0xff - k;
    m
}

#[test]
fn verify_google_kctf_challenge() {
    let result = KctfPow::from_challenge(KNOWN_CHALLENGE).unwrap();
    assert!(result.verify(KNOWN_SOLUTION).unwrap());
}

#[test]
fn bad_challenge_unknown_version() {
    assert_eq!(
        KctfPow::from_challenge("v.AAAR+CA/uJcJHw.AACV7mM375HM8wElUbxsknqD"),
        Err(KctfErrors::UnknownVersion)
    );
}

#[test]
fn bad_challenge_bad_format() {
    assert_eq!(
        KctfPow::from_challenge("s.AAAR+CA/uJcJHwAACV7mM375HM8wElUbxsknqD"),
        Err(KctfErrors::FormatError)
    );
}

#[test]
fn bad_challenge_decode_error() {
    assert_eq!(
        KctfPow::from_challenge("s.AAA;[********R+CA/uJcJHw.AACV7mM375HM8wElUbxsknqD"),
        Err(KctfErrors::DecodeError)
    );
}

#[test]
fn bad_challenge_large_difficulty() {
    assert_eq!(
        KctfPow::from_challenge("s.AAAR+CA/uJcJHw.AACV7mM375HM8wElUbxsknqD"),
        Err(KctfErrors::LargeDifficulty)
    );
}

#[test]
fn self_test_difficulty_50() {
    let challenge = KctfPow::gen_challenge(50);
    let solution = challenge.clone().solve();
    assert!(challenge.verify(&solution).unwrap());
}

#[test]
fn self_test_difficulty_1337() {
    let challenge = KctfPow::gen_challenge(1337);
    let solution = challenge.clone().solve();
    assert!(challenge.verify(&solution).unwrap());
}

#[test]
fn expensive_google_kctf_challenge() {
    let result = KctfPow::from_challenge(KNOWN_CHALLENGE).unwrap().solve();
    assert_eq!(result, KNOWN_SOLUTION);
}

#[test]
fn self_test_difficulty_0() {
    let challenge = KctfPow::gen_challenge(0);
    assert_eq!(challenge.difficulty, 0);
    let solution = challenge.clone().solve();
    assert!(challenge.verify(&solution).unwrap());
}

#[test]
fn self_test_difficulty_1() {
    let challenge = KctfPow::gen_challenge(1);
    let solution = challenge.clone().solve();
    assert!(challenge.verify(&solution).unwrap());
}

#[test]
fn generated_value_has_at_most_sixteen_bytes() {
    let challenge = KctfPow::gen_challenge(7);
    assert_eq!(challenge.difficulty, 7);
    assert!(challenge.value.len() <= 16);
    assert!(challenge.value.first() != Some(&0));
}

#[test]
fn wrong_solution_is_rejected() {
    let challenge = KctfPow::from_challenge(KNOWN_CHALLENGE).unwrap();
    assert_eq!(challenge.verify("s.invalid"), Ok(false));
    assert_eq!(challenge.verify("s.AA=="), Ok(false));
}

#[test]
fn verify_reports_decode_errors() {
    let challenge = KctfPow::from_challenge(KNOWN_CHALLENGE).unwrap();
    assert_eq!(challenge.verify("t.AA"), Err(KctfErrors::UnknownVersion));
    assert_eq!(challenge.verify("s"), Err(KctfErrors::FormatError));
    assert_eq!(challenge.verify("s.AA.AA"), Err(KctfErrors::FormatError));
    assert_eq!(challenge.verify("s.A;"), Err(KctfErrors::DecodeError));
}

#[test]
fn verify_is_repeatable() {
    let challenge = KctfPow::from_challenge(KNOWN_CHALLENGE).unwrap();
    let first = challenge.verify(KNOWN_SOLUTION);
    let second = challenge.verify(KNOWN_SOLUTION);
    assert_eq!(first, Ok(true));
    assert_eq!(first, second);
    assert_eq!(challenge.verify("s.AQ=="), challenge.verify("s.AQ=="));
}

#[test]
fn opposite_sign_verifies() {
    let challenge = KctfPow::from_difficulty_and_value(0, vec![5]);
    let opposite = KctfPow::from_difficulty_and_value(0, modulus_minus(5)).solve();
    assert!(challenge.verify(&opposite).unwrap());
    let neither = KctfPow::from_difficulty_and_value(0, modulus_minus(4)).solve();
    assert!(!challenge.verify(&neither).unwrap());
}

#[test]
fn opposite_sign_of_a_solved_chain_verifies() {
    let challenge = KctfPow::from_difficulty_and_value(3, vec![9, 1, 2]);
    let solution = challenge.clone().solve();
    assert!(challenge.verify(&solution).unwrap());
    let start = KctfPow::from_difficulty_and_value(0, vec![9, 1, 2]);
    assert!(start.verify(&KctfPow::from_difficulty_and_value(0, vec![9, 1, 2]).solve()).unwrap());
}

#[test]
fn four_byte_difficulty_decodes() {
    let c = KctfPow::from_challenge("s.AQIDBA==.AA==").unwrap();
    assert_eq!(c.difficulty, 0x0102_0304);
    assert_eq!(c.value, Vec::<u8>::new());
}

#[test]
fn five_significant_bytes_are_too_large() {
    assert_eq!(
        KctfPow::from_challenge("s.AQAAAAA=.AA=="),
        Err(KctfErrors::LargeDifficulty)
    );
}

#[test]
fn leading_zero_fifth_byte_decodes() {
    let c = KctfPow::from_challenge("s.AAECAwQ=.Bw==").unwrap();
    assert_eq!(c.difficulty, 0x0102_0304);
    assert_eq!(c.value, vec![7]);
}

#[test]
fn format_and_version_errors() {
    assert_eq!(KctfPow::from_challenge("s.onlyonepart"), Err(KctfErrors::FormatError));
    assert_eq!(KctfPow::from_challenge("x.AAAA.AAAA"), Err(KctfErrors::UnknownVersion));
    assert_eq!(KctfPow::from_challenge("s.AA;A.AAAA"), Err(KctfErrors::DecodeError));
    assert_eq!(KctfPow::from_challenge(""), Err(KctfErrors::UnknownVersion));
    assert_eq!(KctfPow::from_challenge("s.AA.AA.AA"), Err(KctfErrors::FormatError));
}

#[test]
fn unpadded_segments_decode() {
    let c = KctfPow::from_challenge("s.AAU5.Bw").unwrap();
    assert_eq!(c.difficulty, 1337);
    assert_eq!(c.value, vec![7]);
}

#[test]
fn serialize_known_challenge() {
    let c = KctfPow::from_challenge(KNOWN_CHALLENGE).unwrap();
    assert_eq!(c.serialize_challenge(), "s.AAAFOQ==.le5jN++RzPMBJVG8bJJ6gw==");
}

#[test]
fn serialize_trims_leading_zeros() {
    let c = KctfPow::from_difficulty_and_value(1, vec![0, 0, 7]);
    assert_eq!(c.serialize_challenge(), "s.AAAAAQ==.Bw==");
    let zero = KctfPow::from_difficulty_and_value(0, vec![]);
    assert_eq!(zero.serialize_challenge(), "s.AAAAAA==.");
}

#[test]
fn challenge_round_trip() {
    for (d, v) in [(0u32, vec![]), (1, vec![1]), (50, vec![200, 0, 3]), (u32::MAX, vec![0x7f; 40])] {
        let c = KctfPow::from_difficulty_and_value(d, v);
        assert_eq!(KctfPow::from_challenge(&c.serialize_challenge()), Ok(c));
    }
    let generated = KctfPow::gen_challenge(1337);
    assert_eq!(
        KctfPow::from_challenge(&generated.serialize_challenge()),
        Ok(generated)
    );
}

#[test]
fn decode_solution_values_and_errors() {
    assert_eq!(decode_solution("s.AAU5"), Ok(vec![5, 57]));
    assert_eq!(decode_solution("s."), Ok(vec![]));
    assert_eq!(decode_solution("t.AAU5"), Err(KctfErrors::UnknownVersion));
    assert_eq!(decode_solution("s"), Err(KctfErrors::FormatError));
    assert_eq!(decode_solution("s.AA.AA"), Err(KctfErrors::FormatError));
    assert_eq!(decode_solution("s.A;AA"), Err(KctfErrors::DecodeError));
}

#[test]
fn solve_of_zero_difficulty_returns_value() {
    let s = KctfPow::from_difficulty_and_value(0, vec![0, 7]).solve();
    assert_eq!(s, "s.Bw==");
}

#[test]
fn solve_one_step_of_zero_flips_to_one() {
    // 0 to any positive power is 0, and flipping the low bit gives 1.
    let s = KctfPow::from_difficulty_and_value(1, vec![]).solve();
    assert_eq!(s, "s.AQ==");
}

#[test]
fn independent_solves_do_not_depend_on_order() {
    let values: Vec<Vec<u8>> = vec![vec![1, 2, 3], vec![4, 5], vec![6], vec![7, 8, 9, 10]];
    let forward: Vec<String> = values
        .iter()
        .map(|v| KctfPow::from_difficulty_and_value(20, v.clone()).solve())
        .collect();
    let mut backward: Vec<String> = values
        .iter()
        .rev()
        .map(|v| KctfPow::from_difficulty_and_value(20, v.clone()).solve())
        .collect();
    backward.reverse();
    assert_eq!(forward, backward);
}

#[test]
fn stepped_solve_matches_solve() {
    let challenge = KctfPow::from_challenge(KNOWN_CHALLENGE).unwrap();
    let mut task = SolveTask::new(challenge.clone());
    assert_eq!(task.remaining, 1337);
    assert_eq!(task.finish(), None);
    let mut rounds = 0u32;
    while !task.step() {
        rounds += 1;
    }
    assert_eq!(rounds, 1337);
    assert_eq!(task.remaining, 0);
    assert!(task.step());
    assert_eq!(task.finish(), Some(String::from(KNOWN_SOLUTION)));
}

#[test]
fn stepped_verify_matches_verify() {
    let challenge = KctfPow::from_challenge(KNOWN_CHALLENGE).unwrap();
    let mut task = VerifyTask::new(&challenge, KNOWN_SOLUTION).unwrap();
    assert_eq!(task.finish(), None);
    while !task.step() {}
    assert_eq!(task.finish(), Some(true));
    let mut wrong = VerifyTask::new(&challenge, "s.invalid").unwrap();
    while !wrong.step() {}
    assert_eq!(wrong.finish(), Some(false));
}

#[test]
fn verify_task_reports_decode_errors() {
    let challenge = KctfPow::from_difficulty_and_value(2, vec![5]);
    assert!(matches!(VerifyTask::new(&challenge, "t.AA"), Err(KctfErrors::UnknownVersion)));
    assert!(matches!(VerifyTask::new(&challenge, "s.AA.AA"), Err(KctfErrors::FormatError)));
    assert!(matches!(VerifyTask::new(&challenge, "s.A;"), Err(KctfErrors::DecodeError)));
}

#[test]
fn one_round_squares_back_up_to_sign() {
    for v in [vec![5u8], vec![1, 2, 3, 4, 5, 6, 7, 8], modulus_minus(3)] {
        let challenge = KctfPow::from_difficulty_and_value(1, v);
        let solution = challenge.clone().solve();
        assert_eq!(challenge.verify(&solution), Ok(true));
    }
}

#[test]
fn verify_round_of_zero_is_one() {
    // 0 with its low bit flipped is 1, and 1 squared is 1.
    let challenge = KctfPow::from_difficulty_and_value(1, vec![1]);
    assert_eq!(challenge.verify("s."), Ok(true));
    // 2 with its low bit flipped is 3, and 3 squared is 9.
    let challenge = KctfPow::from_difficulty_and_value(1, vec![9]);
    assert_eq!(challenge.verify("s.Ag=="), Ok(true));
}

#[test]
fn both_signs_accepted_and_nothing_else() {
    let c = KctfPow::from_difficulty_and_value(0, vec![0, 5]);
    let text = |v: Vec<u8>| KctfPow::from_difficulty_and_value(0, v).solve();
    assert_eq!(c.verify(&text(vec![5])), Ok(true));
    assert_eq!(c.verify(&text(modulus_minus(5))), Ok(true));
    assert_eq!(c.verify(&text(vec![6])), Ok(false));
    assert_eq!(c.verify(&text(modulus_minus(6))), Ok(false));
}

#[test]
fn zero_value_solution_text_is_empty() {
    assert_eq!(KctfPow::from_difficulty_and_value(0, vec![0, 0]).solve(), "s.");
}

#[test]
fn constructed_values_compare_as_numbers() {
    assert_eq!(
        KctfPow::from_difficulty_and_value(1, vec![0, 0, 7]),
        KctfPow::from_difficulty_and_value(1, vec![7])
    );
    assert_eq!(KctfPow::from_difficulty_and_value(1, vec![0, 0, 7]).value, vec![7]);
    assert_ne!(
        KctfPow::from_difficulty_and_value(1, vec![7]),
        KctfPow::from_difficulty_and_value(2, vec![7])
    );
}
