use evergreen::key_bruteforce::KeyBruteforce;
use evergreen::mtkey::Mtkey;
use evergreen::random_cs::bruteforce;

const SENT: u64 = 1700000000123;
const SERVER: u64 = 0x1122334455667788;

#[test]
fn one_shot_search_finds_seed_at_send_time() {
    assert_eq!(bruteforce(SENT, SERVER, &[159, 6]), Some(11731321635045515144));
    assert_eq!(bruteforce(SENT, SERVER, &[159, 6, 1, 2, 3]), Some(11731321635045515144));
}

#[test]
fn one_shot_search_tries_later_stamps() {
    let seed = bruteforce(SENT, SERVER, &[96, 1]);
    assert_eq!(seed, Some(4543208434404385160));
    let key = Mtkey::from_seed(seed.unwrap());
    let mut head = vec![96u8, 1];
    key.xor(&mut head);
    assert_eq!(head, vec![0x45, 0x67]);
}

#[test]
fn one_shot_search_gives_up() {
    assert_eq!(bruteforce(SENT, SERVER, &[0, 0]), None);
}

const FRAME_BYTES: [u8; 20] = [
    253, 75, 109, 176, 153, 227, 143, 124, 252, 29, 179, 230, 207, 34, 138, 76, 61, 250, 38, 189,
];

#[test]
fn key_search_remembers_the_stamp_that_worked() {
    let mut kb = KeyBruteforce::new();
    assert!(kb.previous_seeds().is_empty());
    let seed = kb.bruteforce(SENT, SERVER, &FRAME_BYTES);
    assert_eq!(seed, Some(13353968568002656136));
    assert_eq!(kb.previous_seeds().clone(), vec![1700000000125i64]);
    let again = kb.bruteforce(SENT + 50_000, SERVER, &FRAME_BYTES);
    assert_eq!(again, Some(13353968568002656136));
    assert_eq!(kb.previous_seeds().clone(), vec![1700000000125i64]);
}

#[test]
fn key_search_result_decrypts_the_frame() {
    let mut kb = KeyBruteforce::new();
    let seed = kb.bruteforce(SENT, SERVER, &FRAME_BYTES).unwrap();
    let mut data = FRAME_BYTES.to_vec();
    Mtkey::from_seed(seed).xor(&mut data);
    let mut expected = vec![0x45u8, 0x67];
    expected.extend(1..17u8);
    expected.extend([0x89u8, 0xAB]);
    assert_eq!(data, expected);
}

#[test]
fn saved_seeds_are_decimal_lines() {
    let kb = KeyBruteforce::new();
    assert_eq!(kb.save_text(), Vec::<u8>::new());
    let mut kb = KeyBruteforce::new();
    kb.bruteforce(SENT, SERVER, &FRAME_BYTES);
    assert_eq!(String::from_utf8(kb.save_text()).unwrap(), "1700000000125\n");
}

#[test]
fn negative_stamps_are_saved_with_a_sign() {
    let neg: [u8; 20] = [
        171, 66, 18, 52, 62, 63, 34, 16, 112, 182, 181, 74, 69, 114, 21, 165, 187, 248, 198, 169,
    ];
    let mut kb = KeyBruteforce::new();
    assert_eq!(kb.bruteforce(u64::MAX, SERVER, &neg), Some(3353648763371981192));
    assert_eq!(kb.previous_seeds().clone(), vec![-1i64]);
    assert_eq!(String::from_utf8(kb.save_text()).unwrap(), "-1\n");
}

#[test]
fn key_search_ignores_the_stamp_above_32_bits() {
    let shift: u64 = 1 << 32;
    let mut kb = KeyBruteforce::new();
    assert_eq!(kb.bruteforce(SENT + shift, SERVER, &FRAME_BYTES), Some(13353968568002656136));
    assert_eq!(kb.previous_seeds().clone(), vec![1700000000125i64 + shift as i64]);
}
