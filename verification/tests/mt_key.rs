use evergreen::mtkey::{Mtkey, MT19937_64};

#[test]
fn mt_seed_5489_first_three_outputs() {
    let mut g = MT19937_64::default();
    g.seed(5489);
    assert_eq!(g.next_ulong(), 14514284786278117030);
    assert_eq!(g.next_ulong(), 4620546740167642908);
    assert_eq!(g.next_ulong(), 13109570281517897720);
}

#[test]
fn mt_unseeded_generator_draws_zero() {
    let mut g = MT19937_64::default();
    assert_eq!(g.next_ulong(), 0);
    assert_eq!(g.next_ulong(), 0);
}

#[test]
fn mt_outputs_across_twists() {
    let mut g = MT19937_64::default();
    g.seed(5489);
    let mut outs = Vec::new();
    for _ in 0..700 {
        outs.push(g.next_ulong());
    }
    assert_eq!(outs[200], 9289599934180135513);
    assert_eq!(outs[311], 1370093900783164344);
    assert_eq!(outs[312], 10909409191815101719);
    assert_eq!(outs[650], 9805313945593791628);
}

#[test]
fn mt_reseeding_restarts_the_sequence() {
    let mut g = MT19937_64::default();
    g.seed(99);
    let first = g.next_ulong();
    g.next_ulong();
    g.seed(99);
    assert_eq!(g.next_ulong(), first);
}

#[test]
fn key_from_seed_zero() {
    let key = Mtkey::from_seed(0);
    assert_eq!(key.keybuf.len(), 4096);
    assert_eq!(
        key.keybuf[..16].to_vec(),
        vec![0, 213, 83, 235, 122, 27, 131, 15, 60, 155, 50, 57, 228, 180, 9, 119]
    );
    assert_eq!(key.keybuf[4088..].to_vec(), vec![119, 162, 15, 253, 16, 79, 29, 94]);
}

#[test]
fn key_from_other_seeds() {
    assert_eq!(Mtkey::from_seed(1).keybuf[..8].to_vec(), vec![15, 179, 161, 61, 47, 75, 176, 83]);
    assert_eq!(
        Mtkey::from_seed(0xdeadbeef).keybuf[..8].to_vec(),
        vec![58, 142, 45, 67, 30, 32, 185, 16]
    );
}

#[test]
fn xor_repeats_the_key_past_its_end() {
    let key = Mtkey::from_seed(0);
    let mut data = vec![0u8; 4100];
    data[4096] = 0xff;
    key.xor(&mut data);
    assert_eq!(data[1], 213);
    assert_eq!(data[4095], 94);
    assert_eq!(data[4096], 0xff ^ key.keybuf[0]);
    assert_eq!(data[4097], key.keybuf[1]);
}

#[test]
fn xor_twice_gives_the_data_back() {
    let key = Mtkey::from_seed(12345);
    let original: Vec<u8> = (0..5000u32).map(|i| (i * 7 % 256) as u8).collect();
    let mut data = original.clone();
    key.xor(&mut data);
    assert_ne!(data, original);
    key.xor(&mut data);
    assert_eq!(data, original);
}

#[test]
fn xor_with_a_short_key() {
    let key = Mtkey { keybuf: vec![1, 2] };
    let mut data = vec![0u8, 0, 0, 0, 0];
    key.xor(&mut data);
    assert_eq!(data, vec![1, 2, 1, 2, 1]);
}
