use session_ratchet::bytes::{same_bytes, take};
use session_ratchet::ratchet::{
    derive_chain_step, derive_initial, derive_root_step, ratchet_step, ChainKey, RatchetKeyPair,
    RootKey,
};

fn unhex(text: &str) -> Vec<u8> {
    let digits: Vec<u8> = text.bytes().map(|c| (c as char).to_digit(16).unwrap() as u8).collect();
    digits.chunks(2).map(|pair| pair[0] * 16 + pair[1]).collect()
}

fn key(text: &str) -> [u8; 32] {
    let bytes = unhex(text);
    assert_eq!(bytes.len(), 32);
    let mut out = [0u8; 32];
    out.copy_from_slice(&bytes);
    out
}

const ALICE_PRIVATE: &str = "77076d0a7318a57d3c16c17251b26645df4c2f87ebc0992ab177fba51db92c2a";
const ALICE_PUBLIC: &str = "8520f0098930a754748b7ddcb43ef75a0dbf3a0d26381af4eba4a98eaa9b4e6a";
const BOB_PRIVATE: &str = "5dab087e624a8a4b79e17f8b83800ee66f3bb1292618b6fd1c2f8b27ff88e0eb";
const BOB_PUBLIC: &str = "de9edb7d7b7dc1b4d35b61c2ece435373f8343c85b78674dadfc7e146f882b4f";
const SHARED: &str = "4a5d9d5ba4ce2de1728e3bf480350f25e07e21c947d19e3376f09b3c1e161742";

#[test]
fn take_copies_the_window() {
    let source: Vec<u8> = (0u8..40).collect();
    let window: [u8; 4] = take::<4>(&source, 3);
    assert_eq!(window, [3, 4, 5, 6]);
    let whole: [u8; 40] = take::<40>(&source, 0);
    assert_eq!(whole.to_vec(), source);
    let none: [u8; 0] = take::<0>(&source, 40);
    assert_eq!(none.len(), 0);
}

#[test]
fn same_bytes_compares_length_and_content() {
    assert!(same_bytes(&[1, 2, 3], &[1, 2, 3]));
    assert!(!same_bytes(&[1, 2, 3], &[1, 2, 4]));
    assert!(!same_bytes(&[1, 2, 3], &[1, 2]));
    assert!(same_bytes(&[], &[]));
}

#[test]
fn root_step_gives_the_expected_keys() {
    let (root, chain) = derive_root_step(&RootKey { bytes: [1u8; 32] }, &[2u8; 32]);
    assert_eq!(
        root.bytes,
        key("5f8b3480a53acf984c4d253e8f836d3b3f17548503439e1688548a97ea31d236")
    );
    assert_eq!(
        chain.bytes,
        key("71034857a2226c213eac473a6391c7bf08457662dc051d4975cc24511e20fa03")
    );
    assert_eq!(chain.index, 0);
}

#[test]
fn chain_step_gives_the_expected_keys() {
    let start = ChainKey { bytes: [3u8; 32], index: 5 };
    let (next, keys) = derive_chain_step(&start);
    assert_eq!(
        next.bytes,
        key("cfbf8f5595e5f186a92161efb3ebb946d3aa706c2df70eed5152741bdb1e7bde")
    );
    assert_eq!(next.index, 6);
    assert_eq!(
        keys.cipher_key,
        key("8e582c09f44866a4741aae45a2d1f70b5556842f9b190d85b9299b7c071f9dd0")
    );
    assert_eq!(
        keys.mac_key,
        key("ce45d9803a4ec72c165269b4858285e35668d4583ec74d3aa73ee28f3c1386a0")
    );
    assert_eq!(keys.iv.to_vec(), unhex("36e39da61a8fb5ebee2310134c35e928"));
    assert_eq!(keys.index, 5);
}

#[test]
fn chain_step_at_the_last_counter() {
    let start = ChainKey { bytes: [3u8; 32], index: u32::MAX as u64 };
    let (next, keys) = derive_chain_step(&start);
    assert_eq!(keys.index, u32::MAX);
    assert_eq!(next.index, 1u64 << 32);
}

#[test]
fn steps_are_deterministic() {
    let mut seed: u32 = 0x1234_5678;
    for _ in 0..50 {
        let mut root = [0u8; 32];
        let mut dh = [0u8; 32];
        let mut chain = [0u8; 32];
        for i in 0..32 {
            seed = seed.wrapping_mul(1_664_525).wrapping_add(1_013_904_223);
            root[i] = (seed >> 24) as u8;
            seed = seed.wrapping_mul(1_664_525).wrapping_add(1_013_904_223);
            dh[i] = (seed >> 24) as u8;
            seed = seed.wrapping_mul(1_664_525).wrapping_add(1_013_904_223);
            chain[i] = (seed >> 24) as u8;
        }
        let first = derive_root_step(&RootKey { bytes: root }, &dh);
        let second = derive_root_step(&RootKey { bytes: root }, &dh);
        assert_eq!(first, second);
        let start = ChainKey { bytes: chain, index: (seed % 1000) as u64 };
        assert_eq!(derive_chain_step(&start), derive_chain_step(&start));
    }
}

#[test]
fn root_step_depends_on_both_inputs() {
    let base = derive_root_step(&RootKey { bytes: [1u8; 32] }, &[2u8; 32]);
    assert_ne!(base, derive_root_step(&RootKey { bytes: [9u8; 32] }, &[2u8; 32]));
    assert_ne!(base, derive_root_step(&RootKey { bytes: [1u8; 32] }, &[9u8; 32]));
    assert_ne!(base.0.bytes, [1u8; 32]);
    assert_ne!(base.1.bytes, [2u8; 32]);
}

#[test]
fn initial_step_of_three_agreements() {
    let agreements = vec![vec![0x11u8; 32], vec![0x22u8; 32], vec![0x33u8; 32]];
    let (root, chain) = derive_initial(&agreements);
    assert_eq!(
        root.bytes,
        key("96ae5816fb3ff4834109745d7cd389027d8f43cac284e9e41812447e9f60dcef")
    );
    assert_eq!(
        chain.bytes,
        key("5f55669b1c542f76d4e138f0a0b1c557a5ba631ed7996f105c8bcd525c3dacfa")
    );
    assert_eq!(chain.index, 0);
}

#[test]
fn initial_step_of_four_agreements() {
    let agreements =
        vec![vec![0x11u8; 32], vec![0x22u8; 32], vec![0x33u8; 32], vec![0x44u8; 32]];
    let (root, chain) = derive_initial(&agreements);
    assert_eq!(
        root.bytes,
        key("530a6ff3f55600caf87fbd9e78418ee499431a09526359d429ba47dc4310c5bd")
    );
    assert_eq!(
        chain.bytes,
        key("72007ae6c3afdf0fe36369dd6798d46cbf43e027e72399d053b8e07dd82d358c")
    );
}

#[test]
fn initial_step_takes_the_agreements_end_to_end() {
    let split = vec![vec![0x11u8; 32], vec![0x22u8; 32], vec![0x33u8; 32]];
    let mut joined = vec![0x11u8; 32];
    joined.extend_from_slice(&[0x22u8; 32]);
    joined.extend_from_slice(&[0x33u8; 32]);
    assert_eq!(derive_initial(&split), derive_initial(&vec![joined]));
}

#[test]
fn key_pair_has_the_public_half_of_its_private_half() {
    let alice = RatchetKeyPair::generate(&key(ALICE_PRIVATE));
    assert_eq!(alice.private_key(), key(ALICE_PRIVATE));
    assert_eq!(alice.public_key(), key(ALICE_PUBLIC));
    let bob = RatchetKeyPair::generate(&key(BOB_PRIVATE));
    assert_eq!(bob.public_key(), key(BOB_PUBLIC));
}

#[test]
fn both_sides_agree_on_the_shared_value() {
    let alice = RatchetKeyPair::generate(&key(ALICE_PRIVATE));
    let bob = RatchetKeyPair::generate(&key(BOB_PRIVATE));
    assert_eq!(alice.agree(&bob.public_key()), key(SHARED));
    assert_eq!(bob.agree(&alice.public_key()), key(SHARED));
}

#[test]
fn ratchet_step_gives_the_expected_keys() {
    let root =
        RootKey { bytes: key("96ae5816fb3ff4834109745d7cd389027d8f43cac284e9e41812447e9f60dcef") };
    let local = RatchetKeyPair::generate(&key(ALICE_PRIVATE));
    let out = ratchet_step(&root, &local, &key(BOB_PUBLIC), &[0x55u8; 32]);
    assert_eq!(
        out.root_key.bytes,
        key("38c232902a772a288719413dfd041307b3b33009c16490e1018712c7ec2ea44b")
    );
    assert_eq!(
        out.receiving_chain.bytes,
        key("9a9adcf2244780b4a63b859ba7786df283dc29c27c6a2f5525d955bb3152b776")
    );
    assert_eq!(out.receiving_chain.index, 0);
    assert_eq!(out.key_pair.private_key(), [0x55u8; 32]);
    assert_eq!(
        out.key_pair.public_key(),
        key("38ab664bd86f77d7e66bdd9ae0792913a94fd8b33a1260027e4b46c1f4884c67")
    );
    assert_eq!(
        out.sending_chain.bytes,
        key("b8688bc64faad0e3e906fcff124d2ffef3493825c2b9bcc6a1c3906cc21233b4")
    );
    assert_eq!(out.sending_chain.index, 0);
}

#[test]
fn ratchet_step_derives_the_receiving_chain_first() {
    let root = RootKey { bytes: [7u8; 32] };
    let local = RatchetKeyPair::generate(&key(ALICE_PRIVATE));
    let remote = key(BOB_PUBLIC);
    let fresh = [0x55u8; 32];
    let out = ratchet_step(&root, &local, &remote, &fresh);
    let (middle, receiving) = derive_root_step(&root, &local.agree(&remote));
    let next = RatchetKeyPair::generate(&fresh);
    let (last, sending) = derive_root_step(&middle, &next.agree(&remote));
    assert_eq!(out.receiving_chain, receiving);
    assert_eq!(out.sending_chain, sending);
    assert_eq!(out.root_key, last);
    assert_eq!(out.key_pair, next);
}

#[test]
fn an_erased_key_pair_holds_no_private_key() {
    let mut pair = RatchetKeyPair::generate(&key(ALICE_PRIVATE));
    pair.erase();
    assert_eq!(pair.private_key(), [0u8; 32]);
    assert_eq!(pair.public_key(), key(ALICE_PUBLIC));
}
