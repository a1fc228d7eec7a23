use session_ratchet::ratchet::{
    initialize_alice_session, initialize_bob_session, AliceSignalProtocolParameters,
    BobSignalProtocolParameters, MessageKeys,
};
use session_ratchet::state::{RatchetConfig, SessionError, SessionState};

fn unhex(text: &str) -> Vec<u8> {
    let digits: Vec<u8> = text.bytes().map(|c| (c as char).to_digit(16).unwrap() as u8).collect();
    digits.chunks(2).map(|pair| pair[0] * 16 + pair[1]).collect()
}

fn key(text: &str) -> [u8; 32] {
    let bytes = unhex(text);
    assert_eq!(bytes.len(), 32);
    let mut out = [0u8; 32];
    out.copy_from_slice(&bytes);
    out
}

fn keys(index: u32, cipher: &str, mac: &str, iv: &str) -> MessageKeys {
    let mut iv_bytes = [0u8; 16];
    iv_bytes.copy_from_slice(&unhex(iv));
    MessageKeys { cipher_key: key(cipher), mac_key: key(mac), iv: iv_bytes, index }
}

const ALICE_PRIVATE: &str = "77076d0a7318a57d3c16c17251b26645df4c2f87ebc0992ab177fba51db92c2a";
const ALICE_PUBLIC: &str = "8520f0098930a754748b7ddcb43ef75a0dbf3a0d26381af4eba4a98eaa9b4e6a";
const BOB_PRIVATE: &str = "5dab087e624a8a4b79e17f8b83800ee66f3bb1292618b6fd1c2f8b27ff88e0eb";
const BOB_PUBLIC: &str = "de9edb7d7b7dc1b4d35b61c2ece435373f8343c85b78674dadfc7e146f882b4f";
const FIRST_ROOT: &str = "96ae5816fb3ff4834109745d7cd389027d8f43cac284e9e41812447e9f60dcef";

const ALICE_ID: [u8; 32] = [0xa1; 32];
const BOB_ID: [u8; 32] = [0xb0; 32];
const BOB_PREKEY: [u8; 32] = [0xb7; 32];

fn bounds(max_receiving_chains: usize, max_skip: u32, max_skipped_keys: usize) -> RatchetConfig {
    RatchetConfig { max_receiving_chains, max_skip, max_skipped_keys }
}

fn agreements() -> Vec<Vec<u8>> {
    vec![vec![0x11u8; 32], vec![0x22u8; 32], vec![0x33u8; 32]]
}

fn alice_material() -> AliceSignalProtocolParameters {
    AliceSignalProtocolParameters {
        local_identity: ALICE_ID.to_vec(),
        remote_identity: BOB_ID.to_vec(),
        agreements: agreements(),
        peer_ratchet_key: BOB_PREKEY.to_vec(),
        ratchet_secret: unhex(ALICE_PRIVATE),
    }
}

fn bob_material() -> BobSignalProtocolParameters {
    BobSignalProtocolParameters {
        local_identity: BOB_ID.to_vec(),
        remote_identity: ALICE_ID.to_vec(),
        agreements: agreements(),
        peer_ratchet_key: unhex(ALICE_PUBLIC),
    }
}

fn alice(config: RatchetConfig) -> SessionState {
    let mut session = SessionState::new(config, ALICE_ID, BOB_ID);
    assert_eq!(initialize_alice_session(&mut session, &alice_material()), Ok(()));
    session
}

fn bob(config: RatchetConfig) -> SessionState {
    let mut session = SessionState::new(config, BOB_ID, ALICE_ID);
    assert_eq!(initialize_bob_session(&mut session, &bob_material()), Ok(()));
    session
}

fn send(session: &mut SessionState) -> MessageKeys {
    assert!(session.ready_to_send());
    session.advance_sending_chain()
}

fn first_chain_keys(index: u32) -> MessageKeys {
    match index {
        0 => keys(
            0,
            "293fb3038d24f2be015186a478edc2489e74d992cf321ed37044e96332b550f6",
            "d0c12d8ca04457d5d40f84108e49b869ef5d708a61dc97e4d4ab99e9af486f64",
            "9633a34f112dd288e3d1a336030b6b9d",
        ),
        1 => keys(
            1,
            "171c91e5f22ae198716c5ccb4cf291883a45a9e8d7375ce0c2f5535f0ab16833",
            "3bb063353f243e08fb180cc2f8ee855f538628a1df28198702c28fffedb4faa2",
            "b302b4dfa4574835d8a2dcefa9972f8b",
        ),
        2 => keys(
            2,
            "e57f487edf6c51e944bc154d91174a573576d0a4918b7293b69f34cdc5a0cf54",
            "08e73880407e1a705ded4c146da413b6da011603dd871cd7df4804cdfda382b4",
            "bbab7753a1357fae069f338e78482b5f",
        ),
        _ => keys(
            3,
            "81e35762e0b264b133e3c4bc5ab5e5d14f9d8b90e1f991626361ad97b2b4f568",
            "c3c0e5fefd6594d010d673eae66acd5911557b3a9f25ffd4b1049a3b13495fed",
            "05c041d9ee04a644457df3b82c06a9d8",
        ),
    }
}

#[test]
fn a_new_session_is_blank() {
    let session = SessionState::new(bounds(5, 2000, 2000), ALICE_ID, BOB_ID);
    assert!(!session.is_initialized());
    assert!(!session.has_sending_chain());
    assert!(!session.ready_to_send());
    assert_eq!(session.root_key(), None);
    assert_eq!(session.sending_ratchet_key(), None);
    assert_eq!(session.sending_index(), None);
    assert_eq!(session.peer_initial_ratchet_key(), None);
    assert_eq!(session.receiving_chain_count(), 0);
    assert_eq!(session.skipped_count(), 0);
    assert_eq!(session.retired_count(), 0);
    assert_eq!(session.previous_sending_length(), 0);
    assert_eq!(session.local_identity(), ALICE_ID);
    assert_eq!(session.remote_identity(), BOB_ID);
    assert_eq!(session.config(), bounds(5, 2000, 2000));
}

#[test]
fn a_blank_session_receives_nothing() {
    let mut session = SessionState::new(bounds(5, 2000, 2000), ALICE_ID, BOB_ID);
    let before = session.clone();
    assert_eq!(
        session.process_incoming(&key(BOB_PUBLIC), 0, &[0x55; 32]),
        Err(SessionError::StaleSession)
    );
    assert_eq!(session, before);
}

#[test]
fn initiator_starts_with_the_sending_chain() {
    let session = alice(bounds(5, 2000, 2000));
    assert!(session.is_initialized());
    assert!(session.has_sending_chain());
    assert!(session.ready_to_send());
    assert_eq!(session.root_key().unwrap().bytes, key(FIRST_ROOT));
    assert_eq!(session.sending_ratchet_key(), Some(key(ALICE_PUBLIC)));
    assert_eq!(session.sending_index(), Some(0));
    assert_eq!(session.receiving_chain_count(), 0);
    assert_eq!(session.peer_initial_ratchet_key(), Some(BOB_PREKEY));
    assert_eq!(session.expected_index(&BOB_PREKEY), None);
}

#[test]
fn responder_starts_with_the_receiving_chain() {
    let session = bob(bounds(5, 2000, 2000));
    assert!(session.is_initialized());
    assert!(!session.has_sending_chain());
    assert!(!session.ready_to_send());
    assert_eq!(session.root_key().unwrap().bytes, key(FIRST_ROOT));
    assert_eq!(session.sending_ratchet_key(), None);
    assert_eq!(session.receiving_chain_count(), 1);
    assert_eq!(session.expected_index(&key(ALICE_PUBLIC)), Some(0));
    assert_eq!(session.peer_initial_ratchet_key(), Some(key(ALICE_PUBLIC)));
}

#[test]
fn four_agreements_give_another_session() {
    let mut material = alice_material();
    material.agreements.push(vec![0x44u8; 32]);
    let mut session = SessionState::new(bounds(5, 2000, 2000), ALICE_ID, BOB_ID);
    assert_eq!(initialize_alice_session(&mut session, &material), Ok(()));
    assert_eq!(
        session.root_key().unwrap().bytes,
        key("530a6ff3f55600caf87fbd9e78418ee499431a09526359d429ba47dc4310c5bd")
    );
}

#[test]
fn wrong_lengths_are_refused() {
    let mut cases: Vec<AliceSignalProtocolParameters> = Vec::new();
    let mut m = alice_material();
    m.agreements.pop();
    cases.push(m);
    let mut m = alice_material();
    m.agreements.push(vec![0x44u8; 32]);
    m.agreements.push(vec![0x45u8; 32]);
    cases.push(m);
    let mut m = alice_material();
    m.agreements[1].pop();
    cases.push(m);
    let mut m = alice_material();
    m.agreements[2].push(0);
    cases.push(m);
    let mut m = alice_material();
    m.agreements = Vec::new();
    cases.push(m);
    let mut m = alice_material();
    m.local_identity.pop();
    cases.push(m);
    let mut m = alice_material();
    m.remote_identity.push(1);
    cases.push(m);
    let mut m = alice_material();
    m.peer_ratchet_key = Vec::new();
    cases.push(m);
    let mut m = alice_material();
    m.ratchet_secret.push(1);
    cases.push(m);
    for material in cases {
        let mut session = SessionState::new(bounds(5, 2000, 2000), ALICE_ID, BOB_ID);
        let before = session.clone();
        assert_eq!(
            initialize_alice_session(&mut session, &material),
            Err(SessionError::InvalidKeyLength)
        );
        assert_eq!(session, before);
    }
    let mut cases: Vec<BobSignalProtocolParameters> = Vec::new();
    let mut m = bob_material();
    m.agreements.truncate(2);
    cases.push(m);
    let mut m = bob_material();
    m.agreements[0] = vec![0x11u8; 31];
    cases.push(m);
    let mut m = bob_material();
    m.local_identity.push(0);
    cases.push(m);
    let mut m = bob_material();
    m.remote_identity.pop();
    cases.push(m);
    let mut m = bob_material();
    m.peer_ratchet_key.pop();
    cases.push(m);
    for material in cases {
        let mut session = SessionState::new(bounds(5, 2000, 2000), BOB_ID, ALICE_ID);
        let before = session.clone();
        assert_eq!(
            initialize_bob_session(&mut session, &material),
            Err(SessionError::InvalidKeyLength)
        );
        assert_eq!(session, before);
    }
}

#[test]
fn other_identities_are_refused() {
    let mut session = SessionState::new(bounds(5, 2000, 2000), ALICE_ID, BOB_ID);
    let before = session.clone();
    let mut material = alice_material();
    material.remote_identity = vec![0xcc; 32];
    assert_eq!(
        initialize_alice_session(&mut session, &material),
        Err(SessionError::IdentityMismatch)
    );
    let mut material = alice_material();
    material.local_identity = vec![0xcc; 32];
    assert_eq!(
        initialize_alice_session(&mut session, &material),
        Err(SessionError::IdentityMismatch)
    );
    assert_eq!(session, before);
    // the answering side's material names the identities the other way round
    assert_eq!(
        initialize_bob_session(&mut session, &bob_material()),
        Err(SessionError::IdentityMismatch)
    );
    assert_eq!(session, before);
}

#[test]
fn a_wrong_length_is_reported_before_a_wrong_identity() {
    let mut session = SessionState::new(bounds(5, 2000, 2000), ALICE_ID, BOB_ID);
    let mut material = alice_material();
    material.remote_identity = vec![0xcc; 32];
    material.agreements.pop();
    assert_eq!(
        initialize_alice_session(&mut session, &material),
        Err(SessionError::InvalidKeyLength)
    );
}

#[test]
fn refused_material_leaves_a_running_session_alone() {
    let mut session = alice(bounds(5, 2000, 2000));
    send(&mut session);
    let before = session.clone();
    let mut material = alice_material();
    material.ratchet_secret.pop();
    assert_eq!(
        initialize_alice_session(&mut session, &material),
        Err(SessionError::InvalidKeyLength)
    );
    assert_eq!(session, before);
}

#[test]
fn initializing_again_starts_over() {
    let mut session = alice(bounds(2, 2000, 2000));
    send(&mut session);
    send(&mut session);
    session.process_incoming(&[1; 32], 2, &[0x51; 32]).unwrap();
    session.process_incoming(&[2; 32], 0, &[0x52; 32]).unwrap();
    session.process_incoming(&[3; 32], 0, &[0x53; 32]).unwrap();
    assert!(session.retired_count() > 0);
    assert_eq!(initialize_alice_session(&mut session, &alice_material()), Ok(()));
    assert_eq!(session, alice(bounds(2, 2000, 2000)));
}

#[test]
fn sending_counts_up_from_zero() {
    let mut session = alice(bounds(5, 2000, 2000));
    let mut sent: Vec<MessageKeys> = Vec::new();
    for n in 0..20u32 {
        assert_eq!(session.sending_index(), Some(n as u64));
        let keys = send(&mut session);
        assert_eq!(keys.index, n);
        sent.push(keys);
    }
    for i in 0..sent.len() {
        for j in 0..i {
            assert_ne!(sent[i], sent[j]);
            assert_ne!(sent[i].cipher_key, sent[j].cipher_key);
        }
    }
    for i in 0..4 {
        assert_eq!(sent[i], first_chain_keys(i as u32));
    }
    assert_eq!(session.sending_ratchet_key(), Some(key(ALICE_PUBLIC)));
    assert_eq!(session.root_key().unwrap().bytes, key(FIRST_ROOT));
}

#[test]
fn in_order_delivery_gives_the_senders_keys() {
    let mut sender = alice(bounds(5, 2000, 2000));
    let mut receiver = bob(bounds(5, 2000, 2000));
    for n in 0..6u32 {
        let sent = send(&mut sender);
        let got = receiver.process_incoming(&key(ALICE_PUBLIC), n, &[0x60 + n as u8; 32]);
        assert_eq!(got, Ok(sent));
        assert_eq!(receiver.expected_index(&key(ALICE_PUBLIC)), Some(n as u64 + 1));
        assert_eq!(receiver.skipped_count(), 0);
    }
}

#[test]
fn out_of_order_delivery_gives_the_keys_of_delivery_in_order() {
    let mut sender = alice(bounds(5, 2000, 2000));
    let sent: Vec<MessageKeys> = (0..4).map(|_| send(&mut sender)).collect();
    let mut receiver = bob(bounds(5, 2000, 2000));
    let remote = key(ALICE_PUBLIC);
    assert_eq!(receiver.process_incoming(&remote, 2, &[0x61; 32]), Ok(sent[2]));
    assert_eq!(receiver.skipped_count(), 2);
    assert!(receiver.has_skipped(&remote, 0));
    assert!(receiver.has_skipped(&remote, 1));
    assert_eq!(receiver.process_incoming(&remote, 0, &[0x62; 32]), Ok(sent[0]));
    assert!(!receiver.has_skipped(&remote, 0));
    assert_eq!(receiver.process_incoming(&remote, 3, &[0x63; 32]), Ok(sent[3]));
    assert_eq!(receiver.process_incoming(&remote, 1, &[0x64; 32]), Ok(sent[1]));
    assert_eq!(receiver.skipped_count(), 0);
    assert_eq!(receiver.expected_index(&remote), Some(4));
    for i in 0..4 {
        assert_eq!(sent[i], first_chain_keys(i as u32));
    }
}

#[test]
fn every_order_of_four_messages_gives_the_same_keys() {
    let mut sender = alice(bounds(5, 2000, 2000));
    let sent: Vec<MessageKeys> = (0..4).map(|_| send(&mut sender)).collect();
    let remote = key(ALICE_PUBLIC);
    let mut orders = 0;
    for a in 0..4u32 {
        for b in 0..4u32 {
            for c in 0..4u32 {
                for d in 0..4u32 {
                    let order = [a, b, c, d];
                    let mut seen = [false; 4];
                    for i in order {
                        seen[i as usize] = true;
                    }
                    if seen != [true; 4] {
                        continue;
                    }
                    orders += 1;
                    let mut receiver = bob(bounds(5, 2000, 2000));
                    for i in order {
                        assert_eq!(
                            receiver.process_incoming(&remote, i, &[0x61; 32]),
                            Ok(sent[i as usize])
                        );
                    }
                    assert_eq!(receiver.skipped_count(), 0);
                    assert_eq!(receiver.expected_index(&remote), Some(4));
                }
            }
        }
    }
    assert_eq!(orders, 24);
}

#[test]
fn a_replayed_message_is_refused() {
    let mut sender = alice(bounds(5, 2000, 2000));
    let sent = send(&mut sender);
    let mut receiver = bob(bounds(5, 2000, 2000));
    let remote = key(ALICE_PUBLIC);
    assert_eq!(receiver.process_incoming(&remote, 0, &[0x61; 32]), Ok(sent));
    let before = receiver.clone();
    assert_eq!(
        receiver.process_incoming(&remote, 0, &[0x62; 32]),
        Err(SessionError::DuplicateMessage)
    );
    assert_eq!(receiver, before);
}

#[test]
fn a_replayed_skipped_message_is_refused() {
    let mut sender = alice(bounds(5, 2000, 2000));
    let sent: Vec<MessageKeys> = (0..3).map(|_| send(&mut sender)).collect();
    let mut receiver = bob(bounds(5, 2000, 2000));
    let remote = key(ALICE_PUBLIC);
    assert_eq!(receiver.process_incoming(&remote, 2, &[0x61; 32]), Ok(sent[2]));
    assert_eq!(receiver.process_incoming(&remote, 1, &[0x62; 32]), Ok(sent[1]));
    let before = receiver.clone();
    assert_eq!(
        receiver.process_incoming(&remote, 1, &[0x63; 32]),
        Err(SessionError::DuplicateMessage)
    );
    assert_eq!(
        receiver.process_incoming(&remote, 2, &[0x63; 32]),
        Err(SessionError::DuplicateMessage)
    );
    assert_eq!(receiver, before);
    assert_eq!(receiver.process_incoming(&remote, 0, &[0x64; 32]), Ok(sent[0]));
}

#[test]
fn the_skip_bound_is_enforced() {
    let mut sender = alice(bounds(5, 5, 2000));
    let sent: Vec<MessageKeys> = (0..12).map(|_| send(&mut sender)).collect();
    let mut receiver = bob(bounds(5, 5, 2000));
    let remote = key(ALICE_PUBLIC);
    let before = receiver.clone();
    assert_eq!(
        receiver.process_incoming(&remote, 6, &[0x61; 32]),
        Err(SessionError::TooManySkipped)
    );
    assert_eq!(receiver, before);
    assert_eq!(
        receiver.process_incoming(&remote, u32::MAX, &[0x61; 32]),
        Err(SessionError::TooManySkipped)
    );
    assert_eq!(receiver, before);
    // exactly the bound ahead is accepted
    assert_eq!(receiver.process_incoming(&remote, 5, &[0x61; 32]), Ok(sent[5]));
    assert_eq!(receiver.skipped_count(), 5);
    // the bound counts from the next expected message
    let before = receiver.clone();
    assert_eq!(
        receiver.process_incoming(&remote, 12, &[0x62; 32]),
        Err(SessionError::TooManySkipped)
    );
    assert_eq!(receiver, before);
    assert_eq!(receiver.process_incoming(&remote, 11, &[0x62; 32]), Ok(sent[11]));
}

#[test]
fn the_skip_bound_holds_for_a_new_ratchet_key() {
    let mut session = alice(bounds(5, 3, 2000));
    let before = session.clone();
    assert_eq!(
        session.process_incoming(&key(BOB_PUBLIC), 4, &[0x55; 32]),
        Err(SessionError::TooManySkipped)
    );
    assert_eq!(session, before);
    assert!(session.process_incoming(&key(BOB_PUBLIC), 3, &[0x55; 32]).is_ok());
    assert_eq!(session.skipped_count(), 3);
    assert_eq!(session.receiving_chain_count(), 1);
}

#[test]
fn a_skip_bound_of_zero_allows_delivery_in_order_only() {
    let mut sender = alice(bounds(5, 0, 2000));
    let sent: Vec<MessageKeys> = (0..2).map(|_| send(&mut sender)).collect();
    let mut receiver = bob(bounds(5, 0, 2000));
    let remote = key(ALICE_PUBLIC);
    assert_eq!(
        receiver.process_incoming(&remote, 1, &[0x61; 32]),
        Err(SessionError::TooManySkipped)
    );
    assert_eq!(receiver.process_incoming(&remote, 0, &[0x61; 32]), Ok(sent[0]));
    assert_eq!(receiver.process_incoming(&remote, 1, &[0x61; 32]), Ok(sent[1]));
}

#[test]
fn the_store_of_skipped_keys_lets_the_oldest_go() {
    let mut sender = alice(bounds(5, 2000, 3));
    let sent: Vec<MessageKeys> = (0..9).map(|_| send(&mut sender)).collect();
    let mut receiver = bob(bounds(5, 2000, 3));
    let remote = key(ALICE_PUBLIC);
    assert_eq!(receiver.process_incoming(&remote, 5, &[0x61; 32]), Ok(sent[5]));
    assert_eq!(receiver.skipped_count(), 3);
    assert!(!receiver.has_skipped(&remote, 0));
    assert!(!receiver.has_skipped(&remote, 1));
    assert!(receiver.has_skipped(&remote, 2));
    assert!(receiver.has_skipped(&remote, 3));
    assert!(receiver.has_skipped(&remote, 4));
    assert_eq!(
        receiver.process_incoming(&remote, 0, &[0x62; 32]),
        Err(SessionError::DuplicateMessage)
    );
    assert_eq!(receiver.process_incoming(&remote, 3, &[0x62; 32]), Ok(sent[3]));
    assert_eq!(receiver.skipped_count(), 2);
    // two more skipped keys push the oldest one out
    assert_eq!(receiver.process_incoming(&remote, 8, &[0x62; 32]), Ok(sent[8]));
    assert_eq!(receiver.skipped_count(), 3);
    assert!(!receiver.has_skipped(&remote, 2));
    assert!(receiver.has_skipped(&remote, 4));
    assert!(receiver.has_skipped(&remote, 6));
    assert!(receiver.has_skipped(&remote, 7));
}

#[test]
fn a_store_without_room_keeps_nothing() {
    let mut sender = alice(bounds(5, 2000, 0));
    let sent: Vec<MessageKeys> = (0..3).map(|_| send(&mut sender)).collect();
    let mut receiver = bob(bounds(5, 2000, 0));
    let remote = key(ALICE_PUBLIC);
    assert_eq!(receiver.process_incoming(&remote, 2, &[0x61; 32]), Ok(sent[2]));
    assert_eq!(receiver.skipped_count(), 0);
    assert_eq!(
        receiver.process_incoming(&remote, 1, &[0x61; 32]),
        Err(SessionError::DuplicateMessage)
    );
}

#[test]
fn the_first_message_opens_the_responders_sending_chain() {
    let mut receiver = bob(bounds(5, 2000, 2000));
    receiver.process_incoming(&key(ALICE_PUBLIC), 0, &key(BOB_PRIVATE)).unwrap();
    assert!(receiver.has_sending_chain());
    assert!(receiver.ready_to_send());
    assert_eq!(receiver.sending_ratchet_key(), Some(key(BOB_PUBLIC)));
    assert_eq!(receiver.sending_index(), Some(0));
    assert_eq!(
        receiver.root_key().unwrap().bytes,
        key("5c40e24735e9a8022264bed9e7b445690464429ac096bfe702a5acf620c603e4")
    );
    assert_eq!(
        send(&mut receiver),
        keys(
            0,
            "9b67ab46cdac49ddb8affd8b85f1e54bbcce39d79c8cebede21af17ebde6f22d",
            "a138aad13d047a02e02b2eab0a81bb2dd78caba0e342a2da5808d16614f27c24",
            "d678d6cc4d8d4992e61c3a5ac1aa0f2b",
        )
    );
    // a second message leaves the sending chain's key pair alone
    receiver.process_incoming(&key(ALICE_PUBLIC), 1, &[0x77; 32]).unwrap();
    assert_eq!(receiver.sending_ratchet_key(), Some(key(BOB_PUBLIC)));
    assert_eq!(receiver.sending_index(), Some(1));
}

#[test]
fn a_responder_without_a_sending_chain_cannot_step() {
    let mut receiver = bob(bounds(5, 2000, 2000));
    let before = receiver.clone();
    assert_eq!(
        receiver.process_incoming(&[0x99; 32], 0, &key(BOB_PRIVATE)),
        Err(SessionError::StaleSession)
    );
    assert_eq!(receiver, before);
}

#[test]
fn both_sides_agree_through_ratchet_steps() {
    let mut alice = alice(bounds(5, 2000, 2000));
    let mut bob = bob(bounds(5, 2000, 2000));
    // Alice sends two messages; the second arrives first
    let first = send(&mut alice);
    let second = send(&mut alice);
    let alice_key = alice.sending_ratchet_key().unwrap();
    assert_eq!(alice_key, key(ALICE_PUBLIC));
    assert_eq!(bob.process_incoming(&alice_key, 1, &key(BOB_PRIVATE)), Ok(second));
    assert_eq!(bob.process_incoming(&alice_key, 0, &[0x70; 32]), Ok(first));
    // Bob answers under a ratchet key of his own
    let reply = send(&mut bob);
    let bob_key = bob.sending_ratchet_key().unwrap();
    assert_eq!(bob_key, key(BOB_PUBLIC));
    assert_eq!(reply.index, 0);
    assert_eq!(alice.process_incoming(&bob_key, 0, &[0x55; 32]), Ok(reply));
    assert_eq!(
        reply,
        keys(
            0,
            "9b67ab46cdac49ddb8affd8b85f1e54bbcce39d79c8cebede21af17ebde6f22d",
            "a138aad13d047a02e02b2eab0a81bb2dd78caba0e342a2da5808d16614f27c24",
            "d678d6cc4d8d4992e61c3a5ac1aa0f2b",
        )
    );
    // the step gave Alice a new key pair and sending chain
    assert_eq!(alice.previous_sending_length(), 2);
    assert_eq!(alice.sending_index(), Some(0));
    let alice_key = alice.sending_ratchet_key().unwrap();
    assert_eq!(
        alice_key,
        key("38ab664bd86f77d7e66bdd9ae0792913a94fd8b33a1260027e4b46c1f4884c67")
    );
    assert_eq!(
        alice.root_key().unwrap().bytes,
        key("38c232902a772a288719413dfd041307b3b33009c16490e1018712c7ec2ea44b")
    );
    // Alice answers; Bob steps in turn and holds the root key Alice held
    let third = send(&mut alice);
    assert_eq!(
        third,
        keys(
            0,
            "82c988762ca43eef8fa1186362725ea93ea9f576ed0bff77078c040f9071097a",
            "0714d096ef1e4d0c3e7bf053b628124de47888269dabc698f467892f975e200d",
            "5411377054d9a85288f6719f3fdbee05",
        )
    );
    let alice_root = alice.root_key().unwrap();
    assert_eq!(bob.process_incoming(&alice_key, 0, &[0x66; 32]), Ok(third));
    assert_eq!(bob.previous_sending_length(), 1);
    assert_eq!(
        bob.sending_ratchet_key(),
        Some(key("219e4d800da968d2a5fcb009c784f4746c7138edb9ee4844b739e830b05cf424"))
    );
    assert_eq!(
        bob.root_key().unwrap().bytes,
        key("3db54f4145c17be7149d00a3dddfb40bf9931c7b42ba61a575ea0cbbabc8880c")
    );
    assert_ne!(bob.root_key().unwrap(), alice_root);
    // and back again, several times over
    let mut seed = 0x80u8;
    for round in 0..6u32 {
        let (from, to) = if round % 2 == 0 { (&mut bob, &mut alice) } else { (&mut alice, &mut bob) };
        let root_before = from.root_key().unwrap();
        let sent: Vec<MessageKeys> = (0..3).map(|_| send(from)).collect();
        let carried = from.sending_ratchet_key().unwrap();
        seed += 1;
        assert_eq!(to.process_incoming(&carried, 2, &[seed; 32]), Ok(sent[2]));
        assert_eq!(to.process_incoming(&carried, 0, &[seed; 32]), Ok(sent[0]));
        assert_eq!(to.process_incoming(&carried, 1, &[seed; 32]), Ok(sent[1]));
        assert_eq!(to.previous_sending_length(), if round == 0 { 1 } else { 3 });
        assert_eq!(from.root_key().unwrap(), root_before);
        assert_ne!(to.root_key().unwrap(), root_before);
    }
}

#[test]
fn a_late_message_of_an_older_chain_is_still_read() {
    let mut alice = alice(bounds(5, 2000, 2000));
    let mut bob = bob(bounds(5, 2000, 2000));
    let early: Vec<MessageKeys> = (0..3).map(|_| send(&mut alice)).collect();
    let old_key = alice.sending_ratchet_key().unwrap();
    assert_eq!(bob.process_incoming(&old_key, 0, &key(BOB_PRIVATE)), Ok(early[0]));
    assert_eq!(bob.process_incoming(&old_key, 2, &[0x71; 32]), Ok(early[2]));
    let reply = send(&mut bob);
    let bob_key = bob.sending_ratchet_key().unwrap();
    assert_eq!(alice.process_incoming(&bob_key, 0, &[0x55; 32]), Ok(reply));
    let late = send(&mut alice);
    let new_key = alice.sending_ratchet_key().unwrap();
    assert_eq!(bob.process_incoming(&new_key, 0, &[0x66; 32]), Ok(late));
    assert_eq!(bob.receiving_chain_count(), 2);
    let sending_key = bob.sending_ratchet_key();
    // the message that was passed over under the first key arrives now
    assert_eq!(bob.process_incoming(&old_key, 1, &[0x67; 32]), Ok(early[1]));
    assert_eq!(bob.sending_ratchet_key(), sending_key);
    assert_eq!(bob.receiving_chain_count(), 2);
}

#[test]
fn the_oldest_remote_key_is_given_up() {
    let mut session = alice(bounds(2, 2000, 2000));
    let first = [1u8; 32];
    let second = [2u8; 32];
    let third = [3u8; 32];
    session.process_incoming(&first, 2, &[0x51; 32]).unwrap();
    assert_eq!(session.skipped_count(), 2);
    session.process_incoming(&second, 1, &[0x52; 32]).unwrap();
    assert_eq!(session.receiving_chain_count(), 2);
    assert_eq!(session.skipped_count(), 3);
    assert_eq!(session.retired_count(), 0);
    assert!(!session.is_retired(&first));
    // a third key is one too many
    session.process_incoming(&third, 0, &[0x53; 32]).unwrap();
    assert_eq!(session.receiving_chain_count(), 2);
    assert_eq!(session.retired_count(), 1);
    assert!(session.is_retired(&first));
    assert_eq!(session.expected_index(&first), None);
    assert_eq!(session.expected_index(&second), Some(2));
    assert_eq!(session.expected_index(&third), Some(1));
    // the skipped keys under the first key went with it
    assert_eq!(session.skipped_count(), 1);
    assert!(!session.has_skipped(&first, 0));
    assert!(!session.has_skipped(&first, 1));
    assert!(session.has_skipped(&second, 0));
    let before = session.clone();
    for index in [0u32, 1, 2, 3, 100] {
        assert_eq!(
            session.process_incoming(&first, index, &[0x54; 32]),
            Err(SessionError::StaleSession)
        );
        assert_eq!(session, before);
    }
    // the others go on
    assert!(session.process_incoming(&second, 0, &[0x55; 32]).is_ok());
    assert!(session.process_incoming(&third, 1, &[0x56; 32]).is_ok());
    // and the next new key gives up the second
    session.process_incoming(&[4u8; 32], 0, &[0x57; 32]).unwrap();
    assert!(session.is_retired(&first));
    assert!(session.is_retired(&second));
    assert!(!session.is_retired(&third));
    assert_eq!(
        session.process_incoming(&second, 5, &[0x58; 32]),
        Err(SessionError::StaleSession)
    );
}

#[test]
fn one_receiving_chain_at_a_time() {
    let mut session = alice(bounds(1, 2000, 2000));
    session.process_incoming(&[1u8; 32], 1, &[0x51; 32]).unwrap();
    assert_eq!(session.skipped_count(), 1);
    session.process_incoming(&[2u8; 32], 0, &[0x52; 32]).unwrap();
    assert_eq!(session.receiving_chain_count(), 1);
    assert_eq!(session.skipped_count(), 0);
    assert_eq!(
        session.process_incoming(&[1u8; 32], 0, &[0x53; 32]),
        Err(SessionError::StaleSession)
    );
    assert_eq!(session.expected_index(&[2u8; 32]), Some(1));
}

#[test]
fn a_stale_key_is_reported_before_the_skip_bound() {
    let mut session = alice(bounds(1, 3, 2000));
    session.process_incoming(&[1u8; 32], 0, &[0x51; 32]).unwrap();
    session.process_incoming(&[2u8; 32], 0, &[0x52; 32]).unwrap();
    assert_eq!(
        session.process_incoming(&[1u8; 32], 1000, &[0x53; 32]),
        Err(SessionError::StaleSession)
    );
}

#[test]
fn a_ratchet_step_replaces_the_sending_chain() {
    let mut session = alice(bounds(5, 2000, 2000));
    for _ in 0..3 {
        send(&mut session);
    }
    let old_key = session.sending_ratchet_key().unwrap();
    let old_root = session.root_key().unwrap();
    session.process_incoming(&key(BOB_PUBLIC), 0, &[0x55; 32]).unwrap();
    assert_eq!(session.previous_sending_length(), 3);
    assert_eq!(session.sending_index(), Some(0));
    assert_ne!(session.sending_ratchet_key().unwrap(), old_key);
    assert_ne!(session.root_key().unwrap(), old_root);
    // a second message under the same key does not step again
    let key_now = session.sending_ratchet_key().unwrap();
    let root_now = session.root_key().unwrap();
    session.process_incoming(&key(BOB_PUBLIC), 1, &[0x56; 32]).unwrap();
    assert_eq!(session.sending_ratchet_key().unwrap(), key_now);
    assert_eq!(session.root_key().unwrap(), root_now);
    assert_eq!(session.previous_sending_length(), 3);
}
