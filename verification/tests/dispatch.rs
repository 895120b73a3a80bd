use remote_agent::cipher::do_enc;
use remote_agent::dispatch::{parse_inp, seal_listing, Action, LIST, READ_FILE, REKEY, SEPARATOR};
use remote_agent::frame::{parse_tlv, FRAME_LEN};
use remote_agent::keys::reset_key;

fn counting_key() -> Vec<u8> {
    let mut v: Vec<u8> = Vec::new();
    let mut i: u8 = 0;
    while i < 32 {
        v.push(i);
        i += 1;
    }
    v
}

fn short_frame(ty: u8, payload: &[u8]) -> Vec<u8> {
    let mut dat: Vec<u8> = payload.to_vec();
    dat.push(payload.len() as u8);
    dat.push(ty);
    while dat.len() < FRAME_LEN {
        dat.push(0xff);
    }
    dat
}

/// What a peer in step sends to ask for `path`: the path sealed as the head
/// of a zero-padded frame-sized buffer.
fn sealed_path(path: &[u8], peer_key: &mut [u8]) -> Vec<u8> {
    let mut buf: Vec<u8> = path.to_vec();
    buf.resize(FRAME_LEN, 0);
    do_enc(&mut buf, peer_key);
    buf.truncate(path.len());
    buf
}

const DIGEST_OF_ONES: [u8; 32] = [
    179, 209, 171, 171, 230, 189, 196, 138, 142, 43, 79, 215, 241, 250, 18, 154, 4, 87, 240, 242,
    129, 88, 46, 107, 85, 144, 25, 196, 205, 123, 110, 4,
];

const DIGEST_OF_HIGH_BITS: [u8; 32] = [
    141, 137, 171, 69, 141, 132, 20, 142, 198, 14, 137, 123, 118, 77, 237, 237, 204, 138, 221, 233,
    15, 102, 157, 116, 29, 197, 106, 112, 39, 255, 42, 110,
];

#[test]
fn command_types_and_separator() {
    assert_eq!(REKEY, 0x31);
    assert_eq!(LIST, 0x41);
    assert_eq!(READ_FILE, 0x42);
    assert_eq!(SEPARATOR, [0x81u8, 0x82, 0x83, 0x84]);
}

#[test]
fn rekey_frame_resets_the_key() {
    let mut payload: Vec<u8> = vec![0x80u8; 32];
    payload.extend_from_slice(&[0x0fu8; 32]);
    let dat: Vec<u8> = short_frame(REKEY, &payload);
    let mut key: Vec<u8> = counting_key();
    assert_eq!(parse_inp(&dat, &mut key), Action::Idle);
    assert_eq!(
        key,
        vec![
            141u8, 136, 169, 70, 137, 129, 18, 137, 206, 7, 131, 112, 122, 64, 227, 226, 204, 139,
            223, 234, 11, 99, 155, 115, 21, 204, 96, 123, 43, 242, 36, 97
        ]
    );
}

#[test]
fn rekey_frame_uses_only_the_first_64_payload_bytes() {
    let mut payload: Vec<u8> = vec![0x80u8; 32];
    payload.extend_from_slice(&[0x0fu8; 32]);
    payload.extend_from_slice(&[0xffu8; 20]);
    let dat: Vec<u8> = short_frame(REKEY, &payload);
    let mut key: Vec<u8> = counting_key();
    let mut expected: Vec<u8> = counting_key();
    reset_key(&[0x80u8; 32], &[0x0fu8; 32], &mut expected);
    assert_eq!(parse_inp(&dat, &mut key), Action::Idle);
    assert_eq!(key, expected);
}

#[test]
fn rekey_frame_under_64_bytes_is_dropped() {
    let dat: Vec<u8> = short_frame(REKEY, &[0x80u8; 63]);
    let mut key: Vec<u8> = counting_key();
    assert_eq!(parse_inp(&dat, &mut key), Action::Idle);
    assert_eq!(key, counting_key());
}

#[test]
fn rekey_material_that_holds_a_marker_is_not_a_rekey() {
    let mut payload: Vec<u8> = vec![0x01u8; 32];
    payload.extend_from_slice(&[0xffu8; 32]);
    let dat: Vec<u8> = short_frame(REKEY, &payload);
    assert_eq!(parse_tlv(&dat), Ok((1u8, 1usize, &[1u8][..])));
    let mut key: Vec<u8> = counting_key();
    assert_eq!(parse_inp(&dat, &mut key), Action::Idle);
    assert_eq!(key, counting_key());
}

#[test]
fn list_frame_asks_for_a_listing() {
    let dat: Vec<u8> = short_frame(LIST, &[]);
    let mut key: Vec<u8> = counting_key();
    assert_eq!(parse_inp(&dat, &mut key), Action::List);
    assert_eq!(key, counting_key());
}

#[test]
fn long_form_list_frame() {
    let mut dat: Vec<u8> = vec![0xffu8; FRAME_LEN];
    dat[5] = 5;
    dat[6] = 0x23;
    dat[71] = 0;
    dat[72] = 0x41;
    let mut key: Vec<u8> = counting_key();
    assert_eq!(parse_inp(&dat, &mut key), Action::List);
    assert_eq!(key, counting_key());
}

#[test]
fn unknown_type_is_dropped() {
    let dat: Vec<u8> = short_frame(0x99, &[0xaa, 0xbb]);
    let mut key: Vec<u8> = counting_key();
    assert_eq!(parse_inp(&dat, &mut key), Action::Idle);
    assert_eq!(key, counting_key());
}

#[test]
fn frame_without_record_is_dropped() {
    let dat: Vec<u8> = vec![0xffu8; FRAME_LEN];
    let mut key: Vec<u8> = counting_key();
    assert_eq!(parse_inp(&dat, &mut key), Action::Idle);
    assert_eq!(key, counting_key());
}

#[test]
fn read_frame_opens_the_path() {
    let dat: Vec<u8> = short_frame(READ_FILE, &[211, 6, 87, 127, 193, 73, 122, 36, 39]);
    let mut key: Vec<u8> = counting_key();
    assert_eq!(parse_inp(&dat, &mut key), Action::Read(String::from("notes.txt")));
    assert_eq!(
        key,
        vec![
            230u8, 71, 106, 143, 40, 41, 83, 145, 180, 164, 14, 97, 68, 43, 188, 4, 144, 226, 32,
            233, 127, 171, 111, 82, 3, 175, 181, 246, 172, 118, 14, 26
        ]
    );
}

#[test]
fn read_frame_with_empty_path() {
    let dat: Vec<u8> = short_frame(READ_FILE, &[]);
    let mut key: Vec<u8> = counting_key();
    assert_eq!(parse_inp(&dat, &mut key), Action::Read(String::new()));
    assert_ne!(key, counting_key());
}

#[test]
fn read_frame_whose_path_is_not_text_stops_the_host() {
    let dat: Vec<u8> = short_frame(READ_FILE, &[66, 151]);
    let mut key: Vec<u8> = counting_key();
    assert_eq!(parse_inp(&dat, &mut key), Action::Abort);
    assert_eq!(
        key,
        vec![
            230u8, 71, 106, 143, 40, 41, 83, 145, 180, 164, 14, 97, 68, 43, 188, 4, 144, 226, 32,
            233, 127, 171, 111, 82, 3, 175, 181, 246, 172, 118, 14, 26
        ]
    );
}

#[test]
fn listing_is_joined_and_sealed() {
    let entries: Vec<Vec<u8>> = vec![b"./a".to_vec(), b"./bc".to_vec()];
    let mut key: Vec<u8> = counting_key();
    let out: Vec<u8> = seal_listing(&entries, &mut key);
    assert_eq!(
        out,
        vec![147u8, 70, 66, 155, 48, 228, 138, 114, 124, 49, 77, 47, 207, 126, 179]
    );
    assert_eq!(
        key,
        vec![
            29u8, 52, 212, 152, 37, 44, 78, 164, 156, 54, 144, 143, 138, 245, 24, 22, 1, 192, 234,
            49, 64, 38, 199, 52, 4, 229, 45, 59, 248, 53, 90, 11
        ]
    );
    let mut peer: Vec<u8> = counting_key();
    let mut opened: Vec<u8> = out.clone();
    do_enc(&mut opened, &mut peer);
    assert_eq!(
        opened,
        vec![46u8, 47, 97, 129, 130, 131, 132, 46, 47, 98, 99, 129, 130, 131, 132]
    );
    assert_eq!(peer, key);
}

#[test]
fn empty_listing_is_empty_but_moves_the_key() {
    let entries: Vec<Vec<u8>> = Vec::new();
    let mut key: Vec<u8> = counting_key();
    let out: Vec<u8> = seal_listing(&entries, &mut key);
    assert!(out.is_empty());
    assert_ne!(key, counting_key());
}

#[test]
fn listing_under_a_short_key_goes_out_plain() {
    let entries: Vec<Vec<u8>> = vec![b"x".to_vec()];
    let mut key: Vec<u8> = vec![1u8; 8];
    let out: Vec<u8> = seal_listing(&entries, &mut key);
    assert_eq!(out, vec![b'x', 0x81, 0x82, 0x83, 0x84]);
    assert_eq!(key, vec![1u8; 8]);
}

#[test]
fn rekey_then_read_end_to_end() {
    // Both sides start from the same key.
    let mut agent: Vec<u8> = vec![0u8; 32];
    let mut peer: Vec<u8> = vec![0u8; 32];

    // Rekey: a full mask on a zero key leaves exactly the digest.
    let mut payload: Vec<u8> = vec![0x80u8; 32];
    payload.extend_from_slice(&[0xffu8; 32]);
    let dat: Vec<u8> = short_frame(REKEY, &payload);
    assert_eq!(parse_inp(&dat, &mut agent), Action::Idle);
    assert_eq!(agent, DIGEST_OF_HIGH_BITS.to_vec());
    reset_key(&[0x80u8; 32], &[0xffu8; 32], &mut peer);
    assert_eq!(peer, agent);

    // File request: the agent opens the path that the peer sealed.
    let ct: Vec<u8> = sealed_path(b"notes.txt", &mut peer);
    assert_eq!(ct, vec![63u8, 123, 53, 193, 83, 236, 30, 94, 99]);
    let dat: Vec<u8> = short_frame(READ_FILE, &ct);
    let act: Action = parse_inp(&dat, &mut agent);
    assert_eq!(act, Action::Read(String::from("notes.txt")));
    assert_eq!(agent, peer);

    // The host reads the file; the agent seals it; the peer opens it.
    let contents: Vec<u8> = b"the quick brown fox\n".to_vec();
    let mut response: Vec<u8> = contents.clone();
    do_enc(&mut response, &mut agent);
    assert_ne!(response, contents);
    do_enc(&mut response, &mut peer);
    assert_eq!(response, contents);
    assert_eq!(agent, peer);
}

#[test]
fn reset_with_ones_and_full_mask_on_zero_key() {
    let mut key: Vec<u8> = vec![0u8; 32];
    reset_key(&[0x01u8; 32], &[0xffu8; 32], &mut key);
    assert_eq!(key, DIGEST_OF_ONES.to_vec());
}

#[test]
fn response_bytes_after_a_read() {
    let mut key: Vec<u8> = counting_key();
    let dat: Vec<u8> = short_frame(READ_FILE, &[211, 6, 87, 127, 193, 73, 122, 36, 39]);
    assert_eq!(parse_inp(&dat, &mut key), Action::Read(String::from("notes.txt")));
    let mut response: Vec<u8> = b"the quick brown fox\n".to_vec();
    do_enc(&mut response, &mut key);
    assert_eq!(
        response,
        vec![
            158u8, 164, 52, 94, 13, 162, 88, 238, 59, 46, 156, 155, 75, 65, 21, 50, 15, 38, 204,
            213
        ]
    );
    assert_eq!(
        key,
        vec![
            218u8, 81, 119, 174, 95, 64, 3, 144, 174, 206, 64, 167, 190, 224, 187, 9, 218, 43, 193,
            68, 133, 34, 124, 113, 151, 127, 68, 185, 20, 52, 181, 25
        ]
    );
}
