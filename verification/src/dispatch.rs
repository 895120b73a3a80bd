//! Command dispatch: what a frame does to the key, and what it asks of the
//! host.
//!
//! The host reads frames and touches the file system; this module decides.
//! For each frame it updates the key and names the host's next step, and it
//! seals what the host then sends back.

use vstd::prelude::*;
use vstd::slice::slice_subrange;
use vstd::utf8::{encode_utf8, valid_utf8};
use crate::cipher::{do_enc, ratcheted, sealed, KEY_LEN};
use crate::frame::{decoded, parse_tlv, FRAME_LEN};
use crate::keys::{rekeyed, reset_key};

verus! {

/// The type of a frame that rekeys.
pub const REKEY: u8 = 0x31;

/// The type of a frame that asks for a listing.
pub const LIST: u8 = 0x41;

/// The type of a frame that asks for a file.
pub const READ_FILE: u8 = 0x42;

/// Payload bytes that a rekeying frame must carry.
pub const REKEY_LEN: usize = 64;

/// The bytes that close each entry of a listing.
pub const SEPARATOR: [u8; 4] = [0x81, 0x82, 0x83, 0x84];

/// What the host does after a frame.
#[derive(Debug, PartialEq, Eq)]
pub enum Action {
    /// Nothing: the frame was dropped, or it only changed the key.
    Idle,
    /// List the working directory and send the sealed listing.
    List,
    /// Read the file at this path and send its sealed contents.
    Read(String),
    /// Stop: the path that the frame carried is not text.
    Abort,
}

/// The key after a frame. A rekeying frame with 64 payload bytes or more
/// rekeys from its first and second 32; a file request moves the key on by a
/// whole frame's worth of keystream; nothing else touches the key.
pub open spec fn key_after(dat: Seq<u8>, key: Seq<u8>) -> Seq<u8> {
    match decoded(dat) {
        Some((t, l, v)) => if t == REKEY && l >= REKEY_LEN {
            rekeyed(key, v.subrange(0, 32), v.subrange(32, 64))
        } else if t == READ_FILE {
            ratcheted(key, FRAME_LEN as nat)
        } else {
            key
        },
        None => key,
    }
}

/// The bytes of the path that a file request carries: its payload, opened
/// under the key.
pub open spec fn path_bytes(dat: Seq<u8>, key: Seq<u8>) -> Seq<u8>
    recommends
        decoded(dat) is Some,
{
    sealed(decoded(dat)->Some_0.2, key)
}

/// A frame asks for a listing.
pub open spec fn asks_listing(dat: Seq<u8>) -> bool {
    decoded(dat) matches Some((t, l, v)) && t == LIST
}

/// A frame asks for a file.
pub open spec fn asks_file(dat: Seq<u8>) -> bool {
    decoded(dat) matches Some((t, l, v)) && t == READ_FILE
}

/// The listing as it is sent before sealing: each entry followed by the
/// separator, in the order given.
pub open spec fn listing(entries: Seq<Seq<u8>>) -> Seq<u8>
    decreases entries.len(),
{
    if entries.len() == 0 {
        Seq::empty()
    } else {
        listing(entries.drop_last()) + entries.last() + SEPARATOR@
    }
}

/// `String::from_utf8` of std: the text that `bytes` spell. Claimed of it, as
/// documented: it succeeds exactly on valid UTF-8, and the text it gives has
/// `bytes` as its encoding.
#[verifier::external_body]
fn text_of(bytes: Vec<u8>) -> (r: Option<String>)
    ensures
        r is Some <==> valid_utf8(bytes@),
        r matches Some(s) ==> encode_utf8(s@) == bytes@,
{
    String::from_utf8(bytes).ok()
}

/// Takes one frame: updates the key and says what the host does next.
///
/// A buffer without a record, or with a type that is none of the three
/// commands, is dropped: the key stays and the host does nothing. A rekeying
/// frame under 64 payload bytes is dropped too. A file request opens the
/// payload under the key; where that is not text, the host is told to stop.
pub fn parse_inp(dat: &[u8], key: &mut [u8]) -> (act: Action)
    requires
        dat@.len() == FRAME_LEN,
        old(key)@.len() >= KEY_LEN,
    ensures
        final(key)@ == key_after(dat@, old(key)@),
        act == Action::List <==> asks_listing(dat@),
        act == Action::Abort <==> asks_file(dat@) && !valid_utf8(path_bytes(dat@, old(key)@)),
        act is Read <==> asks_file(dat@) && valid_utf8(path_bytes(dat@, old(key)@)),
        act matches Action::Read(s) ==> encode_utf8(s@) == path_bytes(dat@, old(key)@),
{
    match parse_tlv(dat) {
        Ok((t, l, v)) => {
            if t == REKEY {
                if l < REKEY_LEN {
                    return Action::Idle;
                }
                reset_key(slice_subrange(v, 0, 32), slice_subrange(v, 32, 64), key);
                Action::Idle
            } else if t == LIST {
                Action::List
            } else if t == READ_FILE {
                let mut fname = [0u8;257];
                let mut i: usize = 0;
                while i < v.len()
                    invariant
                        i <= v.len() <= FRAME_LEN,
                        fname@.len() == FRAME_LEN,
                        forall|j: int| 0 <= j < i ==> fname@[j] == v@[j],
                    decreases v.len() - i,
                {
                    fname[i] = v[i];
                    i += 1;
                }
                let ghost padded = fname@;
                do_enc(&mut fname, key);
                let mut path: Vec<u8> = Vec::new();
                let mut i: usize = 0;
                while i < v.len()
                    invariant
                        i <= v.len() <= FRAME_LEN,
                        fname@.len() == FRAME_LEN,
                        path@ == fname@.subrange(0, i as int),
                    decreases v.len() - i,
                {
                    path.push(fname[i]);
                    i += 1;
                    assert(path@ =~= fname@.subrange(0, i as int));
                }
                assert(path@ =~= sealed(v@, old(key)@));
                match text_of(path) {
                    Some(s) => Action::Read(s),
                    None => Action::Abort,
                }
            } else {
                Action::Idle
            }
        },
        Err(_) => Action::Idle,
    }
}

/// Builds the listing of `entries` and seals it under `key`, which moves on.
///
/// With a key under 32 bytes the listing goes out as it is and the key stays.
pub fn seal_listing(entries: &Vec<Vec<u8>>, key: &mut [u8]) -> (out: Vec<u8>)
    ensures
        old(key)@.len() < KEY_LEN ==> out@ == listing(entries.deep_view()) && final(key)@ == old(
            key,
        )@,
        old(key)@.len() >= KEY_LEN ==> out@ == sealed(listing(entries.deep_view()), old(key)@)
            && final(key)@ == ratcheted(old(key)@, listing(entries.deep_view()).len()),
{
    let sep = SEPARATOR;
    let mut ct: Vec<u8> = Vec::new();
    let mut n: usize = 0;
    while n < entries.len()
        invariant
            n <= entries.len(),
            sep == SEPARATOR,
            ct@ == listing(entries.deep_view().subrange(0, n as int)),
        decreases entries.len() - n,
    {
        let entry = &entries[n];
        let ghost base = ct@;
        let mut i: usize = 0;
        while i < entry.len()
            invariant
                i <= entry.len(),
                ct@ == base + entry@.subrange(0, i as int),
            decreases entry.len() - i,
        {
            ct.push(entry[i]);
            i += 1;
            assert(ct@ =~= base + entry@.subrange(0, i as int));
        }
        let mut i: usize = 0;
        while i < 4
            invariant
                i <= 4,
                sep == SEPARATOR,
                ct@ == base + entry@ + SEPARATOR@.subrange(0, i as int),
            decreases 4 - i,
        {
            ct.push(sep[i]);
            i += 1;
            assert(ct@ =~= base + entry@ + SEPARATOR@.subrange(0, i as int));
        }
        n += 1;
        proof {
            let all = entries.deep_view();
            let upto = all.subrange(0, n as int);
            assert(upto.drop_last() =~= all.subrange(0, n - 1));
            assert(upto.last() == entry@);
            assert(SEPARATOR@.subrange(0, 4) =~= SEPARATOR@);
        }
    }
    proof {
        assert(entries.deep_view().subrange(0, n as int) =~= entries.deep_view());
    }
    do_enc(ct.as_mut_slice(), key);
    ct
}

} // verus!
