//! Framing of messages for a byte stream.
//!
//! A frame is a length of four bytes, most significant byte first, followed by
//! that many bytes of payload. Text travels as its UTF-8 bytes, a digest as its
//! 32 bytes, several digests as one frame each, and the request for a single
//! index as eight bytes, most significant first.

use crate::error::ProtocolError;
use crate::hasher::digest_seqs;
use vstd::prelude::*;
use vstd::utf8::{decode_utf8, encode_utf8, encode_utf8_decode_utf8, valid_utf8};

verus! {

/// The number that `bytes` spell, most significant byte first.
pub open spec fn be_value(bytes: Seq<u8>) -> nat
    decreases bytes.len(),
{
    if bytes.len() == 0 {
        0
    } else {
        be_value(bytes.drop_last()) * 256 + bytes.last() as nat
    }
}

/// The `width` low-order bytes of `value`, most significant byte first.
pub open spec fn be_bytes(value: nat, width: nat) -> Seq<u8>
    decreases width,
{
    if width == 0 {
        Seq::<u8>::empty()
    } else {
        be_bytes(value / 256, (width - 1) as nat).push((value % 256) as u8)
    }
}

/// The first number that `width` bytes cannot spell: 256 to the power `width`.
pub open spec fn width_limit(width: nat) -> nat
    decreases width,
{
    if width == 0 {
        1
    } else {
        256 * width_limit((width - 1) as nat)
    }
}

/// The frame that carries `payload`.
pub open spec fn frame_of(payload: Seq<u8>) -> Seq<u8> {
    be_bytes(payload.len(), 4) + payload
}

/// The frame that starts at `start` in `buffer`: its payload and the position
/// behind it. There is none where the buffer ends before the length does, or
/// before the payload that the length declares.
pub open spec fn frame_at(buffer: Seq<u8>, start: int) -> Option<(Seq<u8>, int)> {
    if 0 <= start && start + 4 <= buffer.len() {
        let declared = be_value(buffer.subrange(start, start + 4));
        if start + 4 + declared <= buffer.len() {
            Some((buffer.subrange(start + 4, start + 4 + declared), start + 4 + declared))
        } else {
            None
        }
    } else {
        None
    }
}

/// The frames of a list of digests, one frame for each, in order.
pub open spec fn digest_frames(digests: Seq<Seq<u8>>) -> Seq<u8>
    decreases digests.len(),
{
    if digests.len() == 0 {
        Seq::<u8>::empty()
    } else {
        digest_frames(digests.drop_last()) + frame_of(digests.last())
    }
}

/// The `count` digests whose frames follow one another from `start` in
/// `buffer`, and the position behind the last. There are none where one of
/// the frames is cut short or does not hold exactly 32 bytes.
pub open spec fn digests_at(buffer: Seq<u8>, start: int, count: nat) -> Option<(Seq<Seq<u8>>, int)>
    decreases count,
{
    if count == 0 {
        Some((Seq::<Seq<u8>>::empty(), start))
    } else {
        match digests_at(buffer, start, (count - 1) as nat) {
            Some((digests, position)) => match frame_at(buffer, position) {
                Some((payload, next)) => if payload.len() == 32 {
                    Some((digests.push(payload), next))
                } else {
                    None
                },
                None => None,
            },
            None => None,
        }
    }
}

/// `be_bytes` has the width asked for.
pub proof fn lemma_be_bytes_len(value: nat, width: nat)
    ensures
        be_bytes(value, width).len() == width,
    decreases width,
{
    if width > 0 {
        lemma_be_bytes_len(value / 256, (width - 1) as nat);
    }
}

/// Bytes spell a number below the limit of their width.
pub proof fn lemma_be_value_bound(bytes: Seq<u8>)
    ensures
        be_value(bytes) < width_limit(bytes.len()),
    decreases bytes.len(),
{
    if bytes.len() > 0 {
        lemma_be_value_bound(bytes.drop_last());
    }
}

/// Reading what was written gives the number back, where it fits the width.
pub proof fn lemma_be_value_of_be_bytes(value: nat, width: nat)
    requires
        value < width_limit(width),
    ensures
        be_value(be_bytes(value, width)) == value,
    decreases width,
{
    if width > 0 {
        let front = be_bytes(value / 256, (width - 1) as nat);
        lemma_be_value_of_be_bytes(value / 256, (width - 1) as nat);
        assert(be_bytes(value, width).drop_last() =~= front);
    }
}

/// Writing what was read gives the bytes back.
pub proof fn lemma_be_bytes_of_be_value(bytes: Seq<u8>)
    ensures
        be_bytes(be_value(bytes), bytes.len()) == bytes,
    decreases bytes.len(),
{
    if bytes.len() > 0 {
        let front = bytes.drop_last();
        lemma_be_bytes_of_be_value(front);
        assert((be_value(front) * 256 + bytes.last() as nat) / 256 == be_value(front));
        assert((be_value(front) * 256 + bytes.last() as nat) % 256 == bytes.last() as nat);
        assert(front.push(bytes.last()) =~= bytes);
    }
}

/// Framing round trip: a frame, whatever stands before and behind it in the
/// buffer, is read back as its payload, and the reader stops right behind it.
pub proof fn lemma_frame_round_trip(before: Seq<u8>, payload: Seq<u8>, behind: Seq<u8>)
    requires
        payload.len() < width_limit(4),
    ensures
        frame_at(before + frame_of(payload) + behind, before.len() as int) == Some(
            (payload, (before.len() + 4 + payload.len()) as int),
        ),
{
    let buffer = before + frame_of(payload) + behind;
    let start = before.len() as int;
    lemma_be_bytes_len(payload.len(), 4);
    lemma_be_value_of_be_bytes(payload.len(), 4);
    assert(buffer.subrange(start, start + 4) =~= be_bytes(payload.len(), 4));
}

/// The frames of digests take 36 bytes each.
pub proof fn lemma_digest_frames_len(digests: Seq<Seq<u8>>)
    requires
        forall|i: int| 0 <= i < digests.len() ==> (#[trigger] digests[i]).len() == 32,
    ensures
        digest_frames(digests).len() == 36 * digests.len(),
    decreases digests.len(),
{
    if digests.len() > 0 {
        lemma_digest_frames_len(digests.drop_last());
        lemma_be_bytes_len(32, 4);
    }
}

/// Leaf round trip: the frames of a list of digests, whatever follows them,
/// are read back as those digests.
pub proof fn lemma_digest_frames_round_trip(digests: Seq<Seq<u8>>, behind: Seq<u8>)
    requires
        forall|i: int| 0 <= i < digests.len() ==> (#[trigger] digests[i]).len() == 32,
    ensures
        digests_at(digest_frames(digests) + behind, 0, digests.len()) == Some(
            (digests, (36 * digests.len()) as int),
        ),
    decreases digests.len(),
{
    if digests.len() > 0 {
        let front = digests.drop_last();
        let last = digests.last();
        let buffer = digest_frames(digests) + behind;
        lemma_digest_frames_round_trip(front, frame_of(last) + behind);
        lemma_digest_frames_len(front);
        assert(digest_frames(front) + (frame_of(last) + behind) =~= buffer);
        reveal_with_fuel(width_limit, 5);
        lemma_frame_round_trip(digest_frames(front), last, behind);
    }
}

/// Where fewer digests cannot be read, more cannot either.
proof fn lemma_digests_at_fails_on(buffer: Seq<u8>, start: int, fewer: nat, count: nat)
    requires
        fewer <= count,
        digests_at(buffer, start, fewer) is None,
    ensures
        digests_at(buffer, start, count) is None,
    decreases count,
{
    if fewer < count {
        lemma_digests_at_fails_on(buffer, start, fewer, (count - 1) as nat);
    }
}

/// Writes `value` into `width` bytes, most significant first.
fn write_be(value: u64, width: usize) -> (bytes: Vec<u8>)
    ensures
        bytes@ == be_bytes(value as nat, width as nat),
{
    let mut bytes: Vec<u8> = Vec::new();
    let mut filled: usize = 0;
    while filled < width
        invariant
            filled <= width,
            bytes@.len() == filled,
        decreases width - filled,
    {
        bytes.push(0u8);
        filled = filled + 1;
    }
    let mut rest: u64 = value;
    let mut k: usize = width;
    proof {
        assert(be_bytes(rest as nat, k as nat) + bytes@.skip(k as int) =~= be_bytes(
            value as nat,
            width as nat,
        ));
    }
    while k > 0
        invariant
            k <= width,
            bytes@.len() == width,
            be_bytes(rest as nat, k as nat) + bytes@.skip(k as int) == be_bytes(
                value as nat,
                width as nat,
            ),
        decreases k,
    {
        let low: u8 = (rest % 256) as u8;
        bytes.set(k - 1, low);
        rest = rest / 256;
        k = k - 1;
    }
    proof {
        assert(be_bytes(rest as nat, 0) + bytes@.skip(0) =~= bytes@);
    }
    bytes
}

/// Reads the number that at most eight bytes spell.
fn read_be(bytes: &[u8]) -> (value: u64)
    requires
        bytes@.len() <= 8,
    ensures
        value == be_value(bytes@),
{
    let mut value: u64 = 0;
    let mut i: usize = 0;
    while i < bytes.len()
        invariant
            i <= bytes@.len() <= 8,
            value == be_value(bytes@.take(i as int)),
        decreases bytes@.len() - i,
    {
        proof {
            lemma_be_value_bound(bytes@.take(i as int));
            reveal_with_fuel(width_limit, 9);
            assert(bytes@.take(i + 1).drop_last() =~= bytes@.take(i as int));
        }
        value = value * 256 + bytes[i] as u64;
        i = i + 1;
    }
    proof {
        assert(bytes@.take(i as int) =~= bytes@);
    }
    value
}

/// The four bytes that announce a payload of `length` bytes.
pub fn encode_length(length: u32) -> (header: [u8; 4])
    ensures
        header@ == be_bytes(length as nat, 4),
{
    let bytes = write_be(length as u64, 4);
    proof {
        lemma_be_bytes_len(length as nat, 4);
    }
    let header: [u8; 4] = [bytes[0], bytes[1], bytes[2], bytes[3]];
    assert(header@ =~= bytes@);
    header
}

/// The payload length that a header announces.
pub fn decode_length(header: &[u8; 4]) -> (length: u32)
    ensures
        length == be_value(header@),
{
    proof {
        lemma_be_value_bound(header@);
        reveal_with_fuel(width_limit, 5);
    }
    read_be(header.as_slice()) as u32
}

/// Puts `payload` into a frame. Fails with `FramingError` exactly when the payload
/// is too long for four bytes to announce.
pub fn encode_frame(payload: &[u8]) -> (framed: Result<Vec<u8>, ProtocolError>)
    ensures
        framed is Ok <==> payload@.len() <= u32::MAX,
        framed is Ok ==> framed->Ok_0@ == frame_of(payload@),
        framed is Err ==> framed->Err_0 == ProtocolError::FramingError,
{
    if payload.len() > 0xffff_ffff {
        return Err(ProtocolError::FramingError);
    }
    let mut frame = write_be(payload.len() as u64, 4);
    let ghost header = frame@;
    let mut i: usize = 0;
    while i < payload.len()
        invariant
            i <= payload@.len(),
            frame@ == header + payload@.take(i as int),
        decreases payload@.len() - i,
    {
        frame.push(payload[i]);
        i = i + 1;
    }
    Ok(frame)
}

/// Reads the frame that starts at `start` in `buffer`: its payload, and the
/// position of the byte behind the frame. Fails with `FramingError` exactly when
/// the buffer does not hold a whole frame there.
pub fn decode_frame(buffer: &[u8], start: usize) -> (decoded: Result<
    (Vec<u8>, usize),
    ProtocolError,
>)
    ensures
        decoded is Ok <==> frame_at(buffer@, start as int) is Some,
        decoded is Ok ==> frame_at(buffer@, start as int) == Some(
            (decoded->Ok_0.0@, decoded->Ok_0.1 as int),
        ),
        decoded is Err ==> decoded->Err_0 == ProtocolError::FramingError,
{
    if buffer.len() < 4 || start > buffer.len() - 4 {
        return Err(ProtocolError::FramingError);
    }
    let header: [u8; 4] = [buffer[start], buffer[start + 1], buffer[start + 2], buffer[start + 3]];
    assert(header@ =~= buffer@.subrange(start as int, start + 4));
    let declared = decode_length(&header) as usize;
    let body = start + 4;
    if declared > buffer.len() - body {
        return Err(ProtocolError::FramingError);
    }
    let end = body + declared;
    let mut payload: Vec<u8> = Vec::new();
    let mut i: usize = body;
    while i < end
        invariant
            body <= i <= end <= buffer@.len(),
            payload@ == buffer@.subrange(body as int, i as int),
        decreases end - i,
    {
        payload.push(buffer[i]);
        i = i + 1;
    }
    Ok((payload, end))
}

/// Takes a payload as a digest. Fails with `FramingError` exactly when the payload
/// is not 32 bytes long.
pub fn decode_digest(payload: &[u8]) -> (decoded: Result<[u8; 32], ProtocolError>)
    ensures
        decoded is Ok <==> payload@.len() == 32,
        decoded is Ok ==> decoded->Ok_0@ == payload@,
        decoded is Err ==> decoded->Err_0 == ProtocolError::FramingError,
{
    if payload.len() != 32 {
        return Err(ProtocolError::FramingError);
    }
    let mut digest: [u8; 32] = [0u8; 32];
    let mut i: usize = 0;
    while i < 32
        invariant
            i <= 32,
            payload@.len() == 32,
            forall|k: int| 0 <= k < i ==> digest@[k] == payload@[k],
        decreases 32 - i,
    {
        digest[i] = payload[i];
        i = i + 1;
    }
    Ok(digest)
}

/// Puts each digest into a frame of its own, one frame after the other.
pub fn encode_leaves(leaves: &[[u8; 32]]) -> (frames: Vec<u8>)
    ensures
        frames@ == digest_frames(digest_seqs(leaves@)),
{
    let mut frames: Vec<u8> = Vec::new();
    let mut k: usize = 0;
    while k < leaves.len()
        invariant
            k <= leaves@.len(),
            frames@ == digest_frames(digest_seqs(leaves@).take(k as int)),
        decreases leaves@.len() - k,
    {
        let header = encode_length(32);
        let ghost start = frames@;
        let mut i: usize = 0;
        while i < 4
            invariant
                i <= 4,
                frames@ == start + header@.take(i as int),
            decreases 4 - i,
        {
            frames.push(header[i]);
            i = i + 1;
        }
        let leaf = &leaves[k];
        let mut j: usize = 0;
        while j < 32
            invariant
                j <= 32,
                frames@ == start + header@ + leaf@.take(j as int),
            decreases 32 - j,
        {
            frames.push(leaf[j]);
            j = j + 1;
        }
        proof {
            let grown = digest_seqs(leaves@).take(k + 1);
            assert(grown.drop_last() =~= digest_seqs(leaves@).take(k as int));
        }
        k = k + 1;
    }
    proof {
        assert(digest_seqs(leaves@).take(k as int) =~= digest_seqs(leaves@));
    }
    frames
}

/// Reads `count` digests, each in a frame of its own, from `start` in
/// `buffer`, and gives the position behind the last frame. Fails with
/// `FramingError` exactly when one of the frames is cut short or does not hold 32
/// bytes.
pub fn decode_leaves(buffer: &[u8], start: usize, count: usize) -> (decoded: Result<
    (Vec<[u8; 32]>, usize),
    ProtocolError,
>)
    ensures
        decoded is Ok <==> digests_at(buffer@, start as int, count as nat) is Some,
        decoded is Ok ==> digests_at(buffer@, start as int, count as nat) == Some(
            (digest_seqs(decoded->Ok_0.0@), decoded->Ok_0.1 as int),
        ),
        decoded is Err ==> decoded->Err_0 == ProtocolError::FramingError,
{
    let mut leaves: Vec<[u8; 32]> = Vec::new();
    let mut position: usize = start;
    let mut k: usize = 0;
    while k < count
        invariant
            k <= count,
            digests_at(buffer@, start as int, k as nat) == Some(
                (digest_seqs(leaves@), position as int),
            ),
        decreases count - k,
    {
        match decode_frame(buffer, position) {
            Ok((payload, next)) => {
                match decode_digest(payload.as_slice()) {
                    Ok(digest) => {
                        leaves.push(digest);
                        position = next;
                    },
                    Err(_) => {
                        proof {
                            lemma_digests_at_fails_on(
                                buffer@,
                                start as int,
                                k as nat + 1,
                                count as nat,
                            );
                        }
                        return Err(ProtocolError::FramingError);
                    },
                }
            },
            Err(_) => {
                proof {
                    lemma_digests_at_fails_on(buffer@, start as int, k as nat + 1, count as nat);
                }
                return Err(ProtocolError::FramingError);
            },
        }
        k = k + 1;
    }
    Ok((leaves, position))
}

/// Calls `String::from_utf8`. Trusted: the call succeeds exactly when the
/// bytes are valid UTF-8, and the string then consists of those bytes.
#[verifier::external_body]
fn string_from_utf8(bytes: Vec<u8>) -> (text: Option<String>)
    ensures
        text is Some <==> valid_utf8(bytes@),
        text is Some ==> encode_utf8(text->Some_0@) == bytes@,
{
    match String::from_utf8(bytes) {
        Ok(text) => Some(text),
        Err(_) => None,
    }
}

/// Takes a payload as text. Fails with `ParseError` exactly when the payload is
/// not valid UTF-8.
pub fn decode_text(payload: Vec<u8>) -> (decoded: Result<String, ProtocolError>)
    ensures
        decoded is Ok <==> valid_utf8(payload@),
        decoded is Ok ==> decoded->Ok_0@ == decode_utf8(payload@) && encode_utf8(decoded->Ok_0@)
            == payload@,
        decoded is Err ==> decoded->Err_0 == ProtocolError::ParseError,
{
    match string_from_utf8(payload) {
        Some(text) => {
            proof {
                encode_utf8_decode_utf8(text@);
            }
            Ok(text)
        },
        None => Err(ProtocolError::ParseError),
    }
}

/// The request for the proof of one leaf: the index in eight bytes, most
/// significant first.
pub fn encode_index(index: usize) -> (request: [u8; 8])
    ensures
        request@ == be_bytes(index as nat, 8),
{
    let bytes = write_be(index as u64, 8);
    proof {
        lemma_be_bytes_len(index as nat, 8);
    }
    let request: [u8; 8] = [
        bytes[0],
        bytes[1],
        bytes[2],
        bytes[3],
        bytes[4],
        bytes[5],
        bytes[6],
        bytes[7],
    ];
    assert(request@ =~= bytes@);
    request
}

/// Reads the request for one leaf. Fails with `FramingError` exactly when the
/// request is not eight bytes long, and with `ParseError` exactly when it is and
/// the number is too large to be an index on this machine.
pub fn decode_index(request: &[u8]) -> (decoded: Result<usize, ProtocolError>)
    ensures
        decoded is Ok <==> request@.len() == 8 && be_value(request@) <= usize::MAX,
        decoded is Ok ==> decoded->Ok_0 == be_value(request@),
        decoded is Err ==> decoded->Err_0 == (if request@.len() == 8 {
            ProtocolError::ParseError
        } else {
            ProtocolError::FramingError
        }),
{
    if request.len() != 8 {
        return Err(ProtocolError::FramingError);
    }
    let value = read_be(request);
    if value > usize::MAX as u64 {
        Err(ProtocolError::ParseError)
    } else {
        Ok(value as usize)
    }
}

} // verus!
