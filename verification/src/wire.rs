//! The relay's control frames.
//!
//! A peer asks for a pairing with an establish frame: the two opcode bytes,
//! one byte with the length of the preshared key, one byte with the length of
//! the token, then the key and the token. The relay answers the first claim
//! of a token with an acknowledgement: its opcode followed by the token.

use vstd::prelude::*;

verus! {

/// The two-byte prefixes of the control frames.
#[derive(Clone, Copy, Debug, PartialEq, Eq, Structural)]
pub enum Ops {
    ACK,
    EstablishConnection,
}

impl Ops {
    /// The opcode as a sequence of bytes.
    pub open spec fn bytes(self) -> Seq<u8> {
        match self {
            Ops::ACK => seq![0xffu8, 0x12u8],
            Ops::EstablishConnection => seq![0xffu8, 0x05u8],
        }
    }

    /// The opcode's two bytes.
    pub fn value(&self) -> (code: [u8; 2])
        ensures
            code@ == self.bytes(),
    {
        let code: [u8; 2] = match *self {
            Ops::ACK => [0xff, 0x12],
            Ops::EstablishConnection => [0xff, 0x05],
        };
        assert(code@ =~= self.bytes());
        code
    }
}

/// One slice followed by another, in a fresh vector.
pub fn concat_arrays<T: Copy>(known_array: &[T], borrowed_slice: &[T]) -> (combined: Vec<T>)
    ensures
        combined@ == known_array@ + borrowed_slice@,
{
    let mut combined: Vec<T> = Vec::new();
    let mut i: usize = 0;
    while i < known_array.len()
        invariant
            i <= known_array.len(),
            combined@ == known_array@.take(i as int),
        decreases known_array.len() - i,
    {
        combined.push(known_array[i]);
        i += 1;
        assert(combined@ =~= known_array@.take(i as int));
    }
    let mut j: usize = 0;
    while j < borrowed_slice.len()
        invariant
            j <= borrowed_slice.len(),
            combined@ == known_array@ + borrowed_slice@.take(j as int),
        decreases borrowed_slice.len() - j,
    {
        combined.push(borrowed_slice[j]);
        j += 1;
        assert(combined@ =~= known_array@ + borrowed_slice@.take(j as int));
    }
    assert(combined@ =~= known_array@ + borrowed_slice@);
    combined
}

/// The acknowledgement of a token: the opcode, then the token.
pub open spec fn ack_frame_spec(token: Seq<u8>) -> Seq<u8> {
    Ops::ACK.bytes() + token
}

/// Builds the acknowledgement of `token`.
pub fn ack_frame(token: &[u8]) -> (frame: Vec<u8>)
    ensures
        frame@ == ack_frame_spec(token@),
{
    let code: [u8; 2] = Ops::ACK.value();
    concat_arrays(&code, token)
}

/// An establish frame that presents `psk` and asks for `token`. Both must
/// fit the one-byte length fields.
pub open spec fn establish_frame_spec(psk: Seq<u8>, token: Seq<u8>) -> Seq<u8>
    recommends
        psk.len() <= 255,
        token.len() <= 255,
{
    Ops::EstablishConnection.bytes() + seq![psk.len() as u8, token.len() as u8] + psk + token
}

/// Why a datagram is no valid establish frame.
#[derive(Clone, Copy, Debug, PartialEq, Eq, Structural)]
pub enum FrameError {
    /// Shorter than an opcode and the preshared key together.
    TooShort,
    /// The first two bytes are not the establish opcode.
    NotEstablish,
    /// Shorter than the header and the two fields it announces.
    Truncated,
    /// The key field differs from the preshared key.
    KeyMismatch,
}

/// What an establish frame decodes to under the preshared key `psk`: the
/// token it carries, or the first of the four validations that it fails.
pub open spec fn parse_establish_spec(psk: Seq<u8>, frame: Seq<u8>) -> Result<Seq<u8>, FrameError> {
    if frame.len() < 2 + psk.len() {
        Err(FrameError::TooShort)
    } else if frame.subrange(0, 2) != Ops::EstablishConnection.bytes() {
        Err(FrameError::NotEstablish)
    } else if frame.len() < 4 || frame.len() < 4 + frame[2] + frame[3] {
        Err(FrameError::Truncated)
    } else if frame.subrange(4, 4 + frame[2]) != psk {
        Err(FrameError::KeyMismatch)
    } else {
        Ok(frame.subrange(4 + frame[2], 4 + frame[2] + frame[3]))
    }
}

/// Whether the bytes of `frame` from `start` on begin with `expected`.
fn range_equals(frame: &[u8], start: usize, expected: &[u8]) -> (same: bool)
    requires
        start + expected.len() <= frame.len(),
    ensures
        same == (frame@.subrange(start as int, start + expected.len()) == expected@),
{
    let mut i: usize = 0;
    while i < expected.len()
        invariant
            i <= expected.len(),
            start + expected.len() <= frame.len(),
            frame@.subrange(start as int, start + i) == expected@.take(i as int),
        decreases expected.len() - i,
    {
        if frame[start + i] != expected[i] {
            assert(frame@.subrange(start as int, start + expected.len())[i as int]
                != expected@[i as int]);
            return false;
        }
        i += 1;
        assert(frame@.subrange(start as int, start + i) =~= expected@.take(i as int));
    }
    assert(expected@.take(i as int) =~= expected@);
    true
}

/// Whether two byte strings are equal.
pub fn same_bytes(left: &[u8], right: &[u8]) -> (same: bool)
    ensures
        same == (left@ == right@),
{
    if left.len() != right.len() {
        return false;
    }
    assert(left@.subrange(0, right@.len() as int) =~= left@);
    range_equals(left, 0, right)
}

/// The bytes of `frame` from `start` up to `end`, copied.
fn copy_range(frame: &[u8], start: usize, end: usize) -> (bytes: Vec<u8>)
    requires
        start <= end <= frame.len(),
    ensures
        bytes@ == frame@.subrange(start as int, end as int),
{
    let mut bytes: Vec<u8> = Vec::new();
    let mut i: usize = start;
    while i < end
        invariant
            start <= i <= end <= frame.len(),
            bytes@ == frame@.subrange(start as int, i as int),
        decreases end - i,
    {
        bytes.push(frame[i]);
        i += 1;
        assert(bytes@ =~= frame@.subrange(start as int, i as int));
    }
    bytes
}

/// Decodes a datagram as an establish frame under the preshared key `psk`.
/// Returns the token, or the first validation that the datagram fails.
pub fn parse_establish(psk: &[u8], frame: &[u8]) -> (parsed: Result<Vec<u8>, FrameError>)
    ensures
        match parsed {
            Ok(token) => parse_establish_spec(psk@, frame@) == Ok::<Seq<u8>, FrameError>(token@),
            Err(e) => parse_establish_spec(psk@, frame@) == Err::<Seq<u8>, FrameError>(e),
        },
{
    if frame.len() < 2 || frame.len() - 2 < psk.len() {
        return Err(FrameError::TooShort);
    }
    let code: [u8; 2] = Ops::EstablishConnection.value();
    if !range_equals(frame, 0, &code) {
        return Err(FrameError::NotEstablish);
    }
    if frame.len() < 4 {
        return Err(FrameError::Truncated);
    }
    let n_psk: usize = frame[2] as usize;
    let n_token: usize = frame[3] as usize;
    if frame.len() - 4 < n_psk + n_token {
        return Err(FrameError::Truncated);
    }
    let psk_end: usize = 4 + n_psk;
    if n_psk != psk.len() {
        assert(frame@.subrange(4, 4 + frame@[2]).len() != psk@.len());
        return Err(FrameError::KeyMismatch);
    }
    if !range_equals(frame, 4, psk) {
        return Err(FrameError::KeyMismatch);
    }
    Ok(copy_range(frame, psk_end, psk_end + n_token))
}

/// A well-formed establish frame decodes to the token it was built from,
/// whatever follows it in the datagram.
pub proof fn lemma_establish_round_trip(psk: Seq<u8>, token: Seq<u8>, trailing: Seq<u8>)
    requires
        psk.len() <= 255,
        token.len() <= 255,
    ensures
        parse_establish_spec(psk, establish_frame_spec(psk, token) + trailing) == Ok::<
            Seq<u8>,
            FrameError,
        >(token),
{
    let frame = establish_frame_spec(psk, token) + trailing;
    assert(frame.len() == 4 + psk.len() + token.len() + trailing.len());
    assert(frame[2] == psk.len() as u8);
    assert(frame[3] == token.len() as u8);
    assert(frame.subrange(0, 2) =~= Ops::EstablishConnection.bytes());
    assert(frame.subrange(4, 4 + frame[2]) =~= psk);
    assert(frame.subrange(4 + frame[2], 4 + frame[2] + frame[3]) =~= token);
}

/// Every datagram that decodes is a well-formed establish frame for the
/// preshared key and the decoded token, followed by bytes that are ignored.
pub proof fn lemma_accepted_frames_are_well_formed(psk: Seq<u8>, frame: Seq<u8>)
    requires
        parse_establish_spec(psk, frame) is Ok,
    ensures
        psk.len() <= 255,
        parse_establish_spec(psk, frame)->Ok_0.len() <= 255,
        frame == establish_frame_spec(psk, parse_establish_spec(psk, frame)->Ok_0)
            + frame.subrange(4 + frame[2] + frame[3], frame.len() as int),
{
    let token = parse_establish_spec(psk, frame)->Ok_0;
    assert(frame.subrange(4, 4 + frame[2]).len() == frame[2]);
    assert(frame.subrange(0, 2)[0] == frame[0]);
    assert(frame.subrange(0, 2)[1] == frame[1]);
    let rebuilt = establish_frame_spec(psk, token)
        + frame.subrange(4 + frame[2] + frame[3], frame.len() as int);
    assert(rebuilt.len() == frame.len());
    assert forall|i: int| 0 <= i < frame.len() implies rebuilt[i] == frame[i] by {
        if 4 <= i < 4 + frame[2] {
            assert(frame.subrange(4, 4 + frame[2])[i - 4] == frame[i]);
        }
    }
    assert(rebuilt =~= frame);
}

} // verus!
