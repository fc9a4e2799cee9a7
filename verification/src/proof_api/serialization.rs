//! Byte encodings of the public statements.
use vstd::prelude::*;

use crate::proof_api::{
    validate_message_size, Sha512MessageInstance, Sha512SingleBlockInstance,
    MAX_MESSAGE_INSTANCE_BYTES,
};
use crate::spec::{
    be_u64_bytes, be_word, lemma_be_word_of_state_bytes, lemma_be_word_of_u64_bytes,
    lemma_state_bytes_of_be_words, lemma_u64_bytes_of_be_word, state_bytes,
};

verus! {

/// The encoding of a single-block instance: the eight state words in big-endian (64 bytes),
/// then the block verbatim (128 bytes).
pub open spec fn single_instance_bytes(inst: Sha512SingleBlockInstance) -> Seq<u8> {
    state_bytes(inst.initial_state@) + inst.block@
}

/// The encoding of a message instance: the eight state words in big-endian (64 bytes), the
/// message length as a big-endian 64-bit integer (8 bytes), then the message verbatim.
pub open spec fn message_instance_bytes(inst: Sha512MessageInstance) -> Seq<u8> {
    state_bytes(inst.initial_state@) + be_u64_bytes(inst.message@.len() as u64) + inst.message@
}

/// The eight state words that the first 64 bytes of `b` encode.
pub open spec fn decoded_state(b: Seq<u8>) -> Seq<u64> {
    Seq::new(8, |i: int| be_word(b, i))
}

/// Appends the big-endian encoding of a state.
fn push_state_bytes(out: &mut Vec<u8>, s: &[u64; 8])
    ensures
        final(out)@ == old(out)@ + state_bytes(s@),
{
    let ghost start = out@;
    for k in 0..64
        invariant
            out@ == start + state_bytes(s@).take(k as int),
    {
        out.push((s[k / 8] >> ((56 - 8 * (k % 8)) as u64)) as u8);
        assert(out@ =~= start + state_bytes(s@).take(k + 1));
    }
    assert(state_bytes(s@).take(64) =~= state_bytes(s@));
}

/// Appends bytes verbatim.
fn push_bytes(out: &mut Vec<u8>, b: &[u8])
    ensures
        final(out)@ == old(out)@ + b@,
{
    let ghost start = out@;
    for k in 0..b.len()
        invariant
            out@ == start + b@.take(k as int),
    {
        out.push(b[k]);
        assert(out@ =~= start + b@.take(k + 1));
    }
    assert(b@.take(b@.len() as int) =~= b@);
}

/// Reads the `i`-th big-endian word of a byte slice.
fn read_be_word(b: &[u8], i: usize) -> (w: u64)
    requires
        8 * i + 8 <= b.len(),
    ensures
        w == be_word(b@, i as int),
{
    let j = 8 * i;
    ((b[j] as u64) << 56u64) | ((b[j + 1] as u64) << 48u64) | ((b[j + 2] as u64) << 40u64) | ((b[j
        + 3] as u64) << 32u64) | ((b[j + 4] as u64) << 24u64) | ((b[j + 5] as u64) << 16u64) | ((b[j
        + 6] as u64) << 8u64) | (b[j + 7] as u64)
}

/// Reads the state encoded by the first 64 bytes.
fn read_state(b: &[u8]) -> (s: [u64; 8])
    requires
        64 <= b@.len(),
    ensures
        s@ == decoded_state(b@),
{
    let mut s = [0u64; 8];
    for i in 0..8
        invariant
            64 <= b@.len(),
            forall|j: int| 0 <= j < i ==> #[trigger] s[j] == be_word(b@, j),
    {
        s[i] = read_be_word(b, i);
    }
    assert(s@ =~= decoded_state(b@));
    s
}

/// Serializes a single-block instance (192 bytes).
pub fn serialize_single_block_instance(instance: &Sha512SingleBlockInstance) -> (bytes: Vec<u8>)
    ensures
        bytes@ == single_instance_bytes(*instance),
{
    let mut bytes: Vec<u8> = Vec::new();
    push_state_bytes(&mut bytes, &instance.initial_state);
    push_bytes(&mut bytes, instance.block.as_slice());
    bytes
}

/// Deserializes a single-block instance; only 192-byte inputs are accepted.
pub fn deserialize_single_block_instance(bytes: &[u8]) -> (r: Result<
    Sha512SingleBlockInstance,
    String,
>)
    ensures
        r is Ok <==> bytes@.len() == 192,
        r matches Err(e) ==> e@ == "invalid single-block instance length"@,
        r matches Ok(inst) ==> inst.initial_state@ == decoded_state(bytes@) && inst.block@
            == bytes@.subrange(64, 192),
{
    if bytes.len() != 64 + 128 {
        return Err("invalid single-block instance length".to_string());
    }
    let initial_state = read_state(bytes);
    let mut block = [0u8; 128];
    for k in 0..128
        invariant
            bytes@.len() == 192,
            forall|j: int| 0 <= j < k ==> #[trigger] block[j] == bytes@[64 + j],
    {
        block[k] = bytes[64 + k];
    }
    assert(block@ =~= bytes@.subrange(64, 192));
    Ok(Sha512SingleBlockInstance { initial_state, block })
}

/// Serializes a message instance; messages above the size limit are refused.
pub fn serialize_message_instance(instance: &Sha512MessageInstance) -> (r: Result<Vec<u8>, String>)
    ensures
        r is Ok <==> instance.message@.len() <= MAX_MESSAGE_INSTANCE_BYTES,
        r matches Err(e) ==> e@ == "message instance exceeds configured size limit"@,
        r matches Ok(bytes) ==> bytes@ == message_instance_bytes(*instance),
{
    validate_message_size(instance.message.len())?;
    let mut bytes: Vec<u8> = Vec::new();
    push_state_bytes(&mut bytes, &instance.initial_state);
    let len = instance.message.len() as u64;
    let ghost before = bytes@;
    for k in 0..8
        invariant
            bytes@ == before + be_u64_bytes(len).take(k as int),
    {
        bytes.push((len >> ((56 - 8 * k) as u64)) as u8);
        assert(bytes@ =~= before + be_u64_bytes(len).take(k + 1));
    }
    assert(be_u64_bytes(len).take(8) =~= be_u64_bytes(len));
    push_bytes(&mut bytes, instance.message.as_slice());
    Ok(bytes)
}

/// Deserializes a message instance: the input must hold the 72-byte header, a length within
/// the size limit, and exactly that many message bytes after the header.
pub fn deserialize_message_instance(bytes: &[u8]) -> (r: Result<Sha512MessageInstance, String>)
    ensures
        bytes@.len() < 72 ==> (r matches Err(e) && e@ == "message instance too short"@),
        bytes@.len() >= 72 && be_word(bytes@, 8) > MAX_MESSAGE_INSTANCE_BYTES ==> (r matches Err(e)
            && e@ == "message instance exceeds configured size limit"@),
        bytes@.len() >= 72 && be_word(bytes@, 8) <= MAX_MESSAGE_INSTANCE_BYTES && bytes@.len() != 72
            + be_word(bytes@, 8) ==> (r matches Err(e) && e@ == "message instance length mismatch"@),
        r is Ok <==> bytes@.len() >= 72 && be_word(bytes@, 8) <= MAX_MESSAGE_INSTANCE_BYTES
            && bytes@.len() == 72 + be_word(bytes@, 8),
        r matches Ok(inst) ==> inst.initial_state@ == decoded_state(bytes@) && inst.message@
            == bytes@.subrange(72, bytes@.len() as int),
{
    if bytes.len() < 72 {
        return Err("message instance too short".to_string());
    }
    let initial_state = read_state(bytes);
    let len64 = read_be_word(bytes, 8);
    if len64 > MAX_MESSAGE_INSTANCE_BYTES as u64 {
        return Err("message instance exceeds configured size limit".to_string());
    }
    let len = len64 as usize;
    if bytes.len() != 72 + len {
        return Err("message instance length mismatch".to_string());
    }
    let mut message: Vec<u8> = Vec::new();
    for k in 72..bytes.len()
        invariant
            message@ == bytes@.subrange(72, k as int),
    {
        message.push(bytes[k]);
        assert(message@ =~= bytes@.subrange(72, k + 1));
    }
    Ok(Sha512MessageInstance { initial_state, message })
}

/// Decoding the encoding of a single-block instance gives back the instance.
pub proof fn lemma_single_instance_roundtrip(inst: Sha512SingleBlockInstance)
    ensures
        single_instance_bytes(inst).len() == 192,
        decoded_state(single_instance_bytes(inst)) == inst.initial_state@,
        single_instance_bytes(inst).subrange(64, 192) == inst.block@,
{
    let b = single_instance_bytes(inst);
    assert forall|i: int| 0 <= i < 8 implies #[trigger] decoded_state(b)[i]
        == inst.initial_state@[i] by {
        lemma_be_word_of_state_bytes(inst.initial_state@, i);
        assert forall|j: int| 0 <= j < 64 implies b[j] == state_bytes(inst.initial_state@)[j] by {}
        assert(be_word(b, i) == be_word(state_bytes(inst.initial_state@), i));
    }
    assert(decoded_state(b) =~= inst.initial_state@);
    assert(b.subrange(64, 192) =~= inst.block@);
}

/// Encoding a decoded single-block instance gives back the 192 input bytes.
pub proof fn lemma_single_bytes_roundtrip(b: Seq<u8>)
    requires
        b.len() == 192,
    ensures
        state_bytes(decoded_state(b)) + b.subrange(64, 192) == b,
{
    lemma_state_bytes_of_be_words(b);
    assert(decoded_state(b) == Seq::new(8, |i: int| be_word(b, i)));
    assert(state_bytes(decoded_state(b)) + b.subrange(64, 192) =~= b);
}

/// Decoding the encoding of a message instance within the size limit gives back the instance.
pub proof fn lemma_message_instance_roundtrip(inst: Sha512MessageInstance)
    requires
        inst.message@.len() <= MAX_MESSAGE_INSTANCE_BYTES,
    ensures
        ({
            let b = message_instance_bytes(inst);
            &&& b.len() >= 72
            &&& be_word(b, 8) == inst.message@.len()
            &&& b.len() == 72 + be_word(b, 8)
            &&& decoded_state(b) == inst.initial_state@
            &&& b.subrange(72, b.len() as int) == inst.message@
        }),
{
    let b = message_instance_bytes(inst);
    let len = inst.message@.len() as u64;
    assert forall|i: int| 0 <= i < 8 implies #[trigger] decoded_state(b)[i]
        == inst.initial_state@[i] by {
        lemma_be_word_of_state_bytes(inst.initial_state@, i);
        assert(be_word(b, i) == be_word(state_bytes(inst.initial_state@), i));
    }
    assert(decoded_state(b) =~= inst.initial_state@);
    lemma_be_word_of_u64_bytes(len);
    assert(be_word(b, 8) == be_word(be_u64_bytes(len), 0));
    assert(b.subrange(72, b.len() as int) =~= inst.message@);
}

/// Encoding a decoded message instance gives back the input bytes.
pub proof fn lemma_message_bytes_roundtrip(b: Seq<u8>)
    requires
        b.len() >= 72,
        b.len() == 72 + be_word(b, 8),
    ensures
        state_bytes(decoded_state(b)) + be_u64_bytes(be_word(b, 8)) + b.subrange(72, b.len() as int)
            == b,
{
    lemma_state_bytes_of_be_words(b);
    lemma_u64_bytes_of_be_word(b, 8);
    assert(state_bytes(decoded_state(b)) + be_u64_bytes(be_word(b, 8)) + b.subrange(
        72,
        b.len() as int,
    ) =~= b);
}

} // verus!
