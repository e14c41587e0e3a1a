//! The guest input and its codec: the bytes that host and guest exchange.

use crate::layout::{
    flag_layout, is_layout, layout, lemma_parse_complete, lemma_parse_ok_iff_layout,
    lemma_parse_sound, lemma_read_buffers_error_persists, parse, parse_flag, read_buffers,
    read_elements, read_word, FormatError, GuestInputView, ELEMENT_BYTES, WORD_BYTES,
};
use vstd::bytes::{spec_u128_to_le_bytes, u128_to_le_bytes, u64_from_le_bytes};
use vstd::pervasive::unreached;
use vstd::prelude::*;
use vstd::slice::{slice_subrange, slice_to_vec};

verus! {

/// What the host hands to the guest: the opening proofs to attest, and the
/// evaluation point and claim that they speak of.
#[derive(Clone, Debug, PartialEq, Eq)]
pub struct GuestInput {
    /// The opening proofs, each an opaque string of bytes.
    pub proofs: Vec<Vec<u8>>,
    /// The evaluation point: field elements of 128 bits, each as sixteen
    /// bytes, least significant first.
    pub evaluation_point: Vec<[u8; 16]>,
    /// The evaluation claim: one field element.
    pub evaluation_claim: [u8; 16],
    /// The binary logarithm of the number of packed values.
    pub packed_log_len: u64,
}

/// The byte buffers as sequences of bytes.
pub open spec fn buffers_view(buffers: Seq<Vec<u8>>) -> Seq<Seq<u8>> {
    Seq::new(buffers.len(), |i: int| buffers[i]@)
}

/// The field elements as sequences of bytes.
pub open spec fn elements_view(elements: Seq<[u8; 16]>) -> Seq<Seq<u8>> {
    Seq::new(elements.len(), |i: int| elements[i]@)
}

/// The four fields of a guest input as one mathematical value.
pub open spec fn fields_view(
    proofs: Seq<Vec<u8>>,
    evaluation_point: Seq<[u8; 16]>,
    evaluation_claim: Seq<u8>,
    packed_log_len: u64,
) -> GuestInputView {
    GuestInputView {
        proofs: buffers_view(proofs),
        evaluation_point: elements_view(evaluation_point),
        evaluation_claim,
        packed_log_len,
    }
}

impl View for GuestInput {
    type V = GuestInputView;

    open spec fn view(&self) -> GuestInputView {
        fields_view(
            self.proofs@,
            self.evaluation_point@,
            self.evaluation_claim@,
            self.packed_log_len,
        )
    }
}

/// The sixteen bytes of a field element that stands for `value`, least
/// significant first.
pub fn element_bytes(value: u128) -> (element: [u8; 16])
    ensures
        element@ == spec_u128_to_le_bytes(value),
{
    let bytes = u128_to_le_bytes(value);
    let mut element = [0u8; 16];
    let mut i: usize = 0;
    while i < ELEMENT_BYTES
        invariant
            i <= ELEMENT_BYTES,
            bytes@.len() == ELEMENT_BYTES,
            forall|k: int| 0 <= k < i ==> element@[k] == bytes@[k],
        decreases ELEMENT_BYTES - i,
    {
        element[i] = bytes[i];
        i += 1;
    }
    element
}

impl GuestInput {
    /// The guest input for these proofs, with the evaluation point and the
    /// evaluation claim given as the numbers that the field elements stand
    /// for.
    pub fn from_proofs(
        proofs: Vec<Vec<u8>>,
        evaluation_point: &[u128],
        evaluation_claim: u128,
        packed_log_len: u64,
    ) -> (input: GuestInput)
        ensures
            input.proofs == proofs,
            input.evaluation_point@.len() == evaluation_point@.len(),
            forall|i: int|
                0 <= i < evaluation_point@.len() ==> (#[trigger] input.evaluation_point@[i])@
                    == spec_u128_to_le_bytes(evaluation_point@[i]),
            input.evaluation_claim@ == spec_u128_to_le_bytes(evaluation_claim),
            input.packed_log_len == packed_log_len,
    {
        let mut elements: Vec<[u8; 16]> = Vec::new();
        let mut i: usize = 0;
        while i < evaluation_point.len()
            invariant
                i <= evaluation_point.len(),
                elements@.len() == i,
                forall|k: int|
                    0 <= k < i ==> (#[trigger] elements@[k])@ == spec_u128_to_le_bytes(
                        evaluation_point@[k],
                    ),
            decreases evaluation_point.len() - i,
        {
            elements.push(element_bytes(evaluation_point[i]));
            i += 1;
        }
        GuestInput {
            proofs,
            evaluation_point: elements,
            evaluation_claim: element_bytes(evaluation_claim),
            packed_log_len,
        }
    }

    /// The four fields of the guest input, in the order of the layout.
    pub fn to_tuple(self) -> (fields: (Vec<Vec<u8>>, Vec<[u8; 16]>, [u8; 16], u64))
        ensures
            fields.0 == self.proofs,
            fields.1 == self.evaluation_point,
            fields.2 == self.evaluation_claim,
            fields.3 == self.packed_log_len,
    {
        (self.proofs, self.evaluation_point, self.evaluation_claim, self.packed_log_len)
    }
}

/// Every guest input can be laid out.
pub proof fn lemma_guest_input_wf(input: GuestInput)
    ensures
        input@.wf(),
{
    broadcast use vstd::array::array_len_matches_n;

    assert forall|i: int| 0 <= i < input@.evaluation_point.len() implies (
    #[trigger] input@.evaluation_point[i]).len() == ELEMENT_BYTES by {
        assert(input@.evaluation_point[i] == input.evaluation_point@[i]@);
    }
    assert(input.proofs.len() == input@.proofs.len());
    assert(input.evaluation_point.len() == input@.evaluation_point.len());
    assert forall|i: int| 0 <= i < input@.proofs.len() implies (#[trigger] input@.proofs[i]).len()
        <= u64::MAX by {
        assert(input.proofs@[i].len() == input@.proofs[i].len());
    }
}

/// Decoding undoes encoding: the bytes that a guest input encodes to
/// decode to a guest input with the same proofs, evaluation point,
/// evaluation claim and packed length.
pub proof fn lemma_decode_undoes_encode(input: GuestInput)
    ensures
        parse(layout(input@)) == Ok::<GuestInputView, FormatError>(input@),
{
    lemma_guest_input_wf(input);
    lemma_parse_complete(input@);
}

/// Reads the number at `pos`.
fn decode_word(bytes: &[u8], pos: usize) -> (res: Result<(u64, usize), FormatError>)
    requires
        pos <= bytes@.len(),
    ensures
        match res {
            Ok((word, next)) => read_word(bytes@, pos as int) == Ok::<(u64, int), FormatError>(
                (word, next as int),
            ),
            Err(e) => read_word(bytes@, pos as int) == Err::<(u64, int), FormatError>(e),
        },
{
    if bytes.len() - pos < WORD_BYTES {
        return Err(FormatError::Truncated);
    }
    let word = u64_from_le_bytes(slice_subrange(bytes, pos, pos + WORD_BYTES));
    Ok((word, pos + WORD_BYTES))
}

/// Reads the field element at `pos`.
fn decode_element(bytes: &[u8], pos: usize) -> (element: [u8; 16])
    requires
        pos + ELEMENT_BYTES <= bytes@.len(),
    ensures
        element@ == bytes@.subrange(pos as int, pos + ELEMENT_BYTES),
{
    let mut element = [0u8; 16];
    let mut i: usize = 0;
    while i < ELEMENT_BYTES
        invariant
            i <= ELEMENT_BYTES,
            pos + ELEMENT_BYTES <= bytes.len(),
            forall|k: int| 0 <= k < i ==> element@[k] == bytes@[pos + k],
        decreases ELEMENT_BYTES - i,
    {
        element[i] = bytes[pos + i];
        i += 1;
    }
    element
}

/// The error type of `bincode`, carried through and never looked into.
#[verifier::external_type_specification]
#[verifier::external_body]
pub struct ExErrorKind(bincode::ErrorKind);

/// `bincode::serialize`, applied to the four fields as one tuple. That
/// function writes integers at their fixed width, least significant byte
/// first, and a length as 64 bits; a tuple and an array field by field with
/// nothing between; a growable sequence as its length and then its items;
/// a byte as itself. It sets no size limit and writes to memory, so it
/// has no error to return for these types. The contract claims both, and
/// neither is proved here: the result is `Ok`, and it holds the layout of
/// the fields.
#[verifier::external_body]
fn serialize_fields(
    proofs: &Vec<Vec<u8>>,
    evaluation_point: &Vec<[u8; 16]>,
    evaluation_claim: &[u8; 16],
    packed_log_len: u64,
) -> (res: Result<Vec<u8>, bincode::Error>)
    ensures
        res is Ok,
        res matches Ok(bytes) ==> bytes@ == layout(
            fields_view(proofs@, evaluation_point@, evaluation_claim@, packed_log_len),
        ),
{
    bincode::serialize(&(proofs, evaluation_point, evaluation_claim, packed_log_len))
}

/// `bincode::serialize`, applied to a truth value. That function writes
/// one byte, 1 for true and 0 for false, and has no error to return. The
/// contract claims both, and neither is proved here.
#[verifier::external_body]
fn serialize_flag(value: bool) -> (res: Result<Vec<u8>, bincode::Error>)
    ensures
        res is Ok,
        res matches Ok(bytes) ==> bytes@ == flag_layout(value),
{
    bincode::serialize(&value)
}

/// `bincode::deserialize` at a truth value. That function reads the first
/// byte and lets any others be: it gives true for 1 and false for 0, and
/// fails where there is no byte or the byte is another. The contract claims
/// this, and it is not proved here.
#[verifier::external_body]
fn deserialize_flag(bytes: &[u8]) -> (res: Result<bool, bincode::Error>)
    ensures
        res is Ok <==> parse_flag(bytes@) is Ok,
        res matches Ok(value) ==> parse_flag(bytes@) matches Ok(read) && read == value,
{
    bincode::deserialize(bytes)
}

/// Encodes a guest input: the bytes of its layout, the same for the same
/// input.
pub fn encode(input: &GuestInput) -> (bytes: Vec<u8>)
    ensures
        bytes@ == layout(input@),
{
    match serialize_fields(
        &input.proofs,
        &input.evaluation_point,
        &input.evaluation_claim,
        input.packed_log_len,
    ) {
        Ok(bytes) => bytes,
        Err(_) => unreached(),
    }
}

/// Encodes the truth value that the guest commits, as the output artifact
/// holds it.
pub fn encode_commitment(value: bool) -> (bytes: Vec<u8>)
    ensures
        bytes@ == flag_layout(value),
{
    match serialize_flag(value) {
        Ok(bytes) => bytes,
        Err(_) => unreached(),
    }
}

/// Decodes the truth value that the guest has committed from the bytes of
/// the output artifact: from their first byte, which is 1 for true and 0 for
/// false.
pub fn decode_commitment(bytes: &[u8]) -> (res: Result<bool, FormatError>)
    ensures
        res == parse_flag(bytes@),
{
    match deserialize_flag(bytes) {
        Ok(value) => Ok(value),
        Err(_) => if bytes.len() == 0 {
            Err(FormatError::Truncated)
        } else {
            Err(FormatError::InvalidFlag)
        },
    }
}

/// Reads `count` byte buffers from `start` on.
fn decode_buffers(bytes: &[u8], start: usize, count: u64) -> (res: Result<
    (Vec<Vec<u8>>, usize),
    FormatError,
>)
    requires
        start <= bytes@.len(),
    ensures
        match res {
            Ok((buffers, next)) => next <= bytes@.len() && read_buffers(
                bytes@,
                start as int,
                count as nat,
            ) == Ok::<(Seq<Seq<u8>>, int), FormatError>((buffers_view(buffers@), next as int)),
            Err(e) => read_buffers(bytes@, start as int, count as nat) == Err::<
                (Seq<Seq<u8>>, int),
                FormatError,
            >(e),
        },
{
    let mut buffers: Vec<Vec<u8>> = Vec::new();
    let mut pos = start;
    let mut i: u64 = 0;
    proof {
        assert(buffers_view(buffers@) =~= Seq::<Seq<u8>>::empty());
    }
    while i < count
        invariant
            i <= count,
            pos <= bytes.len(),
            read_buffers(bytes@, start as int, i as nat) == Ok::<(Seq<Seq<u8>>, int), FormatError>(
                (buffers_view(buffers@), pos as int),
            ),
        decreases count - i,
    {
        let ghost read = buffers_view(buffers@);
        let (len, data_at) = match decode_word(bytes, pos) {
            Ok(word) => word,
            Err(e) => {
                proof {
                    lemma_read_buffers_error_persists(
                        bytes@,
                        start as int,
                        (i + 1) as nat,
                        count as nat,
                    );
                }
                return Err(e);
            },
        };
        if len > (bytes.len() - data_at) as u64 {
            proof {
                lemma_read_buffers_error_persists(
                    bytes@,
                    start as int,
                    (i + 1) as nat,
                    count as nat,
                );
            }
            return Err(FormatError::LengthOverrun);
        }
        let end = data_at + len as usize;
        let buffer = slice_to_vec(slice_subrange(bytes, data_at, end));
        buffers.push(buffer);
        proof {
            assert(buffers_view(buffers@) =~= read.push(buffer@));
        }
        pos = end;
        i += 1;
    }
    Ok((buffers, pos))
}

/// Reads `count` field elements from `start` on.
fn decode_elements(bytes: &[u8], start: usize, count: usize) -> (elements: Vec<[u8; 16]>)
    requires
        start + count * ELEMENT_BYTES <= bytes@.len(),
    ensures
        elements_view(elements@) == read_elements(bytes@, start as int, count as nat),
{
    let mut elements: Vec<[u8; 16]> = Vec::new();
    let mut pos = start;
    let mut i: usize = 0;
    while i < count
        invariant
            i <= count,
            pos == start + i * ELEMENT_BYTES,
            start + count * ELEMENT_BYTES <= bytes.len(),
            elements@.len() == i,
            forall|k: int|
                0 <= k < i ==> (#[trigger] elements@[k])@ == read_elements(
                    bytes@,
                    start as int,
                    count as nat,
                )[k],
        decreases count - i,
    {
        let element = decode_element(bytes, pos);
        elements.push(element);
        pos += ELEMENT_BYTES;
        i += 1;
    }
    elements
}

/// Decodes a guest input from its layout. The bytes must be the layout of
/// a guest input from the first to the last: otherwise nothing is decoded,
/// and the error says what is wrong with them.
pub fn decode(bytes: &[u8]) -> (res: Result<GuestInput, FormatError>)
    ensures
        res is Ok <==> is_layout(bytes@),
        res matches Ok(input) ==> layout(input@) == bytes@,
        match res {
            Ok(input) => parse(bytes@) == Ok::<GuestInputView, FormatError>(input@),
            Err(e) => parse(bytes@) == Err::<GuestInputView, FormatError>(e),
        },
{
    proof {
        lemma_parse_ok_iff_layout(bytes@);
        lemma_parse_sound(bytes@);
    }
    let (count, start) = match decode_word(bytes, 0) {
        Ok(word) => word,
        Err(e) => {
            return Err(e);
        },
    };
    if count > ((bytes.len() - start) / WORD_BYTES) as u64 {
        return Err(FormatError::LengthOverrun);
    }
    let (proofs, next) = match decode_buffers(bytes, start, count) {
        Ok(read) => read,
        Err(e) => {
            return Err(e);
        },
    };
    let (elements, first) = match decode_word(bytes, next) {
        Ok(word) => word,
        Err(e) => {
            return Err(e);
        },
    };
    if elements > ((bytes.len() - first) / ELEMENT_BYTES) as u64 {
        return Err(FormatError::LengthOverrun);
    }
    let evaluation_point = decode_elements(bytes, first, elements as usize);
    let claim_at = first + elements as usize * ELEMENT_BYTES;
    if bytes.len() - claim_at < ELEMENT_BYTES {
        return Err(FormatError::Truncated);
    }
    let evaluation_claim = decode_element(bytes, claim_at);
    let (packed_log_len, end) = match decode_word(bytes, claim_at + ELEMENT_BYTES) {
        Ok(word) => word,
        Err(e) => {
            return Err(e);
        },
    };
    if end != bytes.len() {
        return Err(FormatError::TrailingBytes);
    }
    Ok(GuestInput { proofs, evaluation_point, evaluation_claim, packed_log_len })
}

} // verus!
