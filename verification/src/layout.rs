//! The binary layout of the guest input, as a function from values to
//! bytes, and the reading of bytes as a guest input, with the proofs that
//! each undoes the other.

use vstd::bytes::{
    lemma_auto_spec_u64_to_from_le_bytes, spec_u64_from_le_bytes, spec_u64_to_le_bytes,
};
use vstd::prelude::*;

verus! {

/// The number of bytes of a field element.
pub const ELEMENT_BYTES: usize = 16;

/// The number of bytes of a length prefix and of the packed length.
pub const WORD_BYTES: usize = 8;

/// The guest input as a mathematical value: byte strings and a number.
pub struct GuestInputView {
    /// The opening proofs, each a string of bytes.
    pub proofs: Seq<Seq<u8>>,
    /// The evaluation point: field elements of sixteen bytes each.
    pub evaluation_point: Seq<Seq<u8>>,
    /// The evaluation claim: one field element of sixteen bytes.
    pub evaluation_claim: Seq<u8>,
    /// The binary logarithm of the number of packed values.
    pub packed_log_len: u64,
}

impl GuestInputView {
    /// Whether the value can be laid out: the field elements have sixteen
    /// bytes each, and every length fits a length prefix.
    pub open spec fn wf(self) -> bool {
        &&& self.proofs.len() <= u64::MAX
        &&& forall|i: int| 0 <= i < self.proofs.len() ==> (#[trigger] self.proofs[i]).len() <= u64::MAX
        &&& self.evaluation_point.len() <= u64::MAX
        &&& forall|i: int|
            0 <= i < self.evaluation_point.len() ==> (#[trigger] self.evaluation_point[i]).len()
                == ELEMENT_BYTES
        &&& self.evaluation_claim.len() == ELEMENT_BYTES
    }
}

/// Why a string of bytes is not the layout of a guest input, or of a
/// truth value.
#[derive(Clone, Copy, Debug, PartialEq, Eq, Structural)]
pub enum FormatError {
    /// The bytes end inside a field of fixed width: a length prefix, the
    /// evaluation claim or the packed length.
    Truncated,
    /// A length prefix announces more than the bytes that are left.
    LengthOverrun,
    /// Bytes are left over after the last field.
    TrailingBytes,
    /// The byte of a truth value is neither 0 nor 1.
    InvalidFlag,
}

/// A length as eight bytes, least significant first.
pub open spec fn length_prefix(n: nat) -> Seq<u8> {
    spec_u64_to_le_bytes(n as u64)
}

/// The layout of a sequence of byte buffers: each buffer after its length.
pub open spec fn buffers_layout(buffers: Seq<Seq<u8>>) -> Seq<u8>
    decreases buffers.len(),
{
    if buffers.len() == 0 {
        Seq::empty()
    } else {
        buffers_layout(buffers.drop_last()) + length_prefix(buffers.last().len())
            + buffers.last()
    }
}

/// The layout of a sequence of field elements: one after the other.
pub open spec fn elements_layout(elements: Seq<Seq<u8>>) -> Seq<u8>
    decreases elements.len(),
{
    if elements.len() == 0 {
        Seq::empty()
    } else {
        elements_layout(elements.drop_last()) + elements.last()
    }
}

/// The layout of a guest input: the number of proofs and the proofs, each
/// after its length; the number of field elements of the evaluation point
/// and the elements; the evaluation claim; the packed length. Numbers take
/// eight bytes, least significant first.
pub open spec fn layout(v: GuestInputView) -> Seq<u8> {
    length_prefix(v.proofs.len()) + buffers_layout(v.proofs) + length_prefix(
        v.evaluation_point.len(),
    ) + elements_layout(v.evaluation_point) + v.evaluation_claim + spec_u64_to_le_bytes(
        v.packed_log_len,
    )
}

/// The layout of a truth value: one byte, 1 for true and 0 for false.
pub open spec fn flag_layout(value: bool) -> Seq<u8> {
    seq![if value { 1u8 } else { 0u8 }]
}

/// The reading of `bytes` as a truth value: by their first byte alone.
pub open spec fn parse_flag(bytes: Seq<u8>) -> Result<bool, FormatError> {
    if bytes.len() == 0 {
        Err(FormatError::Truncated)
    } else if bytes[0] == 1 {
        Ok(true)
    } else if bytes[0] == 0 {
        Ok(false)
    } else {
        Err(FormatError::InvalidFlag)
    }
}

/// Whether the bytes are the layout of some guest input.
pub open spec fn is_layout(bytes: Seq<u8>) -> bool {
    exists|v: GuestInputView| v.wf() && layout(v) == bytes
}

/// The number at `pos`, and the position after it.
pub open spec fn read_word(bytes: Seq<u8>, pos: int) -> Result<(u64, int), FormatError> {
    if pos + WORD_BYTES > bytes.len() {
        Err(FormatError::Truncated)
    } else {
        Ok((spec_u64_from_le_bytes(bytes.subrange(pos, pos + WORD_BYTES)), pos + WORD_BYTES))
    }
}

/// The byte buffer at `pos`, and the position after it.
pub open spec fn read_buffer(bytes: Seq<u8>, pos: int) -> Result<(Seq<u8>, int), FormatError> {
    match read_word(bytes, pos) {
        Err(e) => Err(e),
        Ok((len, start)) => if len > bytes.len() - start {
            Err(FormatError::LengthOverrun)
        } else {
            Ok((bytes.subrange(start, start + len), start + len))
        },
    }
}

/// The `count` byte buffers from `pos` on, and the position after them.
pub open spec fn read_buffers(bytes: Seq<u8>, pos: int, count: nat) -> Result<
    (Seq<Seq<u8>>, int),
    FormatError,
>
    decreases count,
{
    if count == 0 {
        Ok((Seq::empty(), pos))
    } else {
        match read_buffers(bytes, pos, (count - 1) as nat) {
            Err(e) => Err(e),
            Ok((buffers, next)) => match read_buffer(bytes, next) {
                Err(e) => Err(e),
                Ok((buffer, end)) => Ok((buffers.push(buffer), end)),
            },
        }
    }
}

/// The `count` field elements from `pos` on.
pub open spec fn read_elements(bytes: Seq<u8>, pos: int, count: nat) -> Seq<Seq<u8>> {
    Seq::new(
        count,
        |i: int| bytes.subrange(pos + i * ELEMENT_BYTES, pos + i * ELEMENT_BYTES + ELEMENT_BYTES),
    )
}

/// The fields after the proofs, from `pos` on.
pub open spec fn read_tail(bytes: Seq<u8>, proofs: Seq<Seq<u8>>, pos: int) -> Result<
    GuestInputView,
    FormatError,
> {
    match read_word(bytes, pos) {
        Err(e) => Err(e),
        Ok((count, start)) => if count * ELEMENT_BYTES > bytes.len() - start {
            Err(FormatError::LengthOverrun)
        } else {
            let claim_at = start + count * ELEMENT_BYTES;
            if claim_at + ELEMENT_BYTES > bytes.len() {
                Err(FormatError::Truncated)
            } else {
                match read_word(bytes, claim_at + ELEMENT_BYTES) {
                    Err(e) => Err(e),
                    Ok((packed_log_len, end)) => if end != bytes.len() {
                        Err(FormatError::TrailingBytes)
                    } else {
                        Ok(
                            GuestInputView {
                                proofs,
                                evaluation_point: read_elements(bytes, start, count as nat),
                                evaluation_claim: bytes.subrange(
                                    claim_at,
                                    claim_at + ELEMENT_BYTES,
                                ),
                                packed_log_len,
                            },
                        )
                    },
                }
            }
        },
    }
}

/// The reading of `bytes` as a guest input, field by field from the front:
/// the guest input of which `bytes` is the layout, or the first thing that
/// is wrong with `bytes`.
pub open spec fn parse(bytes: Seq<u8>) -> Result<GuestInputView, FormatError> {
    match read_word(bytes, 0) {
        Err(e) => Err(e),
        Ok((count, start)) => if count * WORD_BYTES > bytes.len() - start {
            Err(FormatError::LengthOverrun)
        } else {
            match read_buffers(bytes, start, count as nat) {
                Err(e) => Err(e),
                Ok((proofs, next)) => read_tail(bytes, proofs, next),
            }
        },
    }
}

/// Reading undoes laying out: the layout of a truth value reads as that
/// truth value.
pub proof fn lemma_parse_flag_complete(value: bool)
    ensures
        parse_flag(flag_layout(value)) == Ok::<bool, FormatError>(value),
{
}

/// The layout of byte buffers takes eight bytes and more for each.
pub proof fn lemma_buffers_layout_len(buffers: Seq<Seq<u8>>)
    ensures
        buffers_layout(buffers).len() >= WORD_BYTES * buffers.len(),
    decreases buffers.len(),
{
    lemma_auto_spec_u64_to_from_le_bytes();
    if buffers.len() > 0 {
        lemma_buffers_layout_len(buffers.drop_last());
    }
}

/// The layout of field elements takes sixteen bytes for each.
pub proof fn lemma_elements_layout_len(elements: Seq<Seq<u8>>)
    requires
        forall|i: int| 0 <= i < elements.len() ==> (#[trigger] elements[i]).len() == ELEMENT_BYTES,
    ensures
        elements_layout(elements).len() == ELEMENT_BYTES * elements.len(),
    decreases elements.len(),
{
    if elements.len() > 0 {
        let front = elements.drop_last();
        assert forall|i: int| 0 <= i < front.len() implies (#[trigger] front[i]).len()
            == ELEMENT_BYTES by {}
        lemma_elements_layout_len(front);
    }
}

/// What `read_buffers` reads is what is laid out there.
pub proof fn lemma_read_buffers_sound(bytes: Seq<u8>, pos: int, count: nat)
    requires
        0 <= pos <= bytes.len(),
    ensures
        read_buffers(bytes, pos, count) matches Ok((buffers, end)) ==> {
            &&& buffers.len() == count
            &&& pos <= end <= bytes.len()
            &&& bytes.subrange(pos, end) == buffers_layout(buffers)
            &&& forall|i: int| 0 <= i < buffers.len() ==> (#[trigger] buffers[i]).len() <= u64::MAX
        },
    decreases count,
{
    lemma_auto_spec_u64_to_from_le_bytes();
    if count > 0 {
        lemma_read_buffers_sound(bytes, pos, (count - 1) as nat);
        if let Ok((front, next)) = read_buffers(bytes, pos, (count - 1) as nat) {
            if let Ok((buffer, end)) = read_buffer(bytes, next) {
                assert(front.push(buffer).drop_last() =~= front);
            }
        }
    }
}

/// Where byte buffers are laid out, `read_buffers` reads them.
pub proof fn lemma_read_buffers_complete(bytes: Seq<u8>, pos: int, buffers: Seq<Seq<u8>>)
    requires
        0 <= pos,
        pos + buffers_layout(buffers).len() <= bytes.len(),
        bytes.subrange(pos, pos + buffers_layout(buffers).len()) == buffers_layout(buffers),
        forall|i: int| 0 <= i < buffers.len() ==> (#[trigger] buffers[i]).len() <= u64::MAX,
    ensures
        read_buffers(bytes, pos, buffers.len()) == Ok::<(Seq<Seq<u8>>, int), FormatError>(
            (buffers, pos + buffers_layout(buffers).len()),
        ),
    decreases buffers.len(),
{
    lemma_auto_spec_u64_to_from_le_bytes();
    if buffers.len() == 0 {
        assert(buffers =~= Seq::<Seq<u8>>::empty());
    } else {
        let front = buffers.drop_last();
        let last = buffers.last();
        let whole = buffers_layout(buffers);
        let next = pos + buffers_layout(front).len();
        let start = next + WORD_BYTES;
        let end = pos + whole.len();
        assert(bytes.subrange(pos, next) =~= whole.subrange(0, next - pos));
        assert(whole.subrange(0, next - pos) =~= buffers_layout(front));
        assert forall|i: int| 0 <= i < front.len() implies (#[trigger] front[i]).len()
            <= u64::MAX by {}
        lemma_read_buffers_complete(bytes, pos, front);
        assert(bytes.subrange(next, start) =~= whole.subrange(next - pos, start - pos));
        assert(whole.subrange(next - pos, start - pos) =~= length_prefix(last.len()));
        assert(bytes.subrange(start, end) =~= whole.subrange(start - pos, end - pos));
        assert(whole.subrange(start - pos, end - pos) =~= last);
        assert(front.push(last) =~= buffers);
    }
}

/// What `read_elements` reads is what is laid out there.
pub proof fn lemma_read_elements_sound(bytes: Seq<u8>, pos: int, count: nat)
    requires
        0 <= pos,
        pos + count * ELEMENT_BYTES <= bytes.len(),
    ensures
        elements_layout(read_elements(bytes, pos, count)) == bytes.subrange(
            pos,
            pos + count * ELEMENT_BYTES,
        ),
    decreases count,
{
    if count > 0 {
        let before = (count - 1) as nat;
        lemma_read_elements_sound(bytes, pos, before);
        assert(read_elements(bytes, pos, count).drop_last() =~= read_elements(bytes, pos, before));
    }
}

/// Where field elements are laid out, `read_elements` reads them.
pub proof fn lemma_read_elements_complete(bytes: Seq<u8>, pos: int, elements: Seq<Seq<u8>>)
    requires
        0 <= pos,
        forall|i: int| 0 <= i < elements.len() ==> (#[trigger] elements[i]).len() == ELEMENT_BYTES,
        pos + elements_layout(elements).len() <= bytes.len(),
        bytes.subrange(pos, pos + elements_layout(elements).len()) == elements_layout(elements),
    ensures
        read_elements(bytes, pos, elements.len()) == elements,
    decreases elements.len(),
{
    if elements.len() > 0 {
        let front = elements.drop_last();
        let last = elements.last();
        let whole = elements_layout(elements);
        let n = front.len();
        assert forall|i: int| 0 <= i < front.len() implies (#[trigger] front[i]).len()
            == ELEMENT_BYTES by {}
        lemma_elements_layout_len(front);
        lemma_elements_layout_len(elements);
        assert(bytes.subrange(pos, pos + n * ELEMENT_BYTES) =~= whole.subrange(
            0,
            n * ELEMENT_BYTES,
        ));
        assert(whole.subrange(0, n * ELEMENT_BYTES) =~= elements_layout(front));
        lemma_read_elements_complete(bytes, pos, front);
        let read = read_elements(bytes, pos, elements.len());
        assert(whole.subrange(n * ELEMENT_BYTES, n * ELEMENT_BYTES + ELEMENT_BYTES) =~= last);
        assert forall|i: int| 0 <= i < elements.len() implies read[i] == elements[i] by {
            if i < n {
                assert(front[i] == elements[i]);
            }
        }
    }
}

/// Once a buffer cannot be read, no count of buffers can: the error of a
/// smaller count is the error of every larger one.
pub proof fn lemma_read_buffers_error_persists(bytes: Seq<u8>, pos: int, fewer: nat, count: nat)
    requires
        fewer <= count,
        read_buffers(bytes, pos, fewer) is Err,
    ensures
        read_buffers(bytes, pos, count) == read_buffers(bytes, pos, fewer),
    decreases count - fewer,
{
    if fewer < count {
        lemma_read_buffers_error_persists(bytes, pos, fewer, (count - 1) as nat);
    }
}

/// What is read from bytes lays out as those bytes: a string of bytes
/// that reads as a guest input is the layout of that guest input.
pub proof fn lemma_parse_sound(bytes: Seq<u8>)
    ensures
        parse(bytes) matches Ok(v) ==> v.wf() && layout(v) == bytes,
{
    lemma_auto_spec_u64_to_from_le_bytes();
    if let Ok(v) = parse(bytes) {
        // The fields lie end to end in `bytes`, and each was read from the
        // bytes of its own layout.
        let (count, start) = read_word(bytes, 0).unwrap();
        lemma_read_buffers_sound(bytes, start, count as nat);
        let (proofs, next) = read_buffers(bytes, start, count as nat).unwrap();
        let (elements, first) = read_word(bytes, next).unwrap();
        lemma_read_elements_sound(bytes, first, elements as nat);
    }
}

/// Bytes that begin with the layout of a guest input read as that guest
/// input where nothing follows the layout, and are refused for their
/// trailing bytes where something does.
pub proof fn lemma_parse_from_layout_on(v: GuestInputView, bytes: Seq<u8>)
    requires
        v.wf(),
        layout(v).len() <= bytes.len(),
        bytes.take(layout(v).len() as int) == layout(v),
    ensures
        parse(bytes) == if bytes.len() == layout(v).len() {
            Ok::<GuestInputView, FormatError>(v)
        } else {
            Err::<GuestInputView, FormatError>(FormatError::TrailingBytes)
        },
{
    lemma_auto_spec_u64_to_from_le_bytes();
    lemma_buffers_layout_len(v.proofs);
    lemma_elements_layout_len(v.evaluation_point);
    let whole = layout(v);
    let proofs = buffers_layout(v.proofs);
    let point = elements_layout(v.evaluation_point);
    let start = WORD_BYTES as int;
    let next = start + proofs.len();
    let first = next + WORD_BYTES;
    let claim_at = first + point.len();
    let last_word = claim_at + ELEMENT_BYTES;
    let end = last_word + WORD_BYTES;
    // Up to `end` the bytes are those of the layout, field after field.
    assert forall|i: int| 0 <= i < end implies bytes[i] == whole[i] by {}
    assert(bytes.subrange(0, start) =~= length_prefix(v.proofs.len()));
    assert(bytes.subrange(start, next) =~= proofs);
    assert(bytes.subrange(next, first) =~= length_prefix(v.evaluation_point.len()));
    assert(bytes.subrange(first, claim_at) =~= point);
    assert(bytes.subrange(claim_at, last_word) =~= v.evaluation_claim);
    assert(bytes.subrange(last_word, end) =~= spec_u64_to_le_bytes(v.packed_log_len));
    lemma_read_buffers_complete(bytes, start, v.proofs);
    lemma_read_elements_complete(bytes, first, v.evaluation_point);
}

/// Reading undoes laying out: the layout of a guest input reads as that
/// guest input.
pub proof fn lemma_parse_complete(v: GuestInputView)
    requires
        v.wf(),
    ensures
        parse(layout(v)) == Ok::<GuestInputView, FormatError>(v),
{
    assert(layout(v).take(layout(v).len() as int) == layout(v));
    lemma_parse_from_layout_on(v, layout(v));
}

/// Bytes are refused for their trailing bytes exactly when they begin with
/// the layout of a guest input and go on after it.
pub proof fn lemma_trailing_bytes_follow_a_layout(bytes: Seq<u8>)
    ensures
        parse(bytes) == Err::<GuestInputView, FormatError>(FormatError::TrailingBytes)
            <==> exists|n: int| 0 <= n < bytes.len() && is_layout(#[trigger] bytes.take(n)),
{
    lemma_auto_spec_u64_to_from_le_bytes();
    if parse(bytes) == Err::<GuestInputView, FormatError>(FormatError::TrailingBytes) {
        let (count, start) = read_word(bytes, 0).unwrap();
        lemma_read_buffers_sound(bytes, start, count as nat);
        let (proofs, next) = read_buffers(bytes, start, count as nat).unwrap();
        lemma_buffers_layout_len(proofs);
        let (elements, first) = read_word(bytes, next).unwrap();
        let claim_at = first + elements * ELEMENT_BYTES;
        let end = claim_at + ELEMENT_BYTES + WORD_BYTES;
        // Every field was read, and the last ends at `end`, before the end
        // of the bytes: the bytes up to `end` read as a guest input.
        let front = bytes.take(end);
        lemma_read_buffers_errors(bytes, start, count as nat);
        assert(front.subrange(0, start) =~= bytes.subrange(0, start));
        assert(front.subrange(start, next) =~= bytes.subrange(start, next));
        lemma_read_buffers_complete(front, start, proofs);
        assert(front.subrange(next, first) =~= bytes.subrange(next, first));
        assert(read_elements(front, first, elements as nat) =~= read_elements(
            bytes,
            first,
            elements as nat,
        )) by {
            assert forall|i: int| 0 <= i < elements implies read_elements(
                front,
                first,
                elements as nat,
            )[i] =~= read_elements(bytes, first, elements as nat)[i] by {}
        }
        lemma_parse_ok_iff_layout(front);
    }
    if exists|n: int| 0 <= n < bytes.len() && is_layout(#[trigger] bytes.take(n)) {
        let n = choose|n: int| 0 <= n < bytes.len() && is_layout(#[trigger] bytes.take(n));
        let v = choose|v: GuestInputView| v.wf() && layout(v) == bytes.take(n);
        lemma_parse_from_layout_on(v, bytes);
    }
}

/// A layout cut short is refused for being short: what is left of the
/// layout of a guest input after bytes have been cut from its end is
/// truncated, or announces more than it holds.
pub proof fn lemma_cut_layout_is_short(v: GuestInputView, n: int)
    requires
        v.wf(),
        0 <= n < layout(v).len(),
    ensures
        parse(layout(v).take(n)) matches Err(e) && (e == FormatError::Truncated || e
            == FormatError::LengthOverrun),
{
    let whole = layout(v);
    let cut = whole.take(n);
    lemma_parse_complete(v);
    lemma_parse_ok_iff_layout(cut);
    lemma_parse_never_invalid_flag(cut);
    // Were a proper prefix of the layout itself a layout, or the extension
    // of one, the whole would be refused for its trailing bytes.
    if parse(cut) is Ok {
        let shorter = choose|w: GuestInputView| w.wf() && layout(w) == cut;
        lemma_parse_from_layout_on(shorter, whole);
    } else if parse(cut) == Err::<GuestInputView, FormatError>(FormatError::TrailingBytes) {
        lemma_trailing_bytes_follow_a_layout(cut);
        let m = choose|m: int| 0 <= m < cut.len() && is_layout(#[trigger] cut.take(m));
        let shorter = choose|w: GuestInputView| w.wf() && layout(w) == cut.take(m);
        assert(whole.take(m) =~= cut.take(m));
        lemma_parse_from_layout_on(shorter, whole);
    }
}

/// No guest input is refused for the byte of a truth value.
pub proof fn lemma_parse_never_invalid_flag(bytes: Seq<u8>)
    ensures
        parse(bytes) != Err::<GuestInputView, FormatError>(FormatError::InvalidFlag),
{
    if let Ok((count, start)) = read_word(bytes, 0) {
        lemma_read_buffers_errors(bytes, start, count as nat);
    }
}

/// Byte buffers are refused only for being short.
proof fn lemma_read_buffers_errors(bytes: Seq<u8>, pos: int, count: nat)
    ensures
        read_buffers(bytes, pos, count) matches Err(e) ==> e == FormatError::Truncated || e
            == FormatError::LengthOverrun,
    decreases count,
{
    if count > 0 {
        lemma_read_buffers_errors(bytes, pos, (count - 1) as nat);
    }
}

/// The strings of bytes that read as a guest input are the layouts of
/// guest inputs, and no others.
pub proof fn lemma_parse_ok_iff_layout(bytes: Seq<u8>)
    ensures
        parse(bytes) is Ok <==> is_layout(bytes),
{
    lemma_parse_sound(bytes);
    if parse(bytes) is Ok {
        let v = parse(bytes).unwrap();
    }
    if is_layout(bytes) {
        let v = choose|v: GuestInputView| v.wf() && layout(v) == bytes;
        lemma_parse_complete(v);
    }
}

/// Two guest inputs with one layout are one guest input.
pub proof fn lemma_layout_injective(a: GuestInputView, b: GuestInputView)
    requires
        a.wf(),
        b.wf(),
        layout(a) == layout(b),
    ensures
        a == b,
{
    lemma_parse_complete(a);
    lemma_parse_complete(b);
}

} // verus!
