use bincode::Options;
use proof_of_proof::codec::{
    decode, decode_commitment, element_bytes, encode, encode_commitment, GuestInput,
};
use proof_of_proof::layout::FormatError;

fn element(low: u8) -> [u8; 16] {
    let mut bytes = [0u8; 16];
    bytes[0] = low;
    bytes
}

fn sample() -> GuestInput {
    GuestInput {
        proofs: vec![vec![1, 2, 3, 4, 5], vec![6, 7, 8, 9, 10]],
        evaluation_point: vec![element(1), element(2)],
        evaluation_claim: element(3),
        packed_log_len: 4,
    }
}

fn word(n: u64) -> Vec<u8> {
    n.to_le_bytes().to_vec()
}

/// The layout of `sample()`, written out by hand.
fn sample_bytes() -> Vec<u8> {
    let mut bytes = Vec::new();
    bytes.extend(word(2));
    bytes.extend(word(5));
    bytes.extend([1u8, 2, 3, 4, 5]);
    bytes.extend(word(5));
    bytes.extend([6u8, 7, 8, 9, 10]);
    bytes.extend(word(2));
    bytes.extend(element(1));
    bytes.extend(element(2));
    bytes.extend(element(3));
    bytes.extend(word(4));
    bytes
}

#[test]
fn two_proofs_round_trip_field_by_field() {
    let input = sample();
    let bytes = encode(&input);
    let decoded = decode(&bytes).unwrap();
    assert_eq!(decoded.proofs, vec![vec![1u8, 2, 3, 4, 5], vec![6u8, 7, 8, 9, 10]]);
    assert_eq!(
        decoded.evaluation_point,
        vec![
            [1u8, 0, 0, 0, 0, 0, 0, 0, 0, 0, 0, 0, 0, 0, 0, 0],
            [2u8, 0, 0, 0, 0, 0, 0, 0, 0, 0, 0, 0, 0, 0, 0, 0],
        ]
    );
    assert_eq!(decoded.evaluation_claim, [3u8, 0, 0, 0, 0, 0, 0, 0, 0, 0, 0, 0, 0, 0, 0, 0]);
    assert_eq!(decoded.packed_log_len, 4);
    assert_eq!(decoded, input);
}

#[test]
fn encode_gives_the_layout_byte_for_byte() {
    let bytes = encode(&sample());
    assert_eq!(bytes.len(), 8 + (8 + 5) * 2 + 8 + 16 * 2 + 16 + 8);
    assert_eq!(bytes, sample_bytes());
}

#[test]
fn encode_of_a_small_input_is_exact() {
    let input = GuestInput {
        proofs: vec![vec![0xAA]],
        evaluation_point: vec![],
        evaluation_claim: [0x10; 16],
        packed_log_len: 0x0102,
    };
    let mut expected: Vec<u8> = vec![1, 0, 0, 0, 0, 0, 0, 0];
    expected.extend([1u8, 0, 0, 0, 0, 0, 0, 0, 0xAA]);
    expected.extend([0u8; 8]);
    expected.extend([0x10u8; 16]);
    expected.extend([2u8, 1, 0, 0, 0, 0, 0, 0]);
    assert_eq!(encode(&input), expected);
    assert_eq!(decode(&expected), Ok(input));
}

#[test]
fn encode_is_deterministic() {
    assert_eq!(encode(&sample()), encode(&sample()));
    assert_eq!(encode(&sample()), encode(&sample().clone()));
}

#[test]
fn encode_is_the_serialisation_of_the_fields_as_a_tuple() {
    let data: Vec<Vec<u8>> = vec![vec![1, 2, 3, 4, 5], vec![6, 7, 8, 9, 10]];
    let evaluation_point: Vec<[u8; 16]> = vec![element(1), element(2)];
    let evaluation_claim: [u8; 16] = element(3);
    let packed_values_log_len: usize = 4;
    let tuple = (data, evaluation_point, evaluation_claim, packed_values_log_len);
    let serialized = bincode::serialize(&tuple).unwrap();
    assert_eq!(encode(&sample()), serialized);
}

#[test]
fn decode_agrees_with_deserialisation_of_the_tuple() {
    let bytes = encode(&sample());
    let tuple: (Vec<Vec<u8>>, Vec<[u8; 16]>, [u8; 16], usize) =
        bincode::deserialize(&bytes).unwrap();
    let decoded = decode(&bytes).unwrap();
    assert_eq!(decoded.proofs, tuple.0);
    assert_eq!(decoded.evaluation_point, tuple.1);
    assert_eq!(decoded.evaluation_claim, tuple.2);
    assert_eq!(decoded.packed_log_len, tuple.3 as u64);
    assert_eq!(tuple.0.len(), 2);
    assert_eq!(tuple.1.len(), 2);
    assert_eq!(tuple.3, 4);
}

#[test]
fn empty_input_round_trips() {
    let input = GuestInput {
        proofs: vec![],
        evaluation_point: vec![],
        evaluation_claim: [0; 16],
        packed_log_len: 0,
    };
    let bytes = encode(&input);
    assert_eq!(bytes, vec![0u8; 40]);
    assert_eq!(decode(&bytes), Ok(input));
}

#[test]
fn empty_proof_and_large_values_round_trip() {
    let input = GuestInput {
        proofs: vec![vec![], vec![0xFF; 300], vec![]],
        evaluation_point: vec![[0xFF; 16], [0; 16], element(7)],
        evaluation_claim: [0xAB; 16],
        packed_log_len: u64::MAX,
    };
    assert_eq!(decode(&encode(&input)), Ok(input));
}

/// A small generator of numbers that look random and are the same in every
/// run.
struct Numbers(u64);

impl Numbers {
    fn next(&mut self) -> u64 {
        self.0 = self.0.wrapping_mul(6364136223846793005).wrapping_add(1442695040888963407);
        self.0 >> 33
    }

    fn bytes(&mut self, len: usize) -> Vec<u8> {
        (0..len).map(|_| self.next() as u8).collect()
    }
}

#[test]
fn many_inputs_round_trip() {
    let mut numbers = Numbers(2024);
    for _ in 0..300 {
        let proofs = (0..numbers.next() % 5)
            .map(|_| {
                let len = (numbers.next() % 70) as usize;
                numbers.bytes(len)
            })
            .collect::<Vec<_>>();
        let evaluation_point = (0..numbers.next() % 6)
            .map(|_| {
                let mut element = [0u8; 16];
                element.copy_from_slice(&numbers.bytes(16));
                element
            })
            .collect::<Vec<_>>();
        let mut evaluation_claim = [0u8; 16];
        evaluation_claim.copy_from_slice(&numbers.bytes(16));
        let packed_log_len = numbers.next() << (numbers.next() % 32);
        let input = GuestInput { proofs, evaluation_point, evaluation_claim, packed_log_len };
        let bytes = encode(&input);
        let payload: usize = input.proofs.iter().map(|proof| 8 + proof.len()).sum();
        assert_eq!(bytes.len(), 8 + payload + 8 + 16 * input.evaluation_point.len() + 16 + 8);
        assert_eq!(decode(&bytes), Ok(input));
    }
}

#[test]
fn buffer_cut_inside_the_first_length_prefix_is_truncated() {
    let bytes = encode(&sample());
    assert_eq!(decode(&bytes[..5]), Err(FormatError::Truncated));
}

#[test]
fn no_bytes_at_all_are_truncated() {
    assert_eq!(decode(&[]), Err(FormatError::Truncated));
}

#[test]
fn every_proper_prefix_of_a_layout_is_refused() {
    let bytes = encode(&sample());
    for cut in 0..bytes.len() {
        let err = decode(&bytes[..cut]).unwrap_err();
        assert!(matches!(err, FormatError::Truncated | FormatError::LengthOverrun));
    }
    assert!(decode(&bytes).is_ok());
}

#[test]
fn buffer_cut_inside_a_proof_length_prefix_is_truncated() {
    // Two proofs are announced; the first has five bytes, and the length
    // prefix of the second is cut after its third byte.
    let mut bytes = word(2);
    bytes.extend(word(5));
    bytes.extend([1u8, 2, 3, 4, 5]);
    bytes.extend([5u8, 0, 0]);
    assert_eq!(decode(&bytes), Err(FormatError::Truncated));
}

#[test]
fn fewer_bytes_than_the_proofs_announced_need_is_an_overrun() {
    // One proof is announced, and three bytes follow: less than a length
    // prefix.
    let mut bytes = word(1);
    bytes.extend([5u8, 0, 0]);
    assert_eq!(decode(&bytes), Err(FormatError::LengthOverrun));
}

#[test]
fn buffer_cut_inside_the_element_count_is_truncated() {
    let mut bytes = word(0);
    bytes.extend([2u8, 0, 0, 0]);
    assert_eq!(decode(&bytes), Err(FormatError::Truncated));
}

#[test]
fn decode_accepts_what_strict_deserialisation_accepts() {
    type Fields = (Vec<Vec<u8>>, Vec<[u8; 16]>, [u8; 16], u64);
    let strict = |bytes: &[u8]| {
        bincode::options()
            .with_fixint_encoding()
            .reject_trailing_bytes()
            .deserialize::<Fields>(bytes)
            .ok()
    };
    let mut samples: Vec<Vec<u8>> = Vec::new();
    let whole = encode(&sample());
    for cut in 0..=whole.len() {
        samples.push(whole[..cut].to_vec());
    }
    let mut trailing = whole.clone();
    trailing.push(7);
    samples.push(trailing);
    let mut overrun = whole.clone();
    overrun[8] = 200;
    samples.push(overrun);
    let mut other = whole.clone();
    other[0] = 1;
    samples.push(other);
    samples.push(vec![0u8; 40]);
    samples.push(vec![0u8; 41]);
    samples.push(vec![0xFFu8; 64]);
    for bytes in samples {
        let ours = decode(&bytes).ok().map(|input| input.to_tuple());
        assert_eq!(ours, strict(&bytes));
    }
}

#[test]
fn buffer_cut_inside_the_claim_is_truncated() {
    let bytes = encode(&sample());
    let cut = bytes.len() - 8 - 9;
    assert_eq!(decode(&bytes[..cut]), Err(FormatError::Truncated));
}

#[test]
fn buffer_cut_inside_the_packed_length_is_truncated() {
    let bytes = encode(&sample());
    assert_eq!(decode(&bytes[..bytes.len() - 1]), Err(FormatError::Truncated));
    assert_eq!(decode(&bytes[..bytes.len() - 8]), Err(FormatError::Truncated));
}

#[test]
fn proof_count_beyond_the_bytes_left_is_an_overrun() {
    let mut bytes = word(1000);
    bytes.extend([0u8; 64]);
    assert_eq!(decode(&bytes), Err(FormatError::LengthOverrun));
    let mut bytes = word(u64::MAX);
    bytes.extend([0u8; 64]);
    assert_eq!(decode(&bytes), Err(FormatError::LengthOverrun));
}

#[test]
fn proof_length_beyond_the_bytes_left_is_an_overrun() {
    let mut bytes = word(1);
    bytes.extend(word(6));
    bytes.extend([1u8, 2, 3, 4, 5]);
    assert_eq!(decode(&bytes), Err(FormatError::LengthOverrun));
    let mut bytes = word(1);
    bytes.extend(word(u64::MAX));
    bytes.extend([0u8; 40]);
    assert_eq!(decode(&bytes), Err(FormatError::LengthOverrun));
}

#[test]
fn element_count_beyond_the_bytes_left_is_an_overrun() {
    let mut bytes = word(0);
    bytes.extend(word(3));
    bytes.extend([0u8; 47]);
    assert_eq!(decode(&bytes), Err(FormatError::LengthOverrun));
    let mut bytes = word(0);
    bytes.extend(word(u64::MAX / 16 + 1));
    bytes.extend([0u8; 48]);
    assert_eq!(decode(&bytes), Err(FormatError::LengthOverrun));
}

#[test]
fn bytes_after_the_last_field_are_refused() {
    let mut bytes = encode(&sample());
    bytes.push(0);
    assert_eq!(decode(&bytes), Err(FormatError::TrailingBytes));
    bytes.extend([1u8; 20]);
    assert_eq!(decode(&bytes), Err(FormatError::TrailingBytes));
}

#[test]
fn committed_truth_value_is_one_byte() {
    assert_eq!(encode_commitment(true), vec![1u8]);
    assert_eq!(encode_commitment(false), vec![0u8]);
    assert_eq!(encode_commitment(true), bincode::serialize(&true).unwrap());
}

#[test]
fn committed_truth_value_is_read_from_the_first_byte() {
    assert_eq!(decode_commitment(&[1]), Ok(true));
    assert_eq!(decode_commitment(&[0]), Ok(false));
    assert_eq!(decode_commitment(&encode_commitment(true)), Ok(true));
    assert_eq!(decode_commitment(&encode_commitment(false)), Ok(false));
    assert_eq!(decode_commitment(&[1, 9, 9]), Ok(true));
    assert_eq!(decode_commitment(&[0, 1]), Ok(false));
}

#[test]
fn committed_truth_value_of_no_bytes_is_truncated() {
    assert_eq!(decode_commitment(&[]), Err(FormatError::Truncated));
}

#[test]
fn committed_truth_value_of_another_byte_is_invalid() {
    assert_eq!(decode_commitment(&[2]), Err(FormatError::InvalidFlag));
    assert_eq!(decode_commitment(&[255, 1]), Err(FormatError::InvalidFlag));
}

#[test]
fn element_bytes_are_least_significant_first() {
    assert_eq!(element_bytes(1), element(1));
    assert_eq!(element_bytes(0x0102), {
        let mut e = [0u8; 16];
        e[0] = 2;
        e[1] = 1;
        e
    });
    assert_eq!(element_bytes(u128::MAX), [0xFF; 16]);
    assert_eq!(element_bytes(0x0f0e0d0c0b0a09080706050403020100), {
        let mut e = [0u8; 16];
        for i in 0..16 {
            e[i] = i as u8;
        }
        e
    });
}

#[test]
fn from_proofs_lays_the_elements_out() {
    let input = GuestInput::from_proofs(
        vec![vec![1, 2, 3, 4, 5], vec![6, 7, 8, 9, 10]],
        &[1, 2],
        3,
        4,
    );
    assert_eq!(input, sample());
    let (proofs, point, claim, log_len) = input.to_tuple();
    assert_eq!(proofs, sample().proofs);
    assert_eq!(point, vec![element(1), element(2)]);
    assert_eq!(claim, element(3));
    assert_eq!(log_len, 4);
}
