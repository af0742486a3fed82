use rand::seq::index::IndexVec;
use rs_ec_perf::gf::{FIELD_SIZE, MODULO};
use rs_ec_perf::novel_poly_basis::{
    check_shape, decode_main, encode, encode_high, encode_low, encode_with, eval_error_polynomial,
    reconstruct, reconstruct_with, CodecError, K, N,
};
use rs_ec_perf::shard::WrappedShard;
use rs_ec_perf::tables::Tables;

type GFSymbol = u16;

const CODEWORD_OF_SQUARES: [u16; 32] = [
    0, 1, 4, 9, 7, 3, 11, 3, 15, 15, 2, 14, 3, 6, 6, 15, 168, 162, 107, 109, 253, 242, 54, 53, 189,
    182, 119, 112, 227, 237, 33, 35,
];

#[test]
fn ported_c_test() {
    let t = Tables::new();

    //-----------Generating message----------
    //message array
    let mut data: [GFSymbol; N] = [0; N];

    for i in 0..K {
        //filled with random numbers
        data[i] = (i * i % MODULO as usize) as u16;
    }

    assert_eq!(data.len(), N);

    println!("Message(Last n-k are zeros): ");
    println!("{}", (0..K).map(|i| format!("{:04x} ", data[i])).collect::<String>());

    //---------encoding----------
    let mut codeword = [0_u16; N];

    if K + K > N && false {
        let (data_till_t, data_skip_t) = data.split_at_mut(N - K);
        encode_high(&t, data_skip_t, K, data_till_t, &mut codeword[..], N);
    } else {
        encode_low(&t, &data[..], K, &mut codeword[..], N);
    }

    //--------erasure simulation---------

    // Array indicating erasures
    let mut erasure = [false; N];

    let erasures_iv = IndexVec::from((0..(N - K)).into_iter().collect::<Vec<usize>>());
    assert_eq!(erasures_iv.len(), N - K);

    for i in erasures_iv {
        //erasure codeword symbols
        erasure[i] = true;
        codeword[i] = 0 as GFSymbol;
    }

    //---------Erasure decoding----------------
    let mut log_walsh2: Vec<GFSymbol> = vec![0_u16; FIELD_SIZE];

    eval_error_polynomial(&t, &erasure[..], &mut log_walsh2[..], FIELD_SIZE);

    decode_main(&t, &mut codeword[..], K, &erasure[..], &log_walsh2[..], N);

    println!("Decoded result:");
    println!("{}", (0..N).map(|i| format!("{:04x} ", codeword[i])).collect::<String>());

    for i in 0..K {
        //Check the correctness of the result
        if data[i] != codeword[i] {
            println!("🐍🐍🐍🐍🐍🐍🐍🐍🐍🐍🐍🐍🐍🐍🐍🐍🐍");
            panic!(
                "Decoding ERROR! value at [{}] should={:04x} vs is={:04x}",
                i, data[i], codeword[i]
            );
        }
    }
    println!(
        r#">>>>>>>>> 🎉🎉🎉🎉
>>>>>>>>> > Decoding is **SUCCESS** ful! 🎈
>>>>>>>>>"#
    );
}

fn squares() -> Vec<u16> {
    let mut data = vec![0u16; 32];
    for i in 0..4 {
        data[i] = (i * i) as u16;
    }
    data
}

#[test]
fn codeword_of_the_squares() {
    let t = Tables::new();
    let data = squares();
    let mut codeword = vec![0u16; 32];
    encode_low(&t, &data, 4, &mut codeword, 32);
    assert_eq!(codeword, CODEWORD_OF_SQUARES.to_vec());
}

#[test]
fn data_symbols_stay_in_front() {
    let t = Tables::new();
    for (n, k) in [(2usize, 1usize), (8, 4), (32, 4), (64, 16), (1024, 512)] {
        let data: Vec<u16> = (0..n).map(|i| (i * 2654 + 77) as u16).collect();
        let mut codeword = vec![0u16; n];
        encode_low(&t, &data, k, &mut codeword, n);
        assert_eq!(&codeword[..k], &data[..k]);
    }
}

#[test]
fn symbols_after_the_data_do_not_count() {
    let t = Tables::new();
    let data = squares();
    let mut other = squares();
    for i in 4..32 {
        other[i] = 1000 + i as u16;
    }
    let mut codeword = vec![0u16; 32];
    encode_low(&t, &other, 4, &mut codeword, 32);
    assert_eq!(codeword, CODEWORD_OF_SQUARES.to_vec());
    let mut again = vec![7u16; 32];
    encode_low(&t, &data, 4, &mut again, 32);
    assert_eq!(again, codeword);
}

#[test]
fn locator_values() {
    let t = Tables::new();
    let mut erasure = [false; 32];
    for i in 0..28 {
        erasure[i] = true;
    }
    let mut log_walsh2 = vec![0u16; FIELD_SIZE];
    eval_error_polynomial(&t, &erasure, &mut log_walsh2, FIELD_SIZE);
    assert_eq!(&log_walsh2[..8], &[8738, 8738, 8738, 8738, 34952, 34952, 34952, 34952]);
    assert_eq!(log_walsh2[31], 65535);
    assert_eq!(log_walsh2[32], 4369);
    assert_eq!(log_walsh2[65535], 5231);
    let sum: u64 = log_walsh2.iter().map(|x| *x as u64).sum();
    assert_eq!(sum % 1000003, 667530);
}

#[test]
fn locator_overwrites_what_was_there() {
    let t = Tables::new();
    let mut erasure = [false; 32];
    for i in 0..28 {
        erasure[i] = true;
    }
    let mut clean = vec![0u16; FIELD_SIZE];
    eval_error_polynomial(&t, &erasure, &mut clean, FIELD_SIZE);
    let mut dirty = vec![0xABCDu16; FIELD_SIZE + 3];
    eval_error_polynomial(&t, &erasure, &mut dirty, FIELD_SIZE);
    assert_eq!(&dirty[..FIELD_SIZE], &clean[..]);
    assert_eq!(&dirty[FIELD_SIZE..], &[0xABCD, 0xABCD, 0xABCD]);
}

#[test]
fn decoder_leaves_zero_at_known_positions() {
    let t = Tables::new();
    let mut erasure = [false; 32];
    for i in 0..28 {
        erasure[i] = true;
    }
    let mut codeword = CODEWORD_OF_SQUARES.to_vec();
    for i in 0..28 {
        codeword[i] = 0;
    }
    let mut log_walsh2 = vec![0u16; FIELD_SIZE];
    eval_error_polynomial(&t, &erasure, &mut log_walsh2, FIELD_SIZE);
    decode_main(&t, &mut codeword, 4, &erasure, &log_walsh2, 32);
    let mut expected = CODEWORD_OF_SQUARES.to_vec();
    for i in 28..32 {
        expected[i] = 0;
    }
    assert_eq!(codeword, expected);
}

fn round_trip(t: &Tables, n: usize, k: usize, erased: &[usize], seed: usize) {
    let mut data = vec![0u16; n];
    for i in 0..k {
        data[i] = ((i * 31 + seed * 7919 + 5) % 65536) as u16;
    }
    let mut codeword = vec![0u16; n];
    encode_low(t, &data, k, &mut codeword, n);
    let mut erasure = vec![false; n];
    let mut received = codeword.clone();
    for &i in erased {
        erasure[i] = true;
        received[i] = 0;
    }
    let mut log_walsh2 = vec![0u16; FIELD_SIZE];
    eval_error_polynomial(t, &erasure, &mut log_walsh2, FIELD_SIZE);
    decode_main(t, &mut received, k, &erasure, &log_walsh2, n);
    for i in 0..n {
        if erasure[i] {
            assert_eq!(received[i], codeword[i]);
        } else {
            assert_eq!(received[i], 0);
        }
    }
}

#[test]
fn round_trips_with_as_many_erasures_as_parity() {
    let t = Tables::new();
    round_trip(&t, 2, 1, &[0], 1);
    round_trip(&t, 2, 1, &[1], 2);
    round_trip(&t, 8, 4, &[0, 1, 2, 3], 3);
    round_trip(&t, 8, 2, &[7, 1, 4, 2, 0, 5], 4);
    let last: Vec<usize> = (4..32).collect();
    round_trip(&t, 32, 4, &last, 5);
    let spread: Vec<usize> = (0..32).filter(|i| i % 8 != 3).collect();
    round_trip(&t, 32, 4, &spread, 6);
    let half: Vec<usize> = (0..1024).filter(|i| i % 2 == 0).collect();
    round_trip(&t, 1024, 512, &half, 7);
}

#[test]
fn round_trips_with_fewer_erasures() {
    let t = Tables::new();
    round_trip(&t, 32, 4, &[], 1);
    round_trip(&t, 32, 4, &[0], 2);
    round_trip(&t, 32, 4, &[3, 17, 31], 3);
    round_trip(&t, 64, 32, &[0, 1, 2, 40], 4);
}

#[test]
fn round_trip_over_the_whole_field() {
    let t = Tables::new();
    let erased: Vec<usize> = (0..65536).filter(|i| i % 4 != 1).collect();
    round_trip(&t, 65536, 16384, &erased, 9);
}

#[test]
fn parity_at_high_rate() {
    let t = Tables::new();
    let mut parity = vec![9u16; 3];
    let mut mem = vec![7u16; 4];
    encode_high(&t, &[10, 20, 30, 40, 50, 60], 6, &mut parity, &mut mem, 8);
    assert_eq!(parity, vec![248, 222, 9]);
    assert_eq!(mem, vec![62, 14, 7, 7]);
    let mut parity = vec![0u16; 4];
    let mut mem = vec![0u16; 4];
    let data: Vec<u16> = (1..=12).collect();
    encode_high(&t, &data, 12, &mut parity, &mut mem, 16);
    assert_eq!(parity, vec![1, 5, 5, 13]);
    assert_eq!(mem, vec![15, 14, 9, 4]);
}

#[test]
fn short_data_at_high_rate_counts_as_followed_by_zeros() {
    let t = Tables::new();
    let mut parity = vec![0u16; 2];
    let mut mem = vec![0u16; 2];
    encode_high(&t, &[10, 20, 30, 40, 50, 60], 6, &mut parity, &mut mem, 8);
    let mut short_parity = vec![0u16; 2];
    let mut short_mem = vec![0u16; 2];
    encode_high(&t, &[10, 20, 30, 40, 50], 6, &mut short_parity, &mut short_mem, 8);
    let mut zero_parity = vec![0u16; 2];
    let mut zero_mem = vec![0u16; 2];
    encode_high(&t, &[10, 20, 30, 40, 50, 0], 6, &mut zero_parity, &mut zero_mem, 8);
    assert_eq!(short_parity, zero_parity);
    assert_ne!(short_parity, parity);
}

#[test]
fn no_data_at_high_rate_gives_zero_parity() {
    let t = Tables::new();
    let mut parity = vec![5u16; 4];
    let mut mem = vec![6u16; 4];
    encode_high(&t, &[], 0, &mut parity, &mut mem, 4);
    assert_eq!(parity, vec![0, 0, 0, 0]);
    assert_eq!(mem, vec![6, 6, 6, 6]);
}

fn symbols_of(shards: &[WrappedShard]) -> Vec<u16> {
    shards
        .iter()
        .map(|s| {
            let bytes = s.clone().into_inner();
            assert_eq!(bytes.len(), 2);
            u16::from_le_bytes([bytes[0], bytes[1]])
        })
        .collect()
}

#[test]
fn shards_of_four_bytes() {
    let shards = encode(&[0x00, 0x01, 0x02, 0x03]);
    assert_eq!(shards.len(), 32);
    assert_eq!(
        symbols_of(&shards),
        vec![
            256, 770, 0, 0, 1881, 1735, 3131, 4007, 317, 2243, 419, 2655, 2448, 1010, 876, 2828,
            49633, 52503, 60155, 58383, 61824, 65258, 53496, 56720, 31405, 32167, 20521, 21793,
            17464, 16558, 25822, 25162
        ]
    );
}

#[test]
fn shards_of_seven_bytes_are_padded_to_eight() {
    let shards = encode(&[1, 2, 3, 4, 5, 6, 7]);
    assert_eq!(
        symbols_of(&shards),
        vec![
            513, 1027, 1541, 7, 2758, 3268, 3778, 2240, 2568, 3082, 3596, 2062, 719, 1229, 1739,
            201, 28594, 27056, 27574, 28084, 26485, 24951, 25457, 25971, 26555, 25017, 25535,
            26045, 28540, 27006, 27512, 28026
        ]
    );
    let padded = encode(&[1, 2, 3, 4, 5, 6, 7, 0]);
    assert_eq!(symbols_of(&padded), symbols_of(&shards));
}

#[test]
fn shards_of_nothing_and_of_one_byte() {
    // One byte is a payload of padded length one: it holds no whole symbol.
    assert_eq!(symbols_of(&encode(&[])), vec![0u16; 32]);
    assert_eq!(symbols_of(&encode(&[0xAB])), vec![0u16; 32]);
    let two = symbols_of(&encode(&[0xAB, 0xCD]));
    assert_eq!(two[0], 0xCDAB);
    assert_eq!(&two[1..4], &[0, 0, 0]);
}

#[test]
fn payload_of_sixty_four_bytes_fills_the_message() {
    let payload: Vec<u8> = (0..64).collect();
    let symbols = symbols_of(&encode(&payload));
    let t = Tables::new();
    let data: Vec<u16> = (0..32).map(|i| u16::from_le_bytes([2 * i, 2 * i + 1])).collect();
    let mut codeword = vec![0u16; 32];
    encode_low(&t, &data, 4, &mut codeword, 32);
    assert_eq!(symbols, codeword);
    assert_eq!(&symbols[..4], &data[..4]);
}

#[test]
fn payload_survives_the_loss_of_four_shards() {
    let payload = [0x00u8, 0x01, 0x02, 0x03];
    let shards = encode(&payload);
    for lost in [[0usize, 1, 2, 3], [4, 5, 6, 7], [0, 9, 18, 31], [1, 2, 30, 31]] {
        let mut received: Vec<Option<WrappedShard>> = shards.iter().cloned().map(Some).collect();
        for i in lost {
            received[i] = None;
        }
        let recovered = reconstruct(received).unwrap();
        assert_eq!(recovered.len(), 64);
        assert_eq!(&recovered[..4], &payload);
    }
}

#[test]
fn payload_survives_the_loss_of_all_but_four_shards() {
    let payload = [0xDEu8, 0xAD, 0xBE, 0xEF, 1, 2, 3, 4];
    let shards = encode(&payload);
    let whole: Vec<u8> = shards.iter().flat_map(|s| s.clone().into_inner()).collect();
    for kept in [[0usize, 1, 2, 3], [28, 29, 30, 31], [5, 11, 17, 23]] {
        let mut received: Vec<Option<WrappedShard>> = vec![None; 32];
        for i in kept {
            received[i] = Some(shards[i].clone());
        }
        let recovered = reconstruct(received).unwrap();
        assert_eq!(&recovered[..8], &payload);
        assert_eq!(recovered, whole);
    }
}

#[test]
fn nothing_lost_gives_the_codeword_back() {
    let shards = encode(&[9, 8, 7, 6, 5]);
    let whole: Vec<u8> = shards.iter().flat_map(|s| s.clone().into_inner()).collect();
    let received: Vec<Option<WrappedShard>> = shards.into_iter().map(Some).collect();
    assert_eq!(reconstruct(received), Some(whole));
}

#[test]
fn too_few_shards_are_refused() {
    let shards = encode(&[0x00, 0x01, 0x02, 0x03]);
    let mut received: Vec<Option<WrappedShard>> = vec![None; 32];
    for i in 0..3 {
        received[i] = Some(shards[i].clone());
    }
    assert_eq!(reconstruct(received.clone()), None);
    let t = Tables::new();
    assert_eq!(reconstruct_with(&t, received, 32, 4), Err(CodecError::InsufficientShards));
    assert_eq!(reconstruct_with(&t, vec![None; 32], 32, 4), Err(CodecError::InsufficientShards));
}

#[test]
fn shards_of_the_wrong_size_are_refused() {
    let shards = encode(&[0x00, 0x01, 0x02, 0x03]);
    let t = Tables::new();
    let mut received: Vec<Option<WrappedShard>> = shards.iter().cloned().map(Some).collect();
    received[5] = Some(WrappedShard::new(vec![1, 2, 3, 4]));
    assert_eq!(reconstruct(received.clone()), None);
    assert_eq!(reconstruct_with(&t, received, 32, 4), Err(CodecError::ShardSizeMismatch));
    let mut received: Vec<Option<WrappedShard>> = vec![None; 32];
    received[0] = Some(WrappedShard::new(Vec::new()));
    assert_eq!(reconstruct_with(&t, received, 32, 4), Err(CodecError::ShardSizeMismatch));
}

#[test]
fn the_wrong_number_of_shards_is_refused() {
    let shards = encode(&[0x00, 0x01, 0x02, 0x03]);
    let t = Tables::new();
    let received: Vec<Option<WrappedShard>> = shards.iter().take(31).cloned().map(Some).collect();
    assert_eq!(reconstruct(received.clone()), None);
    assert_eq!(reconstruct_with(&t, received, 32, 4), Err(CodecError::InvalidShape));
    assert_eq!(reconstruct(Vec::new()), None);
}

#[test]
fn shapes() {
    assert_eq!(check_shape(32, 4), Ok(()));
    assert_eq!(check_shape(1, 1), Ok(()));
    assert_eq!(check_shape(65536, 65536), Ok(()));
    assert_eq!(check_shape(65536, 1), Ok(()));
    assert_eq!(check_shape(0, 0), Err(CodecError::InvalidShape));
    assert_eq!(check_shape(32, 0), Err(CodecError::InvalidShape));
    assert_eq!(check_shape(32, 3), Err(CodecError::InvalidShape));
    assert_eq!(check_shape(24, 4), Err(CodecError::InvalidShape));
    assert_eq!(check_shape(4, 8), Err(CodecError::InvalidShape));
    assert_eq!(check_shape(100000, 4), Err(CodecError::InvalidShape));
    assert_eq!(check_shape(131072, 4), Err(CodecError::FieldTooSmall));
    assert_eq!(check_shape(1 << 20, 1 << 20), Err(CodecError::FieldTooSmall));
}

#[test]
fn bad_shapes_are_refused_before_any_work() {
    let t = Tables::new();
    assert_eq!(encode_with(&t, &[1, 2], 24, 4), Err(CodecError::InvalidShape));
    assert_eq!(encode_with(&t, &[1, 2], 32, 5), Err(CodecError::InvalidShape));
    assert_eq!(encode_with(&t, &[1, 2], 131072, 4), Err(CodecError::FieldTooSmall));
    assert_eq!(reconstruct_with(&t, vec![None; 24], 24, 4), Err(CodecError::InvalidShape));
    assert_eq!(reconstruct_with(&t, Vec::new(), 131072, 4), Err(CodecError::FieldTooSmall));
}

#[test]
fn other_shapes_round_trip() {
    let t = Tables::new();
    for (n, k) in [(2usize, 1usize), (8, 2), (16, 8), (256, 64)] {
        let payload: Vec<u8> = (0..2 * k).map(|i| (i * 37 + 11) as u8).collect();
        let shards = encode_with(&t, &payload, n, k).unwrap();
        assert_eq!(shards.len(), n);
        let mut received: Vec<Option<WrappedShard>> = vec![None; n];
        for i in 0..k {
            let at = n - 1 - 2 * i % n;
            let at = if received[at].is_some() { i } else { at };
            received[at] = Some(shards[at].clone());
        }
        let present = received.iter().filter(|s| s.is_some()).count();
        assert_eq!(present, k);
        let recovered = reconstruct_with(&t, received, n, k).unwrap();
        assert_eq!(recovered.len(), 2 * n);
        assert_eq!(&recovered[..2 * k], &payload[..]);
    }
}

#[test]
fn a_code_without_parity_hands_the_message_on() {
    let t = Tables::new();
    let payload: Vec<u8> = (1..=16).collect();
    let shards = encode_with(&t, &payload, 8, 8).unwrap();
    let bytes: Vec<u8> = shards.iter().flat_map(|s| s.clone().into_inner()).collect();
    assert_eq!(bytes, payload);
    let received: Vec<Option<WrappedShard>> = shards.iter().cloned().map(Some).collect();
    assert_eq!(reconstruct_with(&t, received, 8, 8), Ok(payload));
    let mut received: Vec<Option<WrappedShard>> = shards.into_iter().map(Some).collect();
    received[3] = None;
    assert_eq!(reconstruct_with(&t, received, 8, 8), Err(CodecError::InsufficientShards));
    let one = encode_with(&t, &[0x34, 0x12], 1, 1).unwrap();
    assert_eq!(symbols_of(&one), vec![0x1234]);
    assert_eq!(reconstruct_with(&t, vec![Some(one[0].clone())], 1, 1), Ok(vec![0x34, 0x12]));
}

#[test]
fn encoding_twice_gives_the_same_shards() {
    let payload: Vec<u8> = (0..40).map(|i| (i * 5 + 3) as u8).collect();
    assert_eq!(encode(&payload), encode(&payload));
    let shards = encode(&payload);
    let mut received: Vec<Option<WrappedShard>> = shards.into_iter().map(Some).collect();
    received[0] = None;
    received[13] = None;
    assert_eq!(reconstruct(received.clone()), reconstruct(received));
}

#[test]
fn a_shard_of_odd_length_gets_a_zero_byte() {
    assert_eq!(WrappedShard::new(vec![1, 2, 3]).into_inner(), vec![1, 2, 3, 0]);
    assert_eq!(WrappedShard::new(vec![1, 2]).into_inner(), vec![1, 2]);
    assert_eq!(WrappedShard::new(Vec::new()).len(), 0);
    let shard = WrappedShard::new(vec![7]);
    assert_eq!(shard.as_slice(), &[7, 0]);
    assert_eq!(shard.clone(), shard);
    assert_eq!(shard.len(), 2);
}

#[test]
fn round_trip_at_high_rate() {
    let t = Tables::new();
    for (n, k, erased) in [
        (8usize, 6usize, vec![0usize, 7]),
        (16, 12, vec![3, 4, 5, 15]),
        (32, 16, (0..16).collect::<Vec<usize>>()),
        (64, 62, vec![1, 63]),
        (4, 0, vec![0, 1, 2, 3]),
    ] {
        let parity_len = n - k;
        let data: Vec<u16> = (0..k).map(|i| (i * 517 + 29) as u16).collect();
        let mut parity = vec![0u16; parity_len];
        let mut mem = vec![0u16; parity_len];
        encode_high(&t, &data, k, &mut parity, &mut mem, n);
        let mut codeword = parity.clone();
        codeword.extend_from_slice(&data);
        let mut erasure = vec![false; n];
        let mut received = codeword.clone();
        for i in erased {
            erasure[i] = true;
            received[i] = 0;
        }
        let mut log_walsh2 = vec![0u16; FIELD_SIZE];
        eval_error_polynomial(&t, &erasure, &mut log_walsh2, FIELD_SIZE);
        decode_main(&t, &mut received, k, &erasure, &log_walsh2, n);
        for i in 0..n {
            if erasure[i] {
                assert_eq!(received[i], codeword[i]);
            } else {
                assert_eq!(received[i], 0);
            }
        }
    }
}

#[test]
fn locator_is_the_product_of_the_differences() {
    let t = Tables::new();
    let mut erasure = vec![false; 32];
    for i in [1usize, 5, 6, 20] {
        erasure[i] = true;
    }
    let mut log_walsh2 = vec![0u16; FIELD_SIZE];
    eval_error_polynomial(&t, &erasure, &mut log_walsh2, FIELD_SIZE);
    for p in [0usize, 2, 31, 255, 40000, 65535] {
        let mut product: u16 = 1;
        for e in [1usize, 5, 6, 20] {
            product = rs_ec_perf::tables::mul_table(&t, product, t.log_of((p ^ e) as u16));
        }
        assert_eq!(t.exp_of(log_walsh2[p]), product);
    }
}

#[test]
fn round_trips_with_random_erasures() {
    let t = Tables::new();
    let mut rng = rand::thread_rng();
    for (n, k) in [(32usize, 4usize), (64, 32), (256, 16), (4096, 1024)] {
        for trial in 0..8 {
            let erased: Vec<usize> = rand::seq::index::sample(&mut rng, n, n - k).into_vec();
            round_trip(&t, n, k, &erased, trial);
        }
    }
}
