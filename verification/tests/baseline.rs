use rs_ec_perf::shard::WrappedShard;
use rs_ec_perf::status_quo::{
    encode, join_data_shards, reconstruct, rs, to_shards, CodeShape, DATA_SHARDS, N_VALIDATORS,
    PARITY_SHARDS,
};

fn bytes_of(shards: &[WrappedShard]) -> Vec<Vec<u8>> {
    shards.iter().map(|s| s.clone().into_inner()).collect()
}

#[test]
fn shape_of_the_baseline() {
    assert_eq!(N_VALIDATORS, DATA_SHARDS + PARITY_SHARDS);
    assert_eq!(rs(), CodeShape { data_shards: DATA_SHARDS, parity_shards: PARITY_SHARDS });
}

#[test]
fn payload_is_cut_into_even_shards() {
    let payload: Vec<u8> = (1..=25).collect();
    let shards = bytes_of(&to_shards(&payload));
    assert_eq!(shards.len(), N_VALIDATORS);
    // 25 bytes over 10 shards: 3 each, rounded up to 4.
    for shard in &shards {
        assert_eq!(shard.len(), 4);
    }
    assert_eq!(shards[0], vec![1, 2, 3, 4]);
    assert_eq!(shards[5], vec![21, 22, 23, 24]);
    assert_eq!(shards[6], vec![25, 0, 0, 0]);
    for shard in &shards[7..] {
        assert_eq!(shard, &vec![0, 0, 0, 0]);
    }
}

#[test]
fn shard_lengths() {
    assert_eq!(to_shards(&[1])[0].len(), 2);
    assert_eq!(to_shards(&[1; 10])[0].len(), 2);
    assert_eq!(to_shards(&[1; 11])[0].len(), 2);
    assert_eq!(to_shards(&[1; 20])[0].len(), 2);
    assert_eq!(to_shards(&[1; 21])[0].len(), 4);
    assert_eq!(to_shards(&[1; 100])[0].len(), 10);
    assert_eq!(to_shards(&[1; 101])[0].len(), 12);
}

#[test]
fn payload_that_fills_the_data_shards() {
    let payload: Vec<u8> = (0..20).collect();
    let shards = bytes_of(&to_shards(&payload));
    for i in 0..10 {
        assert_eq!(shards[i], vec![2 * i as u8, 2 * i as u8 + 1]);
    }
    for i in 10..32 {
        assert_eq!(shards[i], vec![0, 0]);
    }
}

#[test]
fn encoding_keeps_the_data_and_adds_parity() {
    let payload: Vec<u8> = (1..=25).collect();
    let cut = bytes_of(&to_shards(&payload));
    let coded = bytes_of(&encode(&payload));
    assert_eq!(coded.len(), N_VALIDATORS);
    assert_eq!(&coded[..DATA_SHARDS], &cut[..DATA_SHARDS]);
    assert_ne!(&coded[DATA_SHARDS..], &cut[DATA_SHARDS..]);
    for shard in &coded {
        assert_eq!(shard.len(), 4);
    }
    assert_eq!(bytes_of(&encode(&payload)), coded);
}

#[test]
fn payload_survives_the_loss_of_the_data_shards() {
    let payload: Vec<u8> = (0..200).map(|i| (i * 7 + 1) as u8).collect();
    let shards = encode(&payload);
    let mut received: Vec<Option<WrappedShard>> = shards.into_iter().map(Some).collect();
    for i in 0..DATA_SHARDS {
        received[i] = None;
    }
    let recovered = reconstruct(received).unwrap();
    assert_eq!(recovered.len(), 200);
    assert_eq!(recovered, payload);
}

#[test]
fn payload_survives_the_loss_of_as_many_shards_as_parity() {
    let payload: Vec<u8> = (0..37).map(|i| (i * 3 + 2) as u8).collect();
    let shards = encode(&payload);
    let mut received: Vec<Option<WrappedShard>> = shards.into_iter().map(Some).collect();
    for i in 0..PARITY_SHARDS {
        received[(i * 3) % N_VALIDATORS] = None;
    }
    let present = received.iter().filter(|s| s.is_some()).count();
    assert_eq!(present, DATA_SHARDS);
    let recovered = reconstruct(received).unwrap();
    assert_eq!(&recovered[..37], &payload[..]);
    assert_eq!(&recovered[37..], &[0, 0, 0]);
}

#[test]
fn nothing_lost_joins_the_data_shards() {
    let payload: Vec<u8> = (0..20).collect();
    let received: Vec<Option<WrappedShard>> = encode(&payload).into_iter().map(Some).collect();
    assert_eq!(reconstruct(received), Some(payload));
}

#[test]
fn too_few_shards_are_not_recovered() {
    let payload: Vec<u8> = (0..20).collect();
    let shards = encode(&payload);
    let mut received: Vec<Option<WrappedShard>> = vec![None; N_VALIDATORS];
    for i in 0..DATA_SHARDS - 1 {
        received[i] = Some(shards[i].clone());
    }
    assert_eq!(reconstruct(received), None);
    assert_eq!(reconstruct(vec![None; N_VALIDATORS]), None);
}

#[test]
fn shards_that_do_not_fit_are_not_recovered() {
    let payload: Vec<u8> = (0..20).collect();
    let shards = encode(&payload);
    let received: Vec<Option<WrappedShard>> = shards.iter().take(31).cloned().map(Some).collect();
    assert_eq!(reconstruct(received), None);
    let mut received: Vec<Option<WrappedShard>> = shards.iter().cloned().map(Some).collect();
    received[4] = Some(WrappedShard::new(vec![1, 2, 3, 4]));
    assert_eq!(reconstruct(received), None);
    let mut received: Vec<Option<WrappedShard>> = shards.iter().cloned().map(Some).collect();
    received[0] = None;
    received[4] = Some(WrappedShard::new(Vec::new()));
    assert_eq!(reconstruct(received), None);
}

#[test]
fn joining_takes_the_first_shards_that_are_present() {
    let shards = vec![
        None,
        Some(WrappedShard::new(vec![1, 2])),
        None,
        Some(WrappedShard::new(vec![3, 4, 5, 6])),
        Some(WrappedShard::new(vec![7, 8])),
    ];
    assert_eq!(join_data_shards(shards.clone(), 2), vec![1, 2, 3, 4, 5, 6]);
    assert_eq!(join_data_shards(shards.clone(), 0), Vec::<u8>::new());
    assert_eq!(join_data_shards(shards.clone(), 3), vec![1, 2, 3, 4, 5, 6, 7, 8]);
    assert_eq!(join_data_shards(shards, 9), vec![1, 2, 3, 4, 5, 6, 7, 8]);
    assert_eq!(join_data_shards(Vec::new(), 4), Vec::<u8>::new());
}
