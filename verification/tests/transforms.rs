use rand::distributions::{Distribution, Uniform};
use rand::thread_rng;
use rs_ec_perf::afft::{fft_in_novel_poly_basis, formal_derivative, inverse_fft_in_novel_poly_basis};
use rs_ec_perf::gf::MODULO;
use rs_ec_perf::tables::Tables;
use rs_ec_perf::walsh::walsh;

type GFSymbol = u16;

/// Generate a random index
fn rand_gf_element() -> GFSymbol {
    let mut rng = thread_rng();
    let uni = Uniform::<GFSymbol>::new_inclusive(0, MODULO);
    uni.sample(&mut rng)
}

#[test]
fn flt_back_and_forth() {
    const N: usize = 128;
    const K: usize = 32;
    let t = Tables::new();
    let mut data = (0..N).into_iter().map(|_x| rand_gf_element()).collect::<Vec<GFSymbol>>();
    let expected = data.clone();

    fft_in_novel_poly_basis(&t, &mut data, N, K);

    // make sure something is done
    assert!(data.iter().zip(expected.iter()).filter(|(a, b)| { a != b }).count() > 0);

    inverse_fft_in_novel_poly_basis(&t, &mut data, N, K);

    itertools::assert_equal(data, expected);
}

#[test]
fn flt_rountrip_small() {
    const N: usize = 16;
    const EXPECTED: [GFSymbol; N] = [1, 2, 3, 5, 8, 13, 21, 44, 65, 0, 0xFFFF, 2, 3, 5, 7, 11];
    let t = Tables::new();

    let mut data = EXPECTED.clone();

    fft_in_novel_poly_basis(&t, &mut data, N, N / 4);

    println!("novel basis(rust):");
    println!("{}", data.iter().map(|sym| format!(" {:04X}", sym)).collect::<String>());

    inverse_fft_in_novel_poly_basis(&t, &mut data, N, N / 4);
    itertools::assert_equal(data.iter(), EXPECTED.iter());
}

#[test]
fn transform_values() {
    let t = Tables::new();
    let input: [u16; 16] = [1, 2, 3, 5, 8, 13, 21, 44, 65, 0, 0xFFFF, 2, 3, 5, 7, 11];
    let mut data = input;
    fft_in_novel_poly_basis(&t, &mut data, 16, 4);
    assert_eq!(
        data,
        [
            47628, 47622, 65353, 65349, 26836, 26735, 11691, 11573, 31646, 31633, 49442, 49449,
            43514, 43293, 4905, 5090
        ]
    );
    let mut data = input;
    inverse_fft_in_novel_poly_basis(&t, &mut data, 16, 0);
    assert_eq!(
        data,
        [
            1, 3, 10, 5, 74, 22, 250, 57, 43456, 33922, 60465, 47688, 53945, 60463, 26690, 65423
        ]
    );
}

#[test]
fn transform_leaves_the_rest_alone() {
    let t = Tables::new();
    let mut data: Vec<u16> = (1..=12).collect();
    fft_in_novel_poly_basis(&t, &mut data, 8, 8);
    assert_eq!(&data[8..], &[9, 10, 11, 12]);
    assert_ne!(&data[..8], &[1, 2, 3, 4, 5, 6, 7, 8]);
    inverse_fft_in_novel_poly_basis(&t, &mut data, 8, 8);
    assert_eq!(data, (1..=12).collect::<Vec<u16>>());
}

#[test]
fn transform_of_one_symbol_is_the_symbol() {
    let t = Tables::new();
    let mut data: Vec<u16> = vec![4711];
    fft_in_novel_poly_basis(&t, &mut data, 1, 0);
    assert_eq!(data, vec![4711]);
    inverse_fft_in_novel_poly_basis(&t, &mut data, 1, 65535);
    assert_eq!(data, vec![4711]);
}

#[test]
fn inverse_undoes_transform_at_many_sizes() {
    let t = Tables::new();
    let mut n: usize = 2;
    while n <= 1 << 13 {
        for s in [0, n, n / 4, 3 * n] {
            let input: Vec<u16> = (0..n).map(|i| ((i * 40503 + 17 * s + 1) % 65536) as u16).collect();
            let mut data = input.clone();
            fft_in_novel_poly_basis(&t, &mut data, n, s);
            inverse_fft_in_novel_poly_basis(&t, &mut data, n, s);
            assert_eq!(data, input);
        }
        n *= 2;
    }
}

#[test]
fn inverse_undoes_transform_at_the_end_of_the_window() {
    let t = Tables::new();
    let input: Vec<u16> = (0..32768u32).map(|i| (i * 3 + 1) as u16).collect();
    let mut data = input.clone();
    fft_in_novel_poly_basis(&t, &mut data, 32768, 32768);
    assert_ne!(data, input);
    inverse_fft_in_novel_poly_basis(&t, &mut data, 32768, 32768);
    assert_eq!(data, input);
}

#[test]
fn walsh_values() {
    let mut data: Vec<u16> = vec![1, 2, 3, 4, 5, 6, 7, 8];
    walsh(&mut data, 8);
    assert_eq!(data, vec![36, 65531, 65527, 65535, 65519, 65535, 65535, 65535]);
    let mut data: Vec<u16> = vec![65535, 1, 0, 65534];
    walsh(&mut data, 4);
    assert_eq!(data, vec![65535, 65535, 2, 65533]);
}

#[test]
fn walsh_leaves_the_rest_alone() {
    let mut data: Vec<u16> = vec![1, 2, 3, 4, 5, 6];
    walsh(&mut data, 4);
    assert_eq!(data, vec![10, 65533, 65531, 65535, 5, 6]);
    let mut one: Vec<u16> = vec![9, 9];
    walsh(&mut one, 1);
    assert_eq!(one, vec![9, 9]);
}

#[test]
fn walsh_twice_scales_by_the_length() {
    for n in [1usize, 2, 8, 256, 65536] {
        let input: Vec<u16> = (0..n).map(|i| ((i * 7919 + 13) % 65536) as u16).collect();
        let mut data = input.clone();
        walsh(&mut data, n);
        walsh(&mut data, n);
        for i in 0..n {
            assert_eq!(data[i] as u64 % 65535, (n as u64 * input[i] as u64) % 65535);
        }
    }
}

#[test]
fn derivative_values() {
    let input: [u16; 16] = [1, 2, 3, 5, 8, 13, 21, 44, 65, 0, 0xFFFF, 2, 3, 5, 7, 11];
    let mut data = input;
    formal_derivative(&mut data, 16);
    assert_eq!(data, [73, 10, 65516, 43, 19, 36, 62, 39, 65469, 7, 65530, 9, 1, 14, 12, 11]);
    let mut data = input;
    formal_derivative(&mut data, 8);
    assert_eq!(data, [73, 10, 65516, 43, 19, 36, 62, 39, 65, 0, 65535, 2, 3, 5, 7, 11]);
}

#[test]
fn derivative_at_the_edges() {
    let mut empty: Vec<u16> = Vec::new();
    formal_derivative(&mut empty, 0);
    assert!(empty.is_empty());
    let mut one: Vec<u16> = vec![5];
    formal_derivative(&mut one, 1);
    assert_eq!(one, vec![5]);
    // One coefficient more than there are: the missing one counts as zero.
    let mut two: Vec<u16> = vec![5, 6];
    formal_derivative(&mut two, 3);
    assert_eq!(two, vec![5 ^ 6, 6]);
}
