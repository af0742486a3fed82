use rs_ec_perf::gf::{BASE, FIELD_BITS, FIELD_SIZE, GENERATOR, MODULO};
use rs_ec_perf::tables::{init, init_dec, mul_table, Tables};
use rs_ec_perf::util::{is_power_of_2, log2, mem_cpy, mem_zero};
use rs_ec_perf::walsh::walsh;

type Elt = u16;

#[test]
fn embedded_gf256() {
    let t = Tables::new();
    // Zero has no logarithm, so start at 1.
    let mask: Elt = !0xFF;
    for i in 1..=255 {
        let i = t.log_of(i as Elt);
        for j in 0..16 {
            let j = j as Elt;
            assert!(mul_table(&t, j, i) & mask == 0);
        }
    }
}

#[test]
fn constants_of_the_field() {
    assert_eq!(FIELD_BITS, 16);
    assert_eq!(FIELD_SIZE, 65536);
    assert_eq!(MODULO, 65535);
    assert_eq!(GENERATOR, 0x2D);
    assert_eq!(BASE[0], 1);
    assert_eq!(BASE[15], 39198);
}

#[test]
fn logarithm_undoes_antilogarithm() {
    let t = Tables::new();
    for x in 1..=65535u16 {
        assert_eq!(t.exp_of(t.log_of(x)), x);
    }
    for i in 0..65535u16 {
        assert_eq!(t.log_of(t.exp_of(i)), i);
    }
    assert_eq!(t.exp_of(MODULO), t.exp_of(0));
}

#[test]
fn table_entries() {
    let t = Tables::new();
    assert_eq!(t.log_of(0), 65535);
    assert_eq!(t.log_of(1), 0);
    assert_eq!(t.log_of(2), 21845);
    assert_eq!(t.log_of(3), 43690);
    assert_eq!(t.log_of(255), 58853);
    assert_eq!(t.log_of(65535), 45925);
    assert_eq!(t.exp_of(0), 1);
    assert_eq!(t.exp_of(1), 18064);
    assert_eq!(t.exp_of(2), 26072);
    assert_eq!(t.exp_of(65534), 9798);
    assert_eq!(t.exp_of(65535), 1);
}

#[test]
fn bootstrap_alone_leaves_decoder_tables_zero() {
    let t = init();
    assert_eq!(t.log_of(2), 21845);
    assert_eq!(t.exp_of(1), 18064);
    for i in 0..65535 {
        assert_eq!(t.skew_at(i), 0);
    }
    for i in 0..32768 {
        assert_eq!(t.b_at(i), 0);
    }
    for i in 0..65536 {
        assert_eq!(t.log_walsh_at(i), 0);
    }
}

#[test]
fn decoder_tables_after_bootstrap() {
    let mut t = init();
    init_dec(&mut t);
    let whole = Tables::new();
    for i in 0..65535 {
        assert_eq!(t.skew_at(i), whole.skew_at(i));
    }
    for x in 0..=65535u16 {
        assert_eq!(t.log_of(x), whole.log_of(x));
        assert_eq!(t.exp_of(x), whole.exp_of(x));
    }
}

#[test]
fn decoder_tables_twice_are_the_same() {
    let mut t = Tables::new();
    init_dec(&mut t);
    let whole = Tables::new();
    for i in 0..65535 {
        assert_eq!(t.skew_at(i), whole.skew_at(i));
    }
    for i in 0..65536 {
        assert_eq!(t.log_walsh_at(i), whole.log_walsh_at(i));
    }
}

#[test]
fn skew_factor_entries() {
    let t = Tables::new();
    assert_eq!(t.skew_at(0), 65535);
    assert_eq!(t.skew_at(1), 65535);
    assert_eq!(t.skew_at(2), 21845);
    assert_eq!(t.skew_at(3), 65535);
    assert_eq!(t.skew_at(4), 17476);
    assert_eq!(t.skew_at(5), 21845);
    assert_eq!(t.skew_at(100), 1028);
    assert_eq!(t.skew_at(32767), 65535);
    assert_eq!(t.skew_at(65534), 43173);
}

#[test]
fn twist_factors_vanish_in_the_cantor_basis() {
    let t = Tables::new();
    for i in 0..32768 {
        assert_eq!(t.b_at(i), 0);
    }
}

#[test]
fn log_walsh_entries() {
    let t = Tables::new();
    assert_eq!(t.log_walsh_at(0), 65535);
    assert_eq!(t.log_walsh_at(1), 8105);
    assert_eq!(t.log_walsh_at(2), 48770);
    assert_eq!(t.log_walsh_at(65535), 16210);
}

#[test]
fn log_walsh_is_walsh_of_log() {
    let t = Tables::new();
    let mut copy: Vec<u16> = (0..=65535u16).map(|x| t.log_of(x)).collect();
    copy[0] = 0;
    walsh(&mut copy, FIELD_SIZE);
    for i in 0..FIELD_SIZE {
        assert!(copy[i] <= MODULO);
        assert_eq!(copy[i], t.log_walsh_at(i));
    }
}

#[test]
fn products() {
    let t = Tables::new();
    assert_eq!(mul_table(&t, 0, 12345), 0);
    assert_eq!(mul_table(&t, 0, 65535), 0);
    assert_eq!(mul_table(&t, 3, t.log_of(7)), 13);
    assert_eq!(mul_table(&t, 12345, t.log_of(54321)), 48120);
    assert_eq!(mul_table(&t, 7, 65535), 7);
    assert_eq!(mul_table(&t, 1, 0), 1);
}

#[test]
fn multiplying_by_one_changes_nothing() {
    let t = Tables::new();
    let one = t.log_of(1);
    for x in 0..=65535u16 {
        assert_eq!(mul_table(&t, x, one), x);
    }
}

#[test]
fn multiplication_commutes() {
    let t = Tables::new();
    for a in [1u16, 2, 3, 255, 256, 4097, 65535] {
        for b in [1u16, 5, 77, 1024, 40000, 65535] {
            assert_eq!(mul_table(&t, a, t.log_of(b)), mul_table(&t, b, t.log_of(a)));
        }
    }
}

#[test]
fn logarithms_floor() {
    assert_eq!(log2(0), 0);
    assert_eq!(log2(1), 0);
    assert_eq!(log2(2), 1);
    assert_eq!(log2(3), 1);
    assert_eq!(log2(4), 2);
    assert_eq!(log2(63), 5);
    assert_eq!(log2(64), 6);
    assert_eq!(log2(65535), 15);
    assert_eq!(log2(65536), 16);
}

#[test]
fn powers_of_two() {
    assert!(!is_power_of_2(0));
    assert!(is_power_of_2(1));
    assert!(is_power_of_2(2));
    assert!(!is_power_of_2(3));
    assert!(is_power_of_2(4));
    assert!(!is_power_of_2(6));
    assert!(is_power_of_2(65536));
    assert!(!is_power_of_2(65535));
    assert!(!is_power_of_2(usize::MAX));
}

#[test]
fn zeroing_and_copying() {
    let mut a: Vec<u16> = vec![1, 2, 3, 4];
    let b: Vec<u16> = vec![9, 8, 7, 6];
    mem_cpy(&mut a, &b);
    assert_eq!(a, b);
    mem_zero(&mut a);
    assert_eq!(a, vec![0u16; 4]);
    let mut empty: Vec<u16> = Vec::new();
    mem_zero(&mut empty);
    mem_cpy(&mut empty, &[]);
    assert!(empty.is_empty());
}
