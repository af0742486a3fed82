//! The field GF(2^16): polynomials over GF(2) modulo
//! x^16 + x^5 + x^3 + x^2 + 1, and the Cantor basis in which the codec
//! numbers its elements.

use vstd::prelude::*;

verus! {

/// Number of bits of a field element.
pub const FIELD_BITS: usize = 16;

/// Number of field elements.
pub const FIELD_SIZE: usize = 65536;

/// Order of the multiplicative group; also the marker for "logarithm of zero".
pub const MODULO: u16 = 65535;

/// The low coefficients of the field polynomial x^16 + x^5 + x^3 + x^2 + 1.
pub const GENERATOR: u16 = 0x2D;

/// The Cantor basis, in the polynomial basis.
pub const BASE: [u16; 16] = [
    1,
    44234,
    15374,
    5694,
    50562,
    60718,
    37196,
    16402,
    27800,
    4312,
    27250,
    47360,
    64952,
    64308,
    65336,
    39198,
];

/// Element `i` of the Cantor basis.
pub open spec fn base_elt(i: u16) -> u16 {
    if i == 0 {
        1
    } else if i == 1 {
        44234
    } else if i == 2 {
        15374
    } else if i == 3 {
        5694
    } else if i == 4 {
        50562
    } else if i == 5 {
        60718
    } else if i == 6 {
        37196
    } else if i == 7 {
        16402
    } else if i == 8 {
        27800
    } else if i == 9 {
        4312
    } else if i == 10 {
        27250
    } else if i == 11 {
        47360
    } else if i == 12 {
        64952
    } else if i == 13 {
        64308
    } else if i == 14 {
        65336
    } else {
        39198
    }
}

/// Multiplication by x in the polynomial basis.
pub open spec fn xtime(s: u16) -> u16 {
    if s & 0x8000 != 0 {
        ((s & 0x7FFF) << 1) ^ 0x2D
    } else {
        s << 1
    }
}

/// `v` multiplied `e` times by x.
pub open spec fn xtimes(e: nat, v: u16) -> u16
    decreases e,
{
    if e == 0 {
        v
    } else {
        xtime(xtimes((e - 1) as nat, v))
    }
}

/// The power `x^e`, in the polynomial basis.
pub open spec fn pow_x(e: nat) -> u16 {
    xtimes(e, 1)
}

/// `a` where bit `i` of `sel` is set, zero elsewhere.
pub open spec fn gate(sel: u16, i: u16, a: u16) -> u16 {
    if (sel >> i) & 1 == 1 {
        a
    } else {
        0
    }
}

/// `a` where bit `i` of `sel` is set, zero elsewhere.
pub open spec fn gate32(sel: u16, i: u16, a: u32) -> u32 {
    if (sel >> i) & 1 == 1 {
        a
    } else {
        0
    }
}

/// `a` where bit `i` of `sel` is set, zero elsewhere.
pub open spec fn gate16(sel: u32, i: u32, a: u16) -> u16 {
    if (sel >> i) & 1 == 1 {
        a
    } else {
        0
    }
}

/// The field element that the codec numbers `j`: the sum of the Cantor basis
/// elements picked by the bits of `j`.
pub open spec fn cantor(j: u16) -> u16 {
    gate(j, 0, 1)
        ^ gate(j, 1, 44234)
        ^ gate(j, 2, 15374)
        ^ gate(j, 3, 5694)
        ^ gate(j, 4, 50562)
        ^ gate(j, 5, 60718)
        ^ gate(j, 6, 37196)
        ^ gate(j, 7, 16402)
        ^ gate(j, 8, 27800)
        ^ gate(j, 9, 4312)
        ^ gate(j, 10, 27250)
        ^ gate(j, 11, 47360)
        ^ gate(j, 12, 64952)
        ^ gate(j, 13, 64308)
        ^ gate(j, 14, 65336)
        ^ gate(j, 15, 39198)
}

/// The number that the codec gives to the field element `v`.
pub open spec fn cantor_index(v: u16) -> u16 {
    gate(v, 0, 1)
        ^ gate(v, 1, 18064)
        ^ gate(v, 2, 26072)
        ^ gate(v, 3, 25296)
        ^ gate(v, 4, 22324)
        ^ gate(v, 5, 17904)
        ^ gate(v, 6, 21432)
        ^ gate(v, 7, 7736)
        ^ gate(v, 8, 31918)
        ^ gate(v, 9, 20024)
        ^ gate(v, 10, 26376)
        ^ gate(v, 11, 49756)
        ^ gate(v, 12, 31332)
        ^ gate(v, 13, 40620)
        ^ gate(v, 14, 4388)
        ^ gate(v, 15, 21050)
}

/// The product of two polynomials over GF(2), before reduction.
pub open spec fn clmul(a: u16, b: u16) -> u32 {
    gate32(b, 0, (a as u32) << 0u32)
        ^ gate32(b, 1, (a as u32) << 1u32)
        ^ gate32(b, 2, (a as u32) << 2u32)
        ^ gate32(b, 3, (a as u32) << 3u32)
        ^ gate32(b, 4, (a as u32) << 4u32)
        ^ gate32(b, 5, (a as u32) << 5u32)
        ^ gate32(b, 6, (a as u32) << 6u32)
        ^ gate32(b, 7, (a as u32) << 7u32)
        ^ gate32(b, 8, (a as u32) << 8u32)
        ^ gate32(b, 9, (a as u32) << 9u32)
        ^ gate32(b, 10, (a as u32) << 10u32)
        ^ gate32(b, 11, (a as u32) << 11u32)
        ^ gate32(b, 12, (a as u32) << 12u32)
        ^ gate32(b, 13, (a as u32) << 13u32)
        ^ gate32(b, 14, (a as u32) << 14u32)
        ^ gate32(b, 15, (a as u32) << 15u32)
}

/// Reduction of a product modulo the field polynomial: bit `16 + i` stands
/// for `x^(16 + i)` and is replaced by that power's residue.
pub open spec fn reduce(p: u32) -> u16 {
    ((p & 0xFFFF) as u16)
        ^ gate16(p, 16, 45)
        ^ gate16(p, 17, 90)
        ^ gate16(p, 18, 180)
        ^ gate16(p, 19, 360)
        ^ gate16(p, 20, 720)
        ^ gate16(p, 21, 1440)
        ^ gate16(p, 22, 2880)
        ^ gate16(p, 23, 5760)
        ^ gate16(p, 24, 11520)
        ^ gate16(p, 25, 23040)
        ^ gate16(p, 26, 46080)
        ^ gate16(p, 27, 26669)
        ^ gate16(p, 28, 53338)
        ^ gate16(p, 29, 41113)
        ^ gate16(p, 30, 16671)
        ^ gate16(p, 31, 33342)
}

/// The product of `a` and `b` in the polynomial basis.
pub open spec fn gmul(a: u16, b: u16) -> u16 {
    reduce(clmul(a, b))
}

} // verus!
