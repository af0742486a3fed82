//! The baseline coder: a systematic Reed-Solomon code over GF(2^16) from the
//! `reed_solomon_erasure` crate, over shards cut from the payload.

use vstd::prelude::*;
use reed_solomon_erasure::galois_16::ReedSolomon;
use crate::shard::WrappedShard;

verus! {

/// Number of shards of the baseline code.
pub const N_VALIDATORS: usize = 32;

/// Number of its shards that carry the payload.
pub const DATA_SHARDS: usize = 10;

/// Number of its shards that carry parity.
pub const PARITY_SHARDS: usize = 22;

/// The error type of the `reed_solomon_erasure` crate.
#[verifier::external_type_specification]
#[verifier::external_body]
pub struct ExRsError(reed_solomon_erasure::Error);

/// The shape of a code of the `reed_solomon_erasure` crate.
#[derive(Clone, Copy, Debug, PartialEq, Eq)]
pub struct CodeShape {
    /// Number of shards that carry the payload.
    pub data_shards: usize,
    /// Number of shards that carry parity.
    pub parity_shards: usize,
}

/// The parity shards that the code of `data_shards` and `parity_shards`
/// shards over GF(2^16) of the `reed_solomon_erasure` crate gives to the
/// data shards `data`.
pub uninterp spec fn rs_parity(data_shards: nat, parity_shards: nat, data: Seq<Seq<u8>>) -> Seq<
    Seq<u8>,
>;

/// The shards as `reconstruct_data` of the same code leaves them.
pub uninterp spec fn rs_recovered(
    data_shards: nat,
    parity_shards: nat,
    shards: Seq<Option<Seq<u8>>>,
) -> Seq<Option<Seq<u8>>>;

/// The bytes of every shard.
pub open spec fn shard_views(shards: Seq<WrappedShard>) -> Seq<Seq<u8>> {
    Seq::new(shards.len(), |i: int| shards[i]@)
}

/// The bytes of every shard that is present.
pub open spec fn option_views(shards: Seq<Option<WrappedShard>>) -> Seq<Option<Seq<u8>>> {
    Seq::new(
        shards.len(),
        |i: int|
            match shards[i] {
                Some(shard) => Some(shard@),
                None => None,
            },
    )
}

/// The crate accepts a code of this shape.
pub open spec fn shape_accepted(shape: CodeShape) -> bool {
    &&& shape.data_shards >= 1
    &&& shape.parity_shards >= 1
    &&& shape.data_shards + shape.parity_shards <= 65536
}

/// The crate encodes these shards: there are as many as the code has, the
/// first is not empty, and all have its length.
pub open spec fn encodable(shape: CodeShape, shards: Seq<Seq<u8>>) -> bool {
    &&& shape_accepted(shape)
    &&& shards.len() == shape.data_shards + shape.parity_shards
    &&& shards[0].len() >= 2
    &&& forall|i: int| 0 <= i < shards.len() ==> (#[trigger] shards[i]).len() == shards[0].len()
}

/// The number of shards that are present among the first `upto`.
pub open spec fn present_among(shards: Seq<Option<Seq<u8>>>, upto: int) -> int
    decreases upto,
{
    if upto <= 0 {
        0
    } else {
        present_among(shards, upto - 1) + (if shards[upto - 1] is Some {
            1int
        } else {
            0int
        })
    }
}

/// The crate recovers the data from these shards: there are as many as the
/// code has, none that is present is empty, all that are present have one
/// length, and at least as many are present as the code has data shards.
pub open spec fn recoverable(shape: CodeShape, shards: Seq<Option<Seq<u8>>>) -> bool {
    &&& shape_accepted(shape)
    &&& shards.len() == shape.data_shards + shape.parity_shards
    &&& forall|i: int|
        0 <= i < shards.len() && (#[trigger] shards[i]) is Some ==> shards[i]->Some_0.len() >= 2
    &&& forall|i: int, j: int|
        0 <= i < shards.len() && 0 <= j < shards.len() && (#[trigger] shards[i]) is Some && (
        #[trigger] shards[j]) is Some ==> shards[i]->Some_0.len() == shards[j]->Some_0.len()
    &&& present_among(shards, shards.len() as int) >= shape.data_shards
}

/// `ReedSolomon::new` and `ReedSolomon::encode` of the `reed_solomon_erasure`
/// crate, over GF(2^16). The call succeeds exactly on shards that the crate
/// encodes; it then leaves the data shards as they are and overwrites the
/// parity shards with the parity of the data. On an error nothing changes.
/// The counts are small enough for the crate to add them.
#[verifier::external_body]
fn rs_encode(shape: &CodeShape, shards: &mut Vec<WrappedShard>) -> (r: Result<
    (),
    reed_solomon_erasure::Error,
>)
    requires
        shape.data_shards <= 65536,
        shape.parity_shards <= 65536,
    ensures
        r is Ok <==> encodable(*shape, shard_views(old(shards)@)),
        r is Ok ==> shard_views(final(shards)@) == shard_views(old(shards)@).subrange(
            0,
            shape.data_shards as int,
        ) + rs_parity(
            shape.data_shards as nat,
            shape.parity_shards as nat,
            shard_views(old(shards)@).subrange(0, shape.data_shards as int),
        ),
        r is Err ==> shard_views(final(shards)@) == shard_views(old(shards)@),
{
    let codec = ReedSolomon::new(shape.data_shards, shape.parity_shards)?;
    let mut rows: Vec<Vec<[u8; 2]>> = shards.iter().map(
        |s| s.as_slice().chunks_exact(2).map(|c| [c[0], c[1]]).collect(),
    ).collect();
    codec.encode(&mut rows)?;
    *shards = rows.into_iter().map(|row| WrappedShard::new(row.concat())).collect();
    Ok(())
}

/// `ReedSolomon::new` and `ReedSolomon::reconstruct_data` of the
/// `reed_solomon_erasure` crate, over GF(2^16). The call succeeds exactly on
/// shards from which the crate recovers the data, and leaves what the crate
/// leaves. On an error nothing changes. The counts are small enough for the
/// crate to add them.
#[verifier::external_body]
fn rs_reconstruct_data(shape: &CodeShape, shards: &mut Vec<Option<WrappedShard>>) -> (r: Result<
    (),
    reed_solomon_erasure::Error,
>)
    requires
        shape.data_shards <= 65536,
        shape.parity_shards <= 65536,
    ensures
        r is Ok <==> recoverable(*shape, option_views(old(shards)@)),
        r is Ok ==> option_views(final(shards)@) == rs_recovered(
            shape.data_shards as nat,
            shape.parity_shards as nat,
            option_views(old(shards)@),
        ),
        r is Err ==> option_views(final(shards)@) == option_views(old(shards)@),
{
    let codec = ReedSolomon::new(shape.data_shards, shape.parity_shards)?;
    let mut rows: Vec<Option<Vec<[u8; 2]>>> = shards.iter().map(
        |s| s.as_ref().map(|w| w.as_slice().chunks_exact(2).map(|c| [c[0], c[1]]).collect()),
    ).collect();
    codec.reconstruct_data(&mut rows)?;
    *shards = rows.into_iter().map(|row| row.map(|r| WrappedShard::new(r.concat()))).collect();
    Ok(())
}

/// The length of the shards into which a payload of `len` bytes is cut: the
/// tenth part of it, rounded up to an even number.
pub open spec fn shard_len_spec(len: int) -> int {
    let needed = (len + DATA_SHARDS - 1) / (DATA_SHARDS as int);
    needed + needed % 2
}

/// Shard `i` of a payload: its bytes from `i * shard_len` on, and zeros where
/// the payload has ended.
pub open spec fn cut_shard(payload: Seq<u8>, i: int) -> Seq<u8> {
    let shard_len = shard_len_spec(payload.len() as int);
    Seq::new(
        shard_len as nat,
        |x: int|
            if i * shard_len + x < payload.len() {
                payload[i * shard_len + x]
            } else {
                0u8
            },
    )
}

/// The shards of a payload.
pub open spec fn to_shards_spec(payload: Seq<u8>) -> Seq<Seq<u8>> {
    Seq::new(N_VALIDATORS as nat, |i: int| cut_shard(payload, i))
}

/// Cuts a payload, which is not empty, into shards of equal even length: the
/// payload fills the first shards, and zeros fill the rest.
pub fn to_shards(payload: &[u8]) -> (shards: Vec<WrappedShard>)
    requires
        payload@.len() > 0,
        payload@.len() + DATA_SHARDS <= usize::MAX,
    ensures
        shard_views(shards@) == to_shards_spec(payload@),
{
    let base_len: usize = payload.len();
    let needed_shard_len: usize = (base_len + DATA_SHARDS - 1) / DATA_SHARDS;
    assert(needed_shard_len & 0x01 == needed_shard_len % 2) by (bit_vector);
    let needed_shard_len: usize = needed_shard_len + (needed_shard_len & 0x01);
    let shard_len: usize = needed_shard_len;
    let mut shards: Vec<WrappedShard> = Vec::new();
    let mut start: usize = 0;
    let mut i: usize = 0;
    while i < N_VALIDATORS
        invariant
            i <= N_VALIDATORS,
            base_len == payload@.len(),
            shard_len == shard_len_spec(base_len as int),
            2 <= shard_len <= base_len + 1,
            start <= base_len,
            start == base_len || start == i * shard_len,
            start == base_len ==> i * shard_len >= base_len,
            shards@.len() == i,
            forall|p: int| 0 <= p < i ==> (#[trigger] shards@[p])@ == cut_shard(payload@, p),
        decreases N_VALIDATORS - i,
    {
        let ghost want = cut_shard(payload@, i as int);
        let mut bytes: Vec<u8> = Vec::new();
        let mut x: usize = 0;
        while x < shard_len
            invariant
                x <= shard_len,
                base_len == payload@.len(),
                shard_len == shard_len_spec(base_len as int),
                start <= base_len,
                start == base_len || start == i * shard_len,
                start == base_len ==> i * shard_len >= base_len,
                want == cut_shard(payload@, i as int),
                bytes@.len() == x,
                forall|p: int| 0 <= p < x ==> bytes@[p] == want[p],
            decreases shard_len - x,
        {
            let byte: u8 = if x < base_len - start {
                payload[start + x]
            } else {
                0u8
            };
            bytes.push(byte);
            x += 1;
        }
        let shard = WrappedShard::new(bytes);
        proof {
            assert(shard@ =~= want);
            assert((i + 1) * shard_len == i * shard_len + shard_len) by (nonlinear_arith);
        }
        shards.push(shard);
        start = if base_len - start >= shard_len {
            start + shard_len
        } else {
            base_len
        };
        i += 1;
    }
    proof {
        assert(shard_views(shards@) =~= to_shards_spec(payload@));
    }
    shards
}

/// The shape of the baseline code.
pub fn rs() -> (shape: CodeShape)
    ensures
        shape.data_shards == DATA_SHARDS,
        shape.parity_shards == PARITY_SHARDS,
        shape_accepted(shape),
{
    CodeShape { data_shards: DATA_SHARDS, parity_shards: PARITY_SHARDS }
}

/// The shards of a payload, which is not empty, with the parity shards that
/// the baseline code gives them.
pub fn encode(data: &[u8]) -> (shards: Vec<WrappedShard>)
    requires
        data@.len() > 0,
        data@.len() + DATA_SHARDS <= usize::MAX,
    ensures
        shard_views(shards@) == to_shards_spec(data@).subrange(0, DATA_SHARDS as int) + rs_parity(
            DATA_SHARDS as nat,
            PARITY_SHARDS as nat,
            to_shards_spec(data@).subrange(0, DATA_SHARDS as int),
        ),
{
    let encoder = rs();
    let mut shards = to_shards(data);
    proof {
        let views = shard_views(shards@);
        assert(views.len() == 32);
        assert forall|i: int| 0 <= i < views.len() implies (#[trigger] views[i]).len()
            == views[0].len() by {
            assert(views[i] == cut_shard(data@, i));
            assert(views[0] == cut_shard(data@, 0));
        }
        assert(views[0] == cut_shard(data@, 0));
        assert(shard_len_spec(data@.len() as int) >= 2);
    }
    match rs_encode(&encoder, &mut shards) {
        Ok(_) => {},
        Err(_) => {},
    }
    shards
}

/// The bytes of the first `count` shards that are present, one after the
/// other.
pub open spec fn join_present(shards: Seq<Option<Seq<u8>>>, count: int) -> Seq<u8>
    decreases shards.len(),
{
    if shards.len() == 0 || count <= 0 {
        Seq::empty()
    } else {
        match shards[0] {
            Some(bytes) => bytes + join_present(shards.drop_first(), count - 1),
            None => join_present(shards.drop_first(), count),
        }
    }
}

/// Joins the bytes of the first `count` shards that are present.
pub fn join_data_shards(shards: Vec<Option<WrappedShard>>, count: usize) -> (bytes: Vec<u8>)
    ensures
        bytes@ == join_present(option_views(shards@), count as int),
{
    let ghost views = option_views(shards@);
    let mut bytes: Vec<u8> = Vec::new();
    let mut taken: usize = 0;
    let mut i: usize = 0;
    proof {
        assert(views.subrange(0, views.len() as int) =~= views);
        assert(bytes@ + join_present(views, count as int) =~= join_present(views, count as int));
    }
    while i < shards.len() && taken < count
        invariant
            i <= shards@.len(),
            taken <= count,
            views == option_views(shards@),
            bytes@ + join_present(views.subrange(i as int, views.len() as int), count - taken)
                == join_present(views, count as int),
        decreases shards@.len() - i,
    {
        let ghost tail = views.subrange(i as int, views.len() as int);
        proof {
            assert(tail.drop_first() =~= views.subrange(i + 1, views.len() as int));
            assert(tail[0] == views[i as int]);
        }
        match &shards[i] {
            Some(shard) => {
                let part: &[u8] = shard.as_slice();
                let ghost before = bytes@;
                let mut x: usize = 0;
                while x < part.len()
                    invariant
                        x <= part@.len(),
                        bytes@ == before + part@.subrange(0, x as int),
                    decreases part@.len() - x,
                {
                    bytes.push(part[x]);
                    proof {
                        assert(part@.subrange(0, x + 1) =~= part@.subrange(0, x as int).push(
                            part@[x as int],
                        ));
                    }
                    x += 1;
                }
                proof {
                    assert(part@.subrange(0, part@.len() as int) =~= part@);
                    assert(before + (part@ + join_present(tail.drop_first(), count - taken - 1))
                        =~= (before + part@) + join_present(
                        tail.drop_first(),
                        count - taken - 1,
                    ));
                }
                taken += 1;
            },
            None => {},
        }
        i += 1;
    }
    proof {
        let tail = views.subrange(i as int, views.len() as int);
        assert(join_present(tail, count - taken) =~= Seq::<u8>::empty());
        assert(bytes@ + Seq::<u8>::empty() =~= bytes@);
    }
    bytes
}

/// The payload shards of the baseline code, joined, after the shards that are
/// missing have been recovered; `None` where the crate does not recover them.
pub fn reconstruct(received_shards: Vec<Option<WrappedShard>>) -> (r: Option<Vec<u8>>)
    ensures
        r is Some <==> recoverable(
            CodeShape { data_shards: DATA_SHARDS, parity_shards: PARITY_SHARDS },
            option_views(received_shards@),
        ),
        r is Some ==> r->Some_0@ == join_present(
            rs_recovered(
                DATA_SHARDS as nat,
                PARITY_SHARDS as nat,
                option_views(received_shards@),
            ),
            DATA_SHARDS as int,
        ),
{
    let r = rs();
    let mut received_shards = received_shards;
    match rs_reconstruct_data(&r, &mut received_shards) {
        Ok(_) => Some(join_data_shards(received_shards, DATA_SHARDS)),
        Err(_) => None,
    }
}

} // verus!
