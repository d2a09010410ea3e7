//! Explicit conversion between a buffer of 32-bit integers and its bytes,
//! each value least significant byte first.
use vstd::prelude::*;

verus! {

/// The four bytes that stand for `v`, least significant first.
pub open spec fn value_bytes(v: i32) -> Seq<u8> {
    seq![
        (v as u32) as u8,
        ((v as u32) >> 8u32) as u8,
        ((v as u32) >> 16u32) as u8,
        ((v as u32) >> 24u32) as u8,
    ]
}

/// The value that four bytes stand for, least significant first.
pub open spec fn bytes_value(b0: u8, b1: u8, b2: u8, b3: u8) -> i32 {
    ((b0 as u32) | ((b1 as u32) << 8u32) | ((b2 as u32) << 16u32) | ((b3 as u32) << 24u32)) as i32
}

/// The bytes of a whole buffer of values, value after value.
pub open spec fn values_bytes(values: Seq<i32>) -> Seq<u8> {
    values.map_values(|v: i32| value_bytes(v)).flatten()
}

proof fn lemma_value_round_trip(v: i32)
    ensures
        bytes_value(
            value_bytes(v)[0],
            value_bytes(v)[1],
            value_bytes(v)[2],
            value_bytes(v)[3],
        ) == v,
{
    let u = v as u32;
    let (b0, b1, b2, b3) = (u as u8, (u >> 8u32) as u8, (u >> 16u32) as u8, (u >> 24u32) as u8);
    assert(((b0 as u32) | ((b1 as u32) << 8u32) | ((b2 as u32) << 16u32) | ((b3 as u32)
        << 24u32)) == u) by (bit_vector)
        requires
            b0 == u as u8,
            b1 == (u >> 8u32) as u8,
            b2 == (u >> 16u32) as u8,
            b3 == (u >> 24u32) as u8,
    ;
    assert((v as u32) as i32 == v) by (bit_vector);
}

proof fn lemma_values_bytes_push(values: Seq<i32>, v: i32)
    ensures
        values_bytes(values.push(v)) == values_bytes(values) + value_bytes(v),
{
    let f = |x: i32| value_bytes(x);
    assert(values.push(v).map_values(f) =~= values.map_values(f).push(value_bytes(v)));
    values.map_values(f).lemma_flatten_push(value_bytes(v));
}

proof fn lemma_values_bytes_at(values: Seq<i32>, i: int)
    requires
        0 <= i < values.len(),
    ensures
        values_bytes(values).len() == 4 * values.len(),
        values_bytes(values).subrange(4 * i, 4 * i + 4) == value_bytes(values[i]),
    decreases values.len(),
{
    let f = |x: i32| value_bytes(x);
    let last = values.last();
    let front = values.drop_last();
    assert(front.push(last) =~= values);
    lemma_values_bytes_push(front, last);
    if front.len() > 0 {
        if i < front.len() {
            lemma_values_bytes_at(front, i);
        } else {
            lemma_values_bytes_at(front, 0);
        }
    } else {
        assert(values_bytes(front) =~= Seq::<u8>::empty()) by {
            assert(front.map_values(f) =~= Seq::<Seq<u8>>::empty());
        }
    }
    assert(values_bytes(values).subrange(4 * i, 4 * i + 4) =~= value_bytes(values[i]));
}

/// The bytes of `values`, four for each value in order.
pub fn to_raw_bytes(values: &[i32]) -> (r: Vec<u8>)
    ensures
        r@ == values_bytes(values@),
{
    let mut out: Vec<u8> = Vec::new();
    let mut i: usize = 0;
    assert(values@.take(0) =~= Seq::<i32>::empty());
    assert(values_bytes(Seq::<i32>::empty()) =~= Seq::<u8>::empty()) by {
        assert(Seq::<i32>::empty().map_values(|v: i32| value_bytes(v)) =~= Seq::<Seq<u8>>::empty());
    }
    while i < values.len()
        invariant
            i <= values@.len(),
            out@ == values_bytes(values@.take(i as int)),
        decreases values@.len() - i,
    {
        let v = values[i];
        let u = v as u32;
        out.push(u as u8);
        out.push((u >> 8u32) as u8);
        out.push((u >> 16u32) as u8);
        out.push((u >> 24u32) as u8);
        proof {
            lemma_values_bytes_push(values@.take(i as int), v);
            assert(values@.take(i + 1) =~= values@.take(i as int).push(v));
            assert(out@ =~= values_bytes(values@.take(i as int)) + value_bytes(v));
        }
        i = i + 1;
    }
    assert(values@.take(i as int) =~= values@);
    out
}

/// The values that `bytes` stand for, four bytes each; bytes past the last
/// whole group of four are left out.
pub fn from_raw_bytes(bytes: &[u8]) -> (r: Vec<i32>)
    ensures
        r@.len() == bytes@.len() / 4,
        forall|i: int|
            0 <= i < r@.len() ==> #[trigger] r@[i] == bytes_value(
                bytes@[4 * i],
                bytes@[4 * i + 1],
                bytes@[4 * i + 2],
                bytes@[4 * i + 3],
            ),
{
    let n = bytes.len() / 4;
    let mut out: Vec<i32> = Vec::new();
    let mut i: usize = 0;
    while i < n
        invariant
            n == bytes@.len() / 4,
            bytes@.len() <= usize::MAX,
            i <= n,
            out@.len() == i,
            forall|k: int|
                0 <= k < i ==> #[trigger] out@[k] == bytes_value(
                    bytes@[4 * k],
                    bytes@[4 * k + 1],
                    bytes@[4 * k + 2],
                    bytes@[4 * k + 3],
                ),
        decreases n - i,
    {
        assert(4 * i + 3 < bytes@.len()) by (nonlinear_arith)
            requires
                i < n,
                n == bytes@.len() / 4,
        ;
        let p = 4 * i;
        let v = ((bytes[p] as u32) | ((bytes[p + 1] as u32) << 8u32) | ((bytes[p + 2] as u32)
            << 16u32) | ((bytes[p + 3] as u32) << 24u32)) as i32;
        out.push(v);
        i = i + 1;
    }
    out
}

/// Reading back the bytes of a buffer of values gives those values.
pub proof fn lemma_raw_round_trip(values: Seq<i32>)
    ensures
        values_bytes(values).len() == 4 * values.len(),
        forall|i: int|
            0 <= i < values.len() ==> bytes_value(
                #[trigger] values_bytes(values)[4 * i],
                values_bytes(values)[4 * i + 1],
                values_bytes(values)[4 * i + 2],
                values_bytes(values)[4 * i + 3],
            ) == values[i],
{
    if values.len() > 0 {
        lemma_values_bytes_at(values, 0);
    } else {
        assert(values_bytes(values) =~= Seq::<u8>::empty()) by {
            assert(values.map_values(|v: i32| value_bytes(v)) =~= Seq::<Seq<u8>>::empty());
        }
    }
    assert forall|i: int| 0 <= i < values.len() implies bytes_value(
        #[trigger] values_bytes(values)[4 * i],
        values_bytes(values)[4 * i + 1],
        values_bytes(values)[4 * i + 2],
        values_bytes(values)[4 * i + 3],
    ) == values[i] by {
        lemma_values_bytes_at(values, i);
        let b = values_bytes(values).subrange(4 * i, 4 * i + 4);
        assert(b[0] == values_bytes(values)[4 * i]);
        assert(b[3] == values_bytes(values)[4 * i + 3]);
        lemma_value_round_trip(values[i]);
    }
}

} // verus!
