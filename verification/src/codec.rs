//! The calls into `bincode`, the wire encoding of grids and configurations.
//! Each serialises or deserialises a tuple of plain values: bincode writes a
//! struct and the tuple of its fields, in order, as the same bytes, so these
//! tuples stand for the `Grid` and `MatrixConfiguration` records.
use vstd::prelude::*;
use crate::protocol::seq_views;

verus! {

/// The `k` low bytes of `n`, least significant first.
pub open spec fn le_bytes(n: nat, k: nat) -> Seq<u8>
    decreases k,
{
    if k == 0 {
        Seq::empty()
    } else {
        seq![(n % 256) as u8] + le_bytes(n / 256, (k - 1) as nat)
    }
}

/// A length or a `usize` as bincode writes it: eight little-endian bytes.
pub open spec fn u64_bytes(n: nat) -> Seq<u8> {
    le_bytes(n, 8)
}

/// A row of pixels as bincode writes a `Vec<bool>`: its length, then one
/// byte per pixel, 1 for lit and 0 for unlit.
pub open spec fn row_encoding(row: Seq<bool>) -> Seq<u8> {
    u64_bytes(row.len()) + Seq::new(row.len(), |j: int| if row[j] { 1u8 } else { 0u8 })
}

/// The rows of a canvas, one after the other.
pub open spec fn rows_encoding(rows: Seq<Seq<bool>>) -> Seq<u8>
    decreases rows.len(),
{
    if rows.len() == 0 {
        Seq::empty()
    } else {
        row_encoding(rows[0]) + rows_encoding(rows.drop_first())
    }
}

/// The bytes of `(width, height, canvas)` as `bincode::serialize` writes
/// them: width and height as eight little-endian bytes each, then the canvas
/// as its number of rows and each row in turn.
pub open spec fn grid_encoding(width: usize, height: usize, canvas: Seq<Seq<bool>>) -> Seq<u8> {
    u64_bytes(width as nat) + u64_bytes(height as nat) + u64_bytes(canvas.len()) + rows_encoding(canvas)
}

/// The canvas lengths fit in a `usize`, as those of any `Vec<Vec<bool>>` do.
pub open spec fn canvas_fits(canvas: Seq<Seq<bool>>) -> bool {
    &&& canvas.len() <= usize::MAX
    &&& forall|i: int| 0 <= i < canvas.len() ==> #[trigger] canvas[i].len() <= usize::MAX
}

/// Whether `bytes` begin with the encoding of `(width, height, canvas)`.
pub open spec fn encodes_grid(bytes: Seq<u8>, width: usize, height: usize, canvas: Seq<Seq<bool>>) -> bool {
    let encoding = grid_encoding(width, height, canvas);
    &&& encoding.len() <= bytes.len()
    &&& bytes.subrange(0, encoding.len() as int) == encoding
}

/// Whether bincode reads `bytes` as `(width, height, canvas)`: they begin with
/// its encoding, and the canvas lengths fit in a `usize`.
pub open spec fn decodes_to(bytes: Seq<u8>, width: usize, height: usize, canvas: Seq<Seq<bool>>) -> bool {
    canvas_fits(canvas) && encodes_grid(bytes, width, height, canvas)
}

/// Whether bincode reads `bytes` as no grid at all.
pub open spec fn no_grid_encoded(bytes: Seq<u8>) -> bool {
    forall|width: usize, height: usize, canvas: Seq<Seq<bool>>| !#[trigger] decodes_to(bytes, width, height, canvas)
}

/// Calls `bincode::serialize` on `(width, height, canvas)`. Claimed, from
/// bincode's source (fixed-width little-endian integers, `usize` as `u64`,
/// sequences prefixed with their length as `u64`, a `bool` as one byte 0 or 1,
/// tuples field by field, no size limit, writing into a growing `Vec`): the
/// result is `Some` of `grid_encoding` of the three values.
#[verifier::external_body]
pub(crate) fn serialize_grid(width: usize, height: usize, canvas: &Vec<Vec<bool>>) -> (result: Option<Vec<u8>>)
    ensures
        result is Some,
        result->0@ == grid_encoding(width, height, seq_views(canvas@)),
{
    match bincode::serialize(&(width, height, canvas)) {
        Ok(bytes) => Some(bytes),
        Err(_) => None,
    }
}

/// Calls `bincode::deserialize::<(usize, usize, Vec<Vec<bool>>)>` on `bytes`.
/// Claimed, from bincode's source (it reads the fields in order: each
/// `usize` and each length as eight little-endian bytes, failing on a value
/// above `usize::MAX`; each `bool` as one byte, failing on anything but 0 or
/// 1; failing when the bytes run out; bytes after the triple are allowed):
/// it returns a triple exactly when the bytes begin with that triple's
/// encoding, and `None` when they begin with no triple's encoding.
#[verifier::external_body]
pub(crate) fn deserialize_grid(bytes: &[u8]) -> (result: Option<(usize, usize, Vec<Vec<bool>>)>)
    ensures
        match result {
            Some((width, height, canvas)) => decodes_to(bytes@, width, height, seq_views(canvas@)),
            None => no_grid_encoded(bytes@),
        },
{
    match bincode::deserialize::<(usize, usize, Vec<Vec<bool>>)>(bytes) {
        Ok(triple) => Some(triple),
        Err(_) => None,
    }
}

/// Calls `bincode::serialize` on the pair `(width, height)`. Claimed, from
/// bincode's source: a `u8` is written as its one byte and a tuple field by
/// field, and this cannot fail, so the result is the two bytes.
#[verifier::external_body]
pub(crate) fn serialize_configuration(width: u8, height: u8) -> (result: Option<Vec<u8>>)
    ensures
        result is Some,
        result->0@ == seq![width, height],
{
    match bincode::serialize(&(width, height)) {
        Ok(bytes) => Some(bytes),
        Err(_) => None,
    }
}

/// Calls `bincode::deserialize::<(u8, u8)>` on `bytes`. Claimed, from
/// bincode's source: each `u8` is read as one byte, reading past the end is an
/// error, and bytes after the pair are allowed.
#[verifier::external_body]
pub(crate) fn deserialize_configuration(bytes: &[u8]) -> (result: Option<(u8, u8)>)
    ensures
        result == if bytes@.len() >= 2 {
            Some((bytes@[0], bytes@[1]))
        } else {
            None::<(u8, u8)>
        },
{
    match bincode::deserialize::<(u8, u8)>(bytes) {
        Ok(pair) => Some(pair),
        Err(_) => None,
    }
}

/// 256 to the power `k`.
pub open spec fn pow256(k: nat) -> nat
    decreases k,
{
    if k == 0 {
        1
    } else {
        256 * pow256((k - 1) as nat)
    }
}

proof fn lemma_le_bytes_len(n: nat, k: nat)
    ensures
        le_bytes(n, k).len() == k,
    decreases k,
{
    if k > 0 {
        lemma_le_bytes_len(n / 256, (k - 1) as nat);
    }
}

proof fn lemma_le_bytes_injective(a: nat, b: nat, k: nat)
    requires
        a < pow256(k),
        b < pow256(k),
        le_bytes(a, k) == le_bytes(b, k),
    ensures
        a == b,
    decreases k,
{
    if k > 0 {
        let p = pow256((k - 1) as nat);
        assert(le_bytes(a, k) == seq![(a % 256) as u8] + le_bytes(a / 256, (k - 1) as nat));
        assert(le_bytes(b, k) == seq![(b % 256) as u8] + le_bytes(b / 256, (k - 1) as nat));
        assert(le_bytes(a, k)[0] == (a % 256) as u8);
        assert(le_bytes(b, k)[0] == (b % 256) as u8);
        assert(le_bytes(a, k)[0] == le_bytes(b, k)[0]);
        assert(le_bytes(a, k).drop_first() =~= le_bytes(a / 256, (k - 1) as nat));
        assert(le_bytes(b, k).drop_first() =~= le_bytes(b / 256, (k - 1) as nat));
        assert(a / 256 < p) by (nonlinear_arith)
            requires
                a < 256 * p,
        ;
        assert(b / 256 < p) by (nonlinear_arith)
            requires
                b < 256 * p,
        ;
        lemma_le_bytes_injective(a / 256, b / 256, (k - 1) as nat);
        assert(a % 256 == b % 256) by {
            assert((a % 256) as u8 == (b % 256) as u8);
        }
        assert(a == 256 * (a / 256) + a % 256) by (nonlinear_arith);
        assert(b == 256 * (b / 256) + b % 256) by (nonlinear_arith);
    } else {
        assert(a == 0 && b == 0);
    }
}

proof fn lemma_usize_fits_u64(n: nat)
    requires
        n <= usize::MAX,
    ensures
        n < pow256(8),
{
    reveal_with_fuel(pow256, 9);
    assert(pow256(8) == 0x1_0000_0000_0000_0000nat);
}

/// Whether `prefix` is where `bytes` begin.
pub open spec fn starts_with(bytes: Seq<u8>, prefix: Seq<u8>) -> bool {
    prefix.len() <= bytes.len() && bytes.subrange(0, prefix.len() as int) == prefix
}

proof fn lemma_starts_with_split(bytes: Seq<u8>, first: Seq<u8>, second: Seq<u8>)
    requires
        starts_with(bytes, first + second),
    ensures
        starts_with(bytes, first),
        starts_with(bytes.skip(first.len() as int), second),
{
    assert(bytes.subrange(0, first.len() as int) =~= (first + second).subrange(0, first.len() as int));
    assert((first + second).subrange(0, first.len() as int) =~= first);
    let whole = first + second;
    let f = first.len() as int;
    let n = whole.len() as int;
    assert(bytes.subrange(0, n) == whole);
    assert(bytes.subrange(f, n) =~= bytes.subrange(0, n).subrange(f, n));
    assert(whole.subrange(f, n) =~= second);
    assert(bytes.skip(f).subrange(0, second.len() as int) =~= bytes.subrange(f, n));
}

proof fn lemma_rows_unique(bytes: Seq<u8>, rows1: Seq<Seq<bool>>, rows2: Seq<Seq<bool>>)
    requires
        rows1.len() == rows2.len(),
        canvas_fits(rows1),
        canvas_fits(rows2),
        starts_with(bytes, rows_encoding(rows1)),
        starts_with(bytes, rows_encoding(rows2)),
    ensures
        rows1 == rows2,
    decreases rows1.len(),
{
    if rows1.len() == 0 {
        assert(rows1 =~= rows2);
    } else {
        let r1 = rows1[0];
        let r2 = rows2[0];
        let pixels1 = Seq::new(r1.len(), |j: int| if r1[j] { 1u8 } else { 0u8 });
        let pixels2 = Seq::new(r2.len(), |j: int| if r2[j] { 1u8 } else { 0u8 });
        lemma_le_bytes_len(r1.len(), 8);
        lemma_le_bytes_len(r2.len(), 8);
        assert(rows_encoding(rows1) == u64_bytes(r1.len()) + pixels1 + rows_encoding(rows1.drop_first()));
        assert(rows_encoding(rows2) == u64_bytes(r2.len()) + pixels2 + rows_encoding(rows2.drop_first()));
        lemma_starts_with_split(bytes, u64_bytes(r1.len()) + pixels1, rows_encoding(rows1.drop_first()));
        lemma_starts_with_split(bytes, u64_bytes(r2.len()) + pixels2, rows_encoding(rows2.drop_first()));
        lemma_starts_with_split(bytes, u64_bytes(r1.len()), pixels1);
        lemma_starts_with_split(bytes, u64_bytes(r2.len()), pixels2);
        assert(u64_bytes(r1.len()) =~= u64_bytes(r2.len()));
        assert(r1.len() <= usize::MAX);
        assert(r2.len() <= usize::MAX);
        lemma_usize_fits_u64(r1.len());
        lemma_usize_fits_u64(r2.len());
        lemma_le_bytes_injective(r1.len(), r2.len(), 8);
        assert(pixels1 =~= pixels2);
        assert forall|j: int| 0 <= j < r1.len() implies r1[j] == r2[j] by {
            assert(pixels1[j] == pixels2[j]);
        }
        assert(r1 =~= r2);
        let rest1 = rows1.drop_first();
        let rest2 = rows2.drop_first();
        assert forall|i: int| 0 <= i < rest1.len() implies #[trigger] rest1[i].len() <= usize::MAX by {
            assert(rest1[i] == rows1[i + 1]);
        }
        assert forall|i: int| 0 <= i < rest2.len() implies #[trigger] rest2[i].len() <= usize::MAX by {
            assert(rest2[i] == rows2[i + 1]);
        }
        let skip = (u64_bytes(r1.len()) + pixels1).len() as int;
        lemma_rows_unique(bytes.skip(skip), rest1, rest2);
        assert(rows1 =~= rows2) by {
            assert forall|i: int| 0 <= i < rows1.len() implies rows1[i] == rows2[i] by {
                if i > 0 {
                    assert(rows1[i] == rest1[i - 1]);
                    assert(rows2[i] == rest2[i - 1]);
                }
            }
        }
    }
}

/// Bytes begin with the encoding of at most one triple whose lengths fit in
/// a `usize`: the encoding can be read back in only one way.
pub proof fn lemma_grid_encoding_unique(
    bytes: Seq<u8>,
    width1: usize,
    height1: usize,
    canvas1: Seq<Seq<bool>>,
    width2: usize,
    height2: usize,
    canvas2: Seq<Seq<bool>>,
)
    requires
        decodes_to(bytes, width1, height1, canvas1),
        decodes_to(bytes, width2, height2, canvas2),
    ensures
        width1 == width2,
        height1 == height2,
        canvas1 == canvas2,
{
    let w1 = u64_bytes(width1 as nat);
    let w2 = u64_bytes(width2 as nat);
    let h1 = u64_bytes(height1 as nat);
    let h2 = u64_bytes(height2 as nat);
    let n1 = u64_bytes(canvas1.len());
    let n2 = u64_bytes(canvas2.len());
    lemma_le_bytes_len(width1 as nat, 8);
    lemma_le_bytes_len(width2 as nat, 8);
    lemma_le_bytes_len(height1 as nat, 8);
    lemma_le_bytes_len(height2 as nat, 8);
    lemma_le_bytes_len(canvas1.len(), 8);
    lemma_le_bytes_len(canvas2.len(), 8);
    lemma_starts_with_split(bytes, w1 + h1 + n1, rows_encoding(canvas1));
    lemma_starts_with_split(bytes, w2 + h2 + n2, rows_encoding(canvas2));
    lemma_starts_with_split(bytes, w1 + h1, n1);
    lemma_starts_with_split(bytes, w2 + h2, n2);
    lemma_starts_with_split(bytes, w1, h1);
    lemma_starts_with_split(bytes, w2, h2);
    assert(w1 =~= w2);
    lemma_usize_fits_u64(width1 as nat);
    lemma_usize_fits_u64(width2 as nat);
    lemma_le_bytes_injective(width1 as nat, width2 as nat, 8);
    assert(h1 =~= h2);
    lemma_usize_fits_u64(height1 as nat);
    lemma_usize_fits_u64(height2 as nat);
    lemma_le_bytes_injective(height1 as nat, height2 as nat, 8);
    assert(bytes.skip(16) =~= bytes.skip((w1 + h1).len() as int));
    assert(n1 =~= n2);
    lemma_usize_fits_u64(canvas1.len());
    lemma_usize_fits_u64(canvas2.len());
    lemma_le_bytes_injective(canvas1.len(), canvas2.len(), 8);
    lemma_rows_unique(bytes.skip(24), canvas1, canvas2);
}

} // verus!
