//! Ingest: column values of record batches written into rows.
//!
//! A record batch is a list of columns of equal length, in the order of the
//! columns of the row; the join key comes first. Floating-point columns are held
//! as the bit patterns of their values, which is what a row stores.

use crate::bytes;
use crate::bytes::{write_bytes, write_i32, write_u32, write_u64};
use crate::hash;
use crate::hash::hash_i32_slice;
use crate::ht;
use crate::ht::JoinHashTable;
use crate::par::par_map;
use crate::row;
use crate::row::{PhysType, RowLayout, HEADER_SIZE};
use vstd::prelude::*;

verus! {

/// The column types of a benchmark row, the key first.
pub open spec fn bench_types() -> Seq<PhysType> {
    seq![
        PhysType::I32,
        PhysType::I32,
        PhysType::I64,
        PhysType::F64,
        PhysType::F32,
        PhysType::Bool,
    ]
}

/// Names and types of the columns of a benchmark row, the key first.
pub fn bench_columns() -> (c: Vec<(&'static str, PhysType)>)
    ensures
        c@.map_values(|x: (&'static str, PhysType)| x.1) == bench_types(),
        c@.map_values(|x: (&'static str, PhysType)| x.1) == seq![
            PhysType::I32,
            PhysType::I32,
            PhysType::I64,
            PhysType::F64,
            PhysType::F32,
            PhysType::Bool,
        ],
        c@.map_values(|x: (&'static str, PhysType)| x.0@) == seq![
            "k"@,
            "c_int"@,
            "c_bigint"@,
            "c_dbl"@,
            "c_flt"@,
            "c_bool"@,
        ],
{
    let c: Vec<(&'static str, PhysType)> = vec![
        ("k", PhysType::I32),
        ("c_int", PhysType::I32),
        ("c_bigint", PhysType::I64),
        ("c_dbl", PhysType::F64),
        ("c_flt", PhysType::F32),
        ("c_bool", PhysType::Bool),
    ];
    assert(c@.map_values(|x: (&'static str, PhysType)| x.1) =~= bench_types());
    c
}

/// The layout of a benchmark row.
pub fn bench_layout() -> (l: RowLayout)
    ensures
        l.wf(),
        l.types() == bench_types(),
        l.types() == seq![
            PhysType::I32,
            PhysType::I32,
            PhysType::I64,
            PhysType::F64,
            PhysType::F32,
            PhysType::Bool,
        ],
{
    let types: Vec<PhysType> = vec![
        PhysType::I32,
        PhysType::I32,
        PhysType::I64,
        PhysType::F64,
        PhysType::F32,
        PhysType::Bool,
    ];
    assert(types@ =~= bench_types());
    proof {
        row::lemma_row_width_bound(types@, 6);
    }
    RowLayout::new(types)
}

/// Width of a row that holds the key alone.
pub const KEY_ROW_SIZE: usize = 24;

/// A row that holds the key alone has the header, the key, and padding.
pub proof fn law_key_row_size()
    ensures
        row::row_width(seq![PhysType::I32]) == KEY_ROW_SIZE,
{
    let types = seq![PhysType::I32];
    reveal_with_fuel(row::columns_end, 2);
    assert(row::columns_end(types, 0) == row::HEADER_SIZE);
    assert(row::columns_end(types, 1) == 20);
}

/// The layout of a row that holds the key alone.
pub fn keys_only_layout() -> (l: RowLayout)
    ensures
        l.wf(),
        l.types() == seq![PhysType::I32],
{
    let types: Vec<PhysType> = vec![PhysType::I32];
    assert(types@ =~= seq![PhysType::I32]);
    proof {
        row::lemma_row_width_bound(types@, 1);
    }
    RowLayout::new(types)
}

/// The values of one column of a record batch.
pub enum Column {
    I32(Vec<i32>),
    I64(Vec<i64>),
    /// Bit patterns of `f32` values.
    F32(Vec<u32>),
    /// Bit patterns of `f64` values.
    F64(Vec<u64>),
    Bool(Vec<bool>),
}

/// The bytes that a row stores for the values of an `i32` column.
pub open spec fn i32_fields(vals: Seq<i32>) -> Seq<Seq<u8>> {
    vals.map_values(|v: i32| bytes::u32_bytes(v as u32))
}

/// The bytes that a row stores for the values of an `i64` column.
pub open spec fn i64_fields(vals: Seq<i64>) -> Seq<Seq<u8>> {
    vals.map_values(|v: i64| bytes::u64_bytes(v as u64))
}

/// The bytes that a row stores for the bit patterns of an `f32` column.
pub open spec fn f32_fields(vals: Seq<u32>) -> Seq<Seq<u8>> {
    vals.map_values(|v: u32| bytes::u32_bytes(v))
}

/// The bytes that a row stores for the bit patterns of an `f64` column.
pub open spec fn f64_fields(vals: Seq<u64>) -> Seq<Seq<u8>> {
    vals.map_values(|v: u64| bytes::u64_bytes(v))
}

/// The byte that a row stores for a `bool`.
pub open spec fn bool_byte(b: bool) -> u8 {
    if b {
        1
    } else {
        0
    }
}

/// The bytes that a row stores for the values of a `bool` column.
pub open spec fn bool_fields(vals: Seq<bool>) -> Seq<Seq<u8>> {
    vals.map_values(|v: bool| seq![bool_byte(v)])
}

impl Column {
    /// The type of the column.
    pub open spec fn ty(self) -> PhysType {
        match self {
            Column::I32(_) => PhysType::I32,
            Column::I64(_) => PhysType::I64,
            Column::F32(_) => PhysType::F32,
            Column::F64(_) => PhysType::F64,
            Column::Bool(_) => PhysType::Bool,
        }
    }

    /// The bytes that a row stores for each value.
    pub open spec fn fields(self) -> Seq<Seq<u8>> {
        match self {
            Column::I32(v) => i32_fields(v@),
            Column::I64(v) => i64_fields(v@),
            Column::F32(v) => f32_fields(v@),
            Column::F64(v) => f64_fields(v@),
            Column::Bool(v) => bool_fields(v@),
        }
    }

    /// The type of the column.
    pub fn phys_type(&self) -> (t: PhysType)
        ensures
            t == self.ty(),
    {
        match self {
            Column::I32(_) => PhysType::I32,
            Column::I64(_) => PhysType::I64,
            Column::F32(_) => PhysType::F32,
            Column::F64(_) => PhysType::F64,
            Column::Bool(_) => PhysType::Bool,
        }
    }

    /// Number of values.
    pub fn len(&self) -> (n: usize)
        ensures
            n == self.fields().len(),
    {
        match self {
            Column::I32(v) => v.len(),
            Column::I64(v) => v.len(),
            Column::F32(v) => v.len(),
            Column::F64(v) => v.len(),
            Column::Bool(v) => v.len(),
        }
    }
}

/// `data` with one field written to each of its rows, at offset `off` of the row.
pub open spec fn put_column(
    data: Seq<u8>,
    row_size: int,
    off: int,
    fields: Seq<Seq<u8>>,
) -> Seq<u8>
    decreases fields.len(),
{
    if fields.len() == 0 {
        data
    } else {
        bytes::splice(
            put_column(data, row_size, off, fields.drop_last()),
            (fields.len() - 1) * row_size + off,
            fields.last(),
        )
    }
}

/// Whether a field of `width` bytes at offset `off` of each of `n` rows fits
/// `len` bytes of rows.
pub open spec fn column_fits(len: int, row_size: int, off: int, width: int, n: int) -> bool {
    n > 0 ==> (n - 1) * row_size + off + width <= len
}

/// One row of the column after the others.
proof fn lemma_column_step(
    len: int,
    row_size: int,
    off: int,
    width: int,
    n: int,
    i: int,
)
    requires
        column_fits(len, row_size, off, width, n),
        0 <= i < n,
        row_size >= 0,
        off >= 0,
        width >= 0,
    ensures
        0 <= i * row_size,
        i * row_size <= (n - 1) * row_size,
        i * row_size + off + width <= len,
{
    assert(0 <= i * row_size && i * row_size <= (n - 1) * row_size) by (nonlinear_arith)
        requires
            0 <= i < n,
            row_size >= 0,
    ;
}

/// Writes a column of `i32` values: value `i` to offset `col_off` of row `i`.
pub fn write_i32_column(slice: &mut [u8], row_size: usize, col_off: usize, vals: &[i32])
    requires
        column_fits(
            old(slice)@.len() as int,
            row_size as int,
            col_off as int,
            4,
            vals@.len() as int,
        ),
    ensures
        final(slice)@ == put_column(
            old(slice)@,
            row_size as int,
            col_off as int,
            i32_fields(vals@),
        ),
        final(slice)@.len() == old(slice)@.len(),
{
    let ghost fields = i32_fields(vals@);
    let n: usize = vals.len();
    let mut i: usize = 0;
    assert(fields.take(0) =~= Seq::empty());
    while i < n
        invariant
            n == vals@.len(),
            i <= n,
            fields == i32_fields(vals@),
            slice@.len() == old(slice)@.len(),
            column_fits(slice@.len() as int, row_size as int, col_off as int, 4, n as int),
            slice@ == put_column(
                old(slice)@,
                row_size as int,
                col_off as int,
                fields.take(i as int),
            ),
        decreases n - i,
    {
        proof {
            lemma_column_step(
                slice@.len() as int,
                row_size as int,
                col_off as int,
                4,
                n as int,
                i as int,
            );
            assert(fields.take(i + 1).drop_last() =~= fields.take(i as int));
        }
        assert(i * row_size + col_off + 4 <= slice.len());
        write_i32(slice, i * row_size + col_off, vals[i]);
        i += 1;
    }
    assert(fields.take(n as int) =~= fields);
}

/// Writes a column of `i64` values: value `i` to offset `col_off` of row `i`.
pub fn write_i64_column(slice: &mut [u8], row_size: usize, col_off: usize, vals: &[i64])
    requires
        column_fits(
            old(slice)@.len() as int,
            row_size as int,
            col_off as int,
            8,
            vals@.len() as int,
        ),
    ensures
        final(slice)@ == put_column(
            old(slice)@,
            row_size as int,
            col_off as int,
            i64_fields(vals@),
        ),
        final(slice)@.len() == old(slice)@.len(),
{
    let ghost fields = i64_fields(vals@);
    let n: usize = vals.len();
    let mut i: usize = 0;
    assert(fields.take(0) =~= Seq::empty());
    while i < n
        invariant
            n == vals@.len(),
            i <= n,
            fields == i64_fields(vals@),
            slice@.len() == old(slice)@.len(),
            column_fits(slice@.len() as int, row_size as int, col_off as int, 8, n as int),
            slice@ == put_column(
                old(slice)@,
                row_size as int,
                col_off as int,
                fields.take(i as int),
            ),
        decreases n - i,
    {
        proof {
            lemma_column_step(
                slice@.len() as int,
                row_size as int,
                col_off as int,
                8,
                n as int,
                i as int,
            );
            assert(fields.take(i + 1).drop_last() =~= fields.take(i as int));
        }
        assert(i * row_size + col_off + 8 <= slice.len());
        write_u64(slice, i * row_size + col_off, vals[i] as u64);
        i += 1;
    }
    assert(fields.take(n as int) =~= fields);
}

/// Writes a column of `f32` values, given by their bit patterns: value `i` to
/// offset `col_off` of row `i`.
pub fn write_f32_column(slice: &mut [u8], row_size: usize, col_off: usize, vals: &[u32])
    requires
        column_fits(
            old(slice)@.len() as int,
            row_size as int,
            col_off as int,
            4,
            vals@.len() as int,
        ),
    ensures
        final(slice)@ == put_column(
            old(slice)@,
            row_size as int,
            col_off as int,
            f32_fields(vals@),
        ),
        final(slice)@.len() == old(slice)@.len(),
{
    let ghost fields = f32_fields(vals@);
    let n: usize = vals.len();
    let mut i: usize = 0;
    assert(fields.take(0) =~= Seq::empty());
    while i < n
        invariant
            n == vals@.len(),
            i <= n,
            fields == f32_fields(vals@),
            slice@.len() == old(slice)@.len(),
            column_fits(slice@.len() as int, row_size as int, col_off as int, 4, n as int),
            slice@ == put_column(
                old(slice)@,
                row_size as int,
                col_off as int,
                fields.take(i as int),
            ),
        decreases n - i,
    {
        proof {
            lemma_column_step(
                slice@.len() as int,
                row_size as int,
                col_off as int,
                4,
                n as int,
                i as int,
            );
            assert(fields.take(i + 1).drop_last() =~= fields.take(i as int));
        }
        assert(i * row_size + col_off + 4 <= slice.len());
        write_u32(slice, i * row_size + col_off, vals[i]);
        i += 1;
    }
    assert(fields.take(n as int) =~= fields);
}

/// Writes a column of `f64` values, given by their bit patterns: value `i` to
/// offset `col_off` of row `i`.
pub fn write_f64_column(slice: &mut [u8], row_size: usize, col_off: usize, vals: &[u64])
    requires
        column_fits(
            old(slice)@.len() as int,
            row_size as int,
            col_off as int,
            8,
            vals@.len() as int,
        ),
    ensures
        final(slice)@ == put_column(
            old(slice)@,
            row_size as int,
            col_off as int,
            f64_fields(vals@),
        ),
        final(slice)@.len() == old(slice)@.len(),
{
    let ghost fields = f64_fields(vals@);
    let n: usize = vals.len();
    let mut i: usize = 0;
    assert(fields.take(0) =~= Seq::empty());
    while i < n
        invariant
            n == vals@.len(),
            i <= n,
            fields == f64_fields(vals@),
            slice@.len() == old(slice)@.len(),
            column_fits(slice@.len() as int, row_size as int, col_off as int, 8, n as int),
            slice@ == put_column(
                old(slice)@,
                row_size as int,
                col_off as int,
                fields.take(i as int),
            ),
        decreases n - i,
    {
        proof {
            lemma_column_step(
                slice@.len() as int,
                row_size as int,
                col_off as int,
                8,
                n as int,
                i as int,
            );
            assert(fields.take(i + 1).drop_last() =~= fields.take(i as int));
        }
        assert(i * row_size + col_off + 8 <= slice.len());
        write_u64(slice, i * row_size + col_off, vals[i]);
        i += 1;
    }
    assert(fields.take(n as int) =~= fields);
}

/// Writes a column of `bool` values, a byte each: value `i` to offset `col_off`
/// of row `i`.
pub fn write_bool_column(slice: &mut [u8], row_size: usize, col_off: usize, vals: &[bool])
    requires
        column_fits(
            old(slice)@.len() as int,
            row_size as int,
            col_off as int,
            1,
            vals@.len() as int,
        ),
    ensures
        final(slice)@ == put_column(
            old(slice)@,
            row_size as int,
            col_off as int,
            bool_fields(vals@),
        ),
        final(slice)@.len() == old(slice)@.len(),
{
    let ghost fields = bool_fields(vals@);
    let n: usize = vals.len();
    let mut i: usize = 0;
    assert(fields.take(0) =~= Seq::empty());
    while i < n
        invariant
            n == vals@.len(),
            i <= n,
            fields == bool_fields(vals@),
            slice@.len() == old(slice)@.len(),
            column_fits(slice@.len() as int, row_size as int, col_off as int, 1, n as int),
            slice@ == put_column(
                old(slice)@,
                row_size as int,
                col_off as int,
                fields.take(i as int),
            ),
        decreases n - i,
    {
        proof {
            lemma_column_step(
                slice@.len() as int,
                row_size as int,
                col_off as int,
                1,
                n as int,
                i as int,
            );
            assert(fields.take(i + 1).drop_last() =~= fields.take(i as int));
        }
        let ghost before = slice@;
        assert(i * row_size + col_off + 1 <= slice.len());
        let byte: u8 = if vals[i] {
            1
        } else {
            0
        };
        slice[i * row_size + col_off] = byte;
        assert(slice@ =~= bytes::splice(
            before,
            i * row_size + col_off,
            seq![bool_byte(vals@[i as int])],
        ));
        i += 1;
    }
    assert(fields.take(n as int) =~= fields);
}

/// Number of rows of a batch.
pub open spec fn batch_rows(cols: Seq<Column>) -> nat {
    cols[0].fields().len()
}

/// Whether a batch holds the first columns of rows with the given column types,
/// all of the same length.
pub open spec fn batch_ok(cols: Seq<Column>, types: Seq<PhysType>) -> bool {
    &&& 0 < cols.len() <= types.len()
    &&& types[0] == PhysType::I32
    &&& forall|c: int| 0 <= c < cols.len() ==> (#[trigger] cols[c]).ty() == types[c]
    &&& forall|c: int|
        0 <= c < cols.len() ==> (#[trigger] cols[c]).fields().len() == batch_rows(cols)
}

/// The keys of a batch: its first column.
pub open spec fn batch_keys(cols: Seq<Column>) -> Seq<i32> {
    match cols[0] {
        Column::I32(v) => v@,
        _ => Seq::empty(),
    }
}

/// The hashes of keys.
pub open spec fn key_hashes(keys: Seq<i32>) -> Seq<u64> {
    keys.map_values(|k: i32| hash::key_hash(k))
}

/// `data` with the first `k` columns of a batch written to its rows.
pub open spec fn put_columns(
    data: Seq<u8>,
    types: Seq<PhysType>,
    cols: Seq<Column>,
    k: nat,
) -> Seq<u8>
    decreases k,
{
    if k == 0 {
        data
    } else {
        put_column(
            put_columns(data, types, cols, (k - 1) as nat),
            row::row_width(types),
            row::column_start(types, (k - 1) as nat),
            cols[k - 1].fields(),
        )
    }
}

/// The rows of a batch: zeroed, with the columns of the batch written to them.
pub open spec fn encode(types: Seq<PhysType>, cols: Seq<Column>) -> Seq<u8> {
    put_columns(
        row::zeros(batch_rows(cols) * row::row_width(types)),
        types,
        cols,
        cols.len(),
    )
}

/// What writing a column does: the fields are where they belong, and no other
/// byte changes.
proof fn lemma_put_column(
    data: Seq<u8>,
    row_size: int,
    off: int,
    fields: Seq<Seq<u8>>,
    width: int,
)
    requires
        0 <= off,
        0 < width,
        off + width <= row_size,
        fields.len() * row_size <= data.len(),
        forall|i: int| 0 <= i < fields.len() ==> (#[trigger] fields[i]).len() == width,
    ensures
        put_column(data, row_size, off, fields).len() == data.len(),
        forall|i: int, j: int|
            0 <= i < fields.len() && 0 <= j < width ==> put_column(
                data,
                row_size,
                off,
                fields,
            )[i * row_size + off + j] == #[trigger] fields[i][j],
        forall|p: int|
            0 <= p < data.len() && !(off <= p % row_size < off + width)
                ==> #[trigger] put_column(data, row_size, off, fields)[p] == data[p],
    decreases fields.len(),
{
    if fields.len() > 0 {
        let n = fields.len() as int;
        let prev = fields.drop_last();
        let mid = put_column(data, row_size, off, prev);
        let all = put_column(data, row_size, off, fields);
        row::lemma_row_in_arena(n - 1, n as nat, row_size);
        assert(prev.len() * row_size <= data.len());
        lemma_put_column(data, row_size, off, prev, width);
        let at = (n - 1) * row_size + off;
        assert forall|i: int, j: int| 0 <= i < n && 0 <= j < width implies all[i * row_size + off
            + j] == #[trigger] fields[i][j] by {
            row::lemma_row_in_arena(i, n as nat, row_size);
            if i < n - 1 {
                crate::directory::lemma_rows_disjoint(i, n - 1, n as nat, row_size);
                assert(i * row_size + row_size <= (n - 1) * row_size) by (nonlinear_arith)
                    requires
                        i < n - 1,
                        row_size >= 0,
                ;
                assert(prev[i][j] == fields[i][j]);
            }
        }
        assert forall|p: int|
            0 <= p < data.len() && !(off <= p % row_size < off + width) implies #[trigger] all[p]
            == data[p] by {
            if at <= p < at + width {
                assert(p == row_size * (n - 1) + (p - (n - 1) * row_size)) by (nonlinear_arith);
                vstd::arithmetic::div_mod::lemma_fundamental_div_mod_converse(
                    p,
                    row_size,
                    n - 1,
                    p - (n - 1) * row_size,
                );
            }
            assert(mid[p] == data[p]);
        }
    }
}

/// The bytes of a value of a column are as wide as the type of the column.
proof fn lemma_field_width(col: Column)
    ensures
        forall|i: int|
            0 <= i < col.fields().len() ==> (#[trigger] col.fields()[i]).len() == row::width(
                col.ty(),
            ),
{
}

/// After `k` columns were written, the field of column `c`, one of them, in row
/// `i` holds the bytes of the value; the header is untouched.
proof fn lemma_put_columns(
    data: Seq<u8>,
    types: Seq<PhysType>,
    cols: Seq<Column>,
    k: nat,
    c: int,
    i: int,
)
    requires
        batch_ok(cols, types),
        k <= cols.len(),
        batch_rows(cols) * row::row_width(types) <= data.len(),
    ensures
        put_columns(data, types, cols, k).len() == data.len(),
        0 <= c < k && 0 <= i < batch_rows(cols) ==> {
            let at = i * row::row_width(types) + row::column_start(types, c as nat);
            forall|j: int|
                0 <= j < row::width(types[c]) ==> put_columns(data, types, cols, k)[at + j]
                    == #[trigger] cols[c].fields()[i][j]
        },
        forall|p: int|
            0 <= p < data.len() && p % row::row_width(types) < HEADER_SIZE
                ==> #[trigger] put_columns(data, types, cols, k)[p] == data[p],
    decreases k,
{
    let rs = row::row_width(types);
    row::law_row_width_positive(types);
    if k > 0 {
        let k1 = (k - 1) as nat;
        lemma_put_columns(data, types, cols, k1, c, i);
        let mid = put_columns(data, types, cols, k1);
        let off = row::column_start(types, k1);
        let w = row::width(types[k1 as int]);
        lemma_field_width(cols[k1 as int]);
        row::lemma_column_in_row(types, k1);
        lemma_put_column(mid, rs, off, cols[k1 as int].fields(), w);
        if 0 <= c < k && 0 <= i < batch_rows(cols) {
            let start = row::column_start(types, c as nat);
            let at = i * rs + start;
            row::lemma_row_in_arena(i, batch_rows(cols), rs);
            if c < k1 {
                row::law_columns_packed(types, c as nat, k1);
                assert forall|j: int| 0 <= j < row::width(types[c]) implies put_columns(
                    data,
                    types,
                    cols,
                    k,
                )[at + j] == #[trigger] cols[c].fields()[i][j] by {
                    assert(at + j == rs * i + (start + j)) by (nonlinear_arith)
                        requires
                            at == i * rs + start,
                    ;
                    vstd::arithmetic::div_mod::lemma_fundamental_div_mod_converse(
                        at + j,
                        rs,
                        i,
                        start + j,
                    );
                    assert(mid[at + j] == cols[c].fields()[i][j]);
                }
            }
        }
        assert forall|p: int| 0 <= p < data.len() && p % rs < HEADER_SIZE implies #[trigger]
            put_columns(data, types, cols, k)[p] == data[p] by {
            assert(mid[p] == data[p]);
        }
    }
}

/// In the rows of a batch the field of column `c` of row `i` holds value `i` of
/// that column, and the headers are zero.
pub proof fn law_encoded(types: Seq<PhysType>, cols: Seq<Column>, c: int, i: int)
    requires
        batch_ok(cols, types),
        0 <= c < cols.len(),
        0 <= i < batch_rows(cols),
    ensures
        encode(types, cols).len() == batch_rows(cols) * row::row_width(types),
        ({
            let at = i * row::row_width(types) + row::column_start(types, c as nat);
            encode(types, cols).subrange(at, at + row::width(types[c])) == cols[c].fields()[i]
        }),
        encode(types, cols).subrange(
            i * row::row_width(types),
            i * row::row_width(types) + HEADER_SIZE,
        ) == row::zeros(HEADER_SIZE as int),
{
    let rs = row::row_width(types);
    let n = batch_rows(cols);
    let blank = row::zeros(n * rs);
    row::law_row_width_positive(types);
    row::lemma_row_in_arena(i, n, rs);
    lemma_put_columns(blank, types, cols, cols.len(), c, i);
    lemma_field_width(cols[c]);
    row::lemma_column_in_row(types, c as nat);
    let at = i * rs + row::column_start(types, c as nat);
    let all = encode(types, cols);
    let w = row::width(types[c]);
    assert forall|j: int| 0 <= j < w implies #[trigger] all.subrange(at, at + w)[j]
        == cols[c].fields()[i][j] by {}
    assert(all.subrange(at, at + w) =~= cols[c].fields()[i]);
    assert forall|j: int| 0 <= j < HEADER_SIZE implies #[trigger] all.subrange(
        i * rs,
        i * rs + HEADER_SIZE,
    )[j] == 0 by {
        assert(i * rs + j == rs * i + j) by (nonlinear_arith);
        vstd::arithmetic::div_mod::lemma_fundamental_div_mod_converse(i * rs + j, rs, i, j);
        assert(all[i * rs + j] == blank[i * rs + j]);
    }
    assert(all.subrange(i * rs, i * rs + HEADER_SIZE) =~= row::zeros(HEADER_SIZE as int));
}

/// The keys of the rows of a batch are the keys of the batch.
pub proof fn lemma_encoded_keys(types: Seq<PhysType>, cols: Seq<Column>)
    requires
        batch_ok(cols, types),
    ensures
        encode(types, cols).len() == batch_rows(cols) * row::row_width(types),
        batch_keys(cols).len() == batch_rows(cols),
        ht::keys_of(
            encode(types, cols),
            batch_rows(cols),
            row::row_width(types),
            HEADER_SIZE as int,
        ) == batch_keys(cols),
{
    let rs = row::row_width(types);
    let n = batch_rows(cols);
    let all = encode(types, cols);
    row::law_first_column(types);
    row::law_row_width_positive(types);
    assert(cols[0].ty() == types[0]);
    assert(0 <= n * rs) by (nonlinear_arith)
        requires
            rs >= 0,
    ;
    lemma_put_columns(row::zeros(n * rs), types, cols, cols.len(), 0, 0);
    let got = ht::keys_of(all, n, rs, HEADER_SIZE as int);
    assert forall|i: int| 0 <= i < n implies #[trigger] got[i] == batch_keys(cols)[i] by {
        law_encoded(types, cols, 0, i);
        row::lemma_row_in_arena(i, n, rs);
        let at = i * rs + HEADER_SIZE;
        let k = batch_keys(cols)[i];
        let f = bytes::u32_bytes(k as u32);
        let sub = all.subrange(at, at + 4);
        assert(sub == f);
        bytes::law_u32_round_trip(k as u32);
        bytes::law_i32_bits(k);
        assert(sub[0] == f[0] && sub[1] == f[1] && sub[2] == f[2] && sub[3] == f[3]);
    }
    assert(got =~= batch_keys(cols));
}

/// Writes one column into rows.
fn write_column(slice: &mut [u8], row_size: usize, col_off: usize, col: &Column)
    requires
        column_fits(
            old(slice)@.len() as int,
            row_size as int,
            col_off as int,
            row::width(col.ty()),
            col.fields().len() as int,
        ),
    ensures
        final(slice)@ == put_column(
            old(slice)@,
            row_size as int,
            col_off as int,
            col.fields(),
        ),
        final(slice)@.len() == old(slice)@.len(),
{
    match col {
        Column::I32(v) => write_i32_column(slice, row_size, col_off, v.as_slice()),
        Column::I64(v) => write_i64_column(slice, row_size, col_off, v.as_slice()),
        Column::F32(v) => write_f32_column(slice, row_size, col_off, v.as_slice()),
        Column::F64(v) => write_f64_column(slice, row_size, col_off, v.as_slice()),
        Column::Bool(v) => write_bool_column(slice, row_size, col_off, v.as_slice()),
    }
}

/// Writes the columns of a batch into rows, one column after the other.
fn write_columns(slice: &mut [u8], layout: &RowLayout, cols: &[Column])
    requires
        layout.wf(),
        batch_ok(cols@, layout.types()),
        old(slice)@.len() == batch_rows(cols@) * row::row_width(layout.types()),
    ensures
        final(slice)@ == put_columns(old(slice)@, layout.types(), cols@, cols@.len()),
        final(slice)@.len() == old(slice)@.len(),
{
    let ghost types = layout.types();
    let ghost n = batch_rows(cols@) as int;
    let row_size: usize = layout.row_size();
    proof {
        row::law_row_width_positive(types);
    }
    let mut c: usize = 0;
    while c < cols.len()
        invariant
            c <= cols@.len(),
            layout.wf(),
            types == layout.types(),
            n == batch_rows(cols@),
            row_size == row::row_width(types),
            row_size >= HEADER_SIZE,
            batch_ok(cols@, types),
            slice@.len() == old(slice)@.len(),
            slice@.len() == n * row_size,
            slice@ == put_columns(old(slice)@, types, cols@, c as nat),
        decreases cols@.len() - c,
    {
        let off: usize = layout.column_offset(c);
        proof {
            assert(cols@[c as int].ty() == types[c as int]);
            assert(cols@[c as int].fields().len() == n);
            row::lemma_column_in_row(types, c as nat);
            if n > 0 {
                row::lemma_row_in_arena(n - 1, n as nat, row_size as int);
            }
        }
        write_column(slice, row_size, off, &cols[c]);
        c += 1;
    }
}

/// Appends the rows of a batch to the table and records the hashes of their
/// keys. An empty batch changes nothing.
pub fn append_batch_into_ht(ht: &mut JoinHashTable, cols: &[Column])
    requires
        old(ht).wf(),
        !old(ht).is_final(),
        batch_ok(cols@, old(ht).types()),
        (old(ht).rows() + batch_rows(cols@)) * old(ht).row_size() <= isize::MAX,
    ensures
        final(ht).wf(),
        !final(ht).is_final(),
        final(ht).types() == old(ht).types(),
        final(ht).rows() == old(ht).rows() + batch_rows(cols@),
        final(ht).hashes() == old(ht).hashes() + key_hashes(batch_keys(cols@)),
        final(ht).data() == ht::stamped(
            old(ht).data() + encode(old(ht).types(), cols@),
            old(ht).row_size(),
            old(ht).rows() as int,
            key_hashes(batch_keys(cols@)),
        ),
        final(ht).keys() == old(ht).keys() + batch_keys(cols@),
{
    let ghost types = ht.types();
    let ghost rs = ht.row_size();
    let ghost before = ht.data();
    let ghost n0 = ht.rows();
    let ghost keys0 = ht.keys();
    let n: usize = cols[0].len();
    proof {
        lemma_encoded_keys(types, cols@);
        row::law_first_column(types);
    }
    if n == 0 {
        proof {
            assert(0 * rs == 0);
            let none = key_hashes(batch_keys(cols@));
            assert(none =~= Seq::empty());
            assert(encode(types, cols@) =~= Seq::empty());
            assert(before + encode(types, cols@) =~= before);
            assert(ht.hashes() + none =~= ht.hashes());
            assert(ht.keys() + batch_keys(cols@) =~= ht.keys());
        }
        return ;
    }
    let layout: RowLayout = ht.layout().clone();
    let slice: &mut [u8] = ht.append_rows(n);
    write_columns(slice, &layout, cols);
    let ghost enc = encode(types, cols@);
    let mut hashes: Vec<u64> = vec![0u64; n];
    assert(cols@[0].ty() == types[0]);
    match &cols[0] {
        Column::I32(keys) => {
            hash_i32_slice(keys.as_slice(), hashes.as_mut_slice());
        },
        _ => {},
    }
    proof {
        assert(hashes@ =~= key_hashes(batch_keys(cols@)));
        lemma_appended_keys(before, enc, n0, n as nat, rs);
        assert(ht.data() == before + enc);
        assert(ht.keys() =~= keys0 + batch_keys(cols@));
    }
    ht.record_hashes(hashes.as_slice());
}

/// The keys of rows followed by more rows.
proof fn lemma_appended_keys(before: Seq<u8>, more: Seq<u8>, n: nat, m: nat, row_size: int)
    requires
        before.len() == n * row_size,
        more.len() == m * row_size,
        row_size >= HEADER_SIZE + 4,
    ensures
        ht::keys_of(before + more, n + m, row_size, HEADER_SIZE as int) == ht::keys_of(
            before,
            n,
            row_size,
            HEADER_SIZE as int,
        ) + ht::keys_of(more, m, row_size, HEADER_SIZE as int),
{
    let off = HEADER_SIZE as int;
    let all = before + more;
    let left = ht::keys_of(before, n, row_size, off);
    let right = ht::keys_of(more, m, row_size, off);
    assert forall|r: int| 0 <= r < n + m implies #[trigger] ht::keys_of(all, n + m, row_size, off)[r]
        == (left + right)[r] by {
        if r < n {
            row::lemma_row_in_arena(r, n, row_size);
            bytes::lemma_append_frame(before, more, r * row_size + off);
        } else {
            let i = r - n;
            row::lemma_row_in_arena(i, m, row_size);
            assert(r * row_size == n * row_size + i * row_size) by (nonlinear_arith)
                requires
                    r == n + i,
            ;
            assert(all.skip(r * row_size + off) =~= more.skip(i * row_size + off));
        }
    }
    assert(ht::keys_of(all, n + m, row_size, off) =~= left + right);
}

/// Number of rows of all batches together.
pub open spec fn total_rows(batches: Seq<Vec<Column>>) -> nat
    decreases batches.len(),
{
    if batches.len() == 0 {
        0
    } else {
        total_rows(batches.drop_last()) + batch_rows(batches.last()@)
    }
}

/// The keys of all batches, one batch after the other.
pub open spec fn all_keys(batches: Seq<Vec<Column>>) -> Seq<i32>
    decreases batches.len(),
{
    if batches.len() == 0 {
        Seq::empty()
    } else {
        all_keys(batches.drop_last()) + batch_keys(batches.last()@)
    }
}

/// The rows of all batches, one batch after the other.
pub open spec fn all_encoded(types: Seq<PhysType>, batches: Seq<Vec<Column>>) -> Seq<u8>
    decreases batches.len(),
{
    if batches.len() == 0 {
        Seq::empty()
    } else {
        all_encoded(types, batches.drop_last()) + encode(types, batches.last()@)
    }
}

/// What holds of all batches together.
proof fn lemma_all_batches(types: Seq<PhysType>, batches: Seq<Vec<Column>>)
    requires
        types.len() > 0,
        types[0] == PhysType::I32,
        forall|b: int| 0 <= b < batches.len() ==> batch_ok((#[trigger] batches[b])@, types),
    ensures
        all_encoded(types, batches).len() == total_rows(batches) * row::row_width(types),
        all_keys(batches).len() == total_rows(batches),
        ht::keys_of(
            all_encoded(types, batches),
            total_rows(batches),
            row::row_width(types),
            HEADER_SIZE as int,
        ) == all_keys(batches),
    decreases batches.len(),
{
    let rs = row::row_width(types);
    row::law_first_column(types);
    if batches.len() == 0 {
        assert(0 * rs == 0);
        assert(ht::keys_of(all_encoded(types, batches), 0, rs, HEADER_SIZE as int) =~= all_keys(
            batches,
        ));
    } else {
        let prev = batches.drop_last();
        let last = batches.last()@;
        assert(batch_ok(batches[batches.len() - 1]@, types));
        assert forall|b: int| 0 <= b < prev.len() implies batch_ok((#[trigger] prev[b])@, types) by {
            assert(batch_ok(batches[b]@, types));
        }
        lemma_all_batches(types, prev);
        lemma_encoded_keys(types, last);
        assert((total_rows(prev) + batch_rows(last)) * rs == total_rows(prev) * rs + batch_rows(last)
            * rs) by (nonlinear_arith);
        lemma_appended_keys(
            all_encoded(types, prev),
            encode(types, last),
            total_rows(prev),
            batch_rows(last),
            rs,
        );
    }
}

/// The batches up to some batch have no more rows than all.
proof fn lemma_total_rows_mono(batches: Seq<Vec<Column>>, b: int)
    requires
        0 <= b <= batches.len(),
    ensures
        total_rows(batches.take(b)) <= total_rows(batches),
        b < batches.len() ==> total_rows(batches.take(b + 1)) == total_rows(batches.take(b))
            + batch_rows(batches[b]@),
    decreases batches.len() - b,
{
    if b < batches.len() {
        lemma_total_rows_mono(batches, b + 1);
        assert(batches.take(b + 1).drop_last() =~= batches.take(b));
    } else {
        assert(batches.take(b) =~= batches);
    }
}

/// The column types of a layout.
spec fn types_of(layout: &RowLayout) -> Seq<PhysType> {
    layout.types()
}

/// The rows of a batch and the hashes of their keys.
fn encode_batch(layout: &RowLayout, cols: &[Column]) -> (r: (Vec<u8>, Vec<u64>))
    requires
        layout.wf(),
        batch_ok(cols@, layout.types()),
        batch_rows(cols@) * row::row_width(layout.types()) <= isize::MAX,
    ensures
        r.0@ == encode(layout.types(), cols@),
        r.1@ == key_hashes(batch_keys(cols@)),
{
    let n: usize = cols[0].len();
    let mut data: Vec<u8> = vec![0u8; n * layout.row_size()];
    assert(data@ =~= row::zeros(n * row::row_width(layout.types())));
    write_columns(data.as_mut_slice(), layout, cols);
    let mut hashes: Vec<u64> = vec![0u64; n];
    assert(cols@[0].ty() == layout.types()[0]);
    match &cols[0] {
        Column::I32(keys) => {
            hash_i32_slice(keys.as_slice(), hashes.as_mut_slice());
        },
        _ => {},
    }
    assert(hashes@ =~= key_hashes(batch_keys(cols@)));
    (data, hashes)
}

/// Copies `src` to the elements from `off` on.
fn copy_hashes(dst: &mut [u64], off: usize, src: &[u64])
    requires
        off + src@.len() <= old(dst)@.len(),
    ensures
        final(dst)@ == old(dst)@.take(off as int) + src@ + old(dst)@.skip(
            (off + src@.len()) as int,
        ),
{
    let n: usize = src.len();
    let mut i: usize = 0;
    while i < n
        invariant
            n == src@.len(),
            i <= n,
            off + n <= dst@.len(),
            dst@.len() == old(dst)@.len(),
            dst@ == old(dst)@.take(off as int) + src@.take(i as int) + old(dst)@.skip(off + i),
        decreases n - i,
    {
        assert(off + i < dst.len());
        dst[off + i] = src[i];
        assert(dst@ =~= old(dst)@.take(off as int) + src@.take(i + 1) + old(dst)@.skip(
            off + i + 1,
        ));
        i += 1;
    }
    assert(src@.take(n as int) =~= src@);
}

/// Fills a table with the rows of all batches, in place of what it held, and records
/// the hashes of their keys. The table is sized once; the rows of the batches are laid out in
/// parallel, and each batch goes to the place that the sizes of the batches before
/// it give it. Returns the number of rows.
pub fn ingest_batches(ht: &mut JoinHashTable, batches: Vec<Vec<Column>>) -> (total: usize)
    requires
        old(ht).wf(),
        !old(ht).is_final(),
        forall|b: int|
            0 <= b < batches@.len() ==> batch_ok((#[trigger] batches@[b])@, old(ht).types()),
        total_rows(batches@) * old(ht).row_size() <= isize::MAX,
    ensures
        total == total_rows(batches@),
        final(ht).wf(),
        !final(ht).is_final(),
        final(ht).types() == old(ht).types(),
        final(ht).rows() == total,
        final(ht).hashes() == key_hashes(all_keys(batches@)),
        final(ht).data() == all_encoded(old(ht).types(), batches@),
        final(ht).keys() == all_keys(batches@),
{
    let ghost types = ht.types();
    let ghost rs = ht.row_size();
    let ghost all = batches@;
    proof {
        row::law_first_column(types);
        assert(total_rows(all) <= total_rows(all) * rs) by (nonlinear_arith)
            requires
                rs >= 1,
        ;
    }
    let mut offsets: Vec<usize> = Vec::with_capacity(batches.len());
    let mut total: usize = 0;
    let mut b: usize = 0;
    assert(all.take(0) =~= Seq::empty());
    while b < batches.len()
        invariant
            all == batches@,
            b <= all.len(),
            total == total_rows(all.take(b as int)),
            total_rows(all) <= isize::MAX,
            offsets@.len() == b,
            forall|b: int| 0 <= b < all.len() ==> batch_ok((#[trigger] all[b])@, types),
            forall|i: int| 0 <= i < b ==> #[trigger] offsets@[i] == total_rows(all.take(i)),
        decreases all.len() - b,
    {
        proof {
            lemma_total_rows_mono(all, b as int);
            lemma_total_rows_mono(all, b + 1);
            assert(batch_ok(all[b as int]@, types));
        }
        offsets.push(total);
        total += batches[b][0].len();
        b += 1;
    }
    assert(all.take(b as int) =~= all);
    let owned: RowLayout = ht.layout().clone();
    let layout: &RowLayout = &owned;
    let row_size: usize = layout.row_size();
    ht.set_len(total);
    proof {
        assert forall|i: int| 0 <= i < all.len() implies batch_rows((#[trigger] all[i])@) * rs
            <= isize::MAX by {
            lemma_total_rows_mono(all, i);
            lemma_total_rows_mono(all, i + 1);
            let n = batch_rows(all[i]@);
            assert(n * rs <= total_rows(all) * rs) by (nonlinear_arith)
                requires
                    n <= total_rows(all),
                    rs >= 0,
            ;
        }
    }
    let lay_out = |cols: Vec<Column>| -> (r: (Vec<u8>, Vec<u64>))
        requires
            batch_ok(cols@, types_of(layout)),
            batch_rows(cols@) * row::row_width(types_of(layout)) <= isize::MAX,
        ensures
            r.0@ == encode(types_of(layout), cols@),
            r.1@ == key_hashes(batch_keys(cols@)),
        { encode_batch(layout, cols.as_slice()) };
    let parts: Vec<(Vec<u8>, Vec<u64>)> = par_map(batches, lay_out);
    let mut i: usize = 0;
    proof {
        assert(all.take(0) =~= Seq::empty());
        assert(ht.data() =~= all_encoded(types, all.take(0)) + row::zeros(total * rs));
        assert(ht.hashes().take(0) =~= key_hashes(all_keys(all.take(0))));
    }
    while i < parts.len()
        invariant
            i <= parts@.len(),
            parts@.len() == all.len(),
            offsets@.len() == all.len(),
            ht.wf(),
            !ht.is_final(),
            ht.types() == types,
            ht.rows() == total,
            types.len() > 0,
            types[0] == PhysType::I32,
            total == total_rows(all),
            total <= isize::MAX,
            rs == row::row_width(types),
            row_size == rs,
            rs >= HEADER_SIZE + 4,
            total * rs <= isize::MAX,
            forall|b: int| 0 <= b < all.len() ==> batch_ok((#[trigger] all[b])@, types),
            forall|i: int| 0 <= i < all.len() ==> #[trigger] offsets@[i] == total_rows(all.take(i)),
            forall|i: int|
                0 <= i < all.len() ==> (#[trigger] parts@[i]).0@ == encode(types, all[i]@)
                    && parts@[i].1@ == key_hashes(batch_keys(all[i]@)),
            ht.data() == all_encoded(types, all.take(i as int)) + row::zeros(
                total * rs - total_rows(all.take(i as int)) * rs,
            ),
            ht.hashes().len() == total,
            ht.hashes().take(total_rows(all.take(i as int)) as int) == key_hashes(
                all_keys(all.take(i as int)),
            ),
        decreases parts@.len() - i,
    {
        let start: usize = offsets[i];
        let ghost done = all.take(i as int);
        let ghost next = all.take(i + 1);
        let ghost n = batch_rows(all[i as int]@);
        proof {
            assert forall|b: int| 0 <= b < done.len() implies batch_ok((#[trigger] done[b])@, types) by {
                assert(batch_ok(all[b]@, types));
            }
            assert(batch_ok(all[i as int]@, types));
            lemma_total_rows_mono(all, i as int);
            lemma_total_rows_mono(all, i + 1);
            lemma_all_batches(types, done);
            lemma_encoded_keys(types, all[i as int]@);
            assert(next.drop_last() =~= done);
            assert(next.last() == all[i as int]);
            let m = total_rows(done);
            assert((m + n) * rs == m * rs + n * rs && (m + n) * rs <= total * rs && 0 <= m * rs
                && 0 <= n * rs) by (nonlinear_arith)
                requires
                    m + n <= total,
                    rs >= 0,
                    m >= 0,
                    n >= 0,
            ;
        }
        let data: &mut [u8] = ht.arena_bytes_mut();
        write_bytes(data, start * row_size, parts[i].0.as_slice());
        let ghost before = ht.hashes();
        let hashes: &mut [u64] = ht.hashes_base_addr();
        copy_hashes(hashes, start, parts[i].1.as_slice());
        proof {
            assert(ht.data() =~= all_encoded(types, next) + row::zeros(
                total * rs - total_rows(next) * rs,
            ));
            let left = all_keys(done);
            let right = batch_keys(all[i as int]@);
            assert(key_hashes(left) + key_hashes(right) =~= key_hashes(left + right));
            assert(before.take(start as int) =~= key_hashes(left));
            assert(ht.hashes().take(total_rows(next) as int) =~= key_hashes(left) + key_hashes(
                right,
            ));
        }
        i += 1;
    }
    proof {
        assert(all.take(i as int) =~= all);
        lemma_all_batches(types, all);
        assert(row::zeros(0) =~= Seq::empty());
        assert(ht.data() =~= all_encoded(types, all));
        assert(ht.hashes().take(total as int) =~= ht.hashes());
    }
    total
}

/// The rows of a fresh table to which the batches were appended, one after the
/// other.
pub open spec fn all_appended(types: Seq<PhysType>, batches: Seq<Vec<Column>>) -> Seq<u8>
    decreases batches.len(),
{
    if batches.len() == 0 {
        Seq::empty()
    } else {
        ht::stamped(
            all_appended(types, batches.drop_last()) + encode(types, batches.last()@),
            row::row_width(types),
            total_rows(batches.drop_last()) as int,
            key_hashes(batch_keys(batches.last()@)),
        )
    }
}

/// Appending batches one after the other gives the rows that ingesting them together
/// gives, with the recorded hashes in the headers besides: links, keys and all other
/// columns are the same.
pub proof fn law_append_is_ingest(types: Seq<PhysType>, batches: Seq<Vec<Column>>)
    requires
        types.len() > 0,
        types[0] == PhysType::I32,
        forall|b: int| 0 <= b < batches.len() ==> batch_ok((#[trigger] batches[b])@, types),
    ensures
        all_appended(types, batches) == ht::stamped(
            all_encoded(types, batches),
            row::row_width(types),
            0,
            key_hashes(all_keys(batches)),
        ),
        all_appended(types, batches).len() == all_encoded(types, batches).len(),
        forall|i: int|
            0 <= i < all_encoded(types, batches).len() && !(row::HEADER_HASH <= i % row::row_width(
                types,
            ) < row::HEADER_HASH + 8) ==> #[trigger] all_appended(types, batches)[i]
                == all_encoded(types, batches)[i],
    decreases batches.len(),
{
    let rs = row::row_width(types);
    let hs = key_hashes(all_keys(batches));
    let enc = all_encoded(types, batches);
    row::law_row_width_positive(types);
    lemma_all_batches(types, batches);
    if batches.len() > 0 {
        let prev = batches.drop_last();
        let last = batches.last()@;
        assert forall|b: int| 0 <= b < prev.len() implies batch_ok((#[trigger] prev[b])@, types) by {
            assert(batch_ok(batches[b]@, types));
        }
        law_append_is_ingest(types, prev);
        lemma_all_batches(types, prev);
        let before = key_hashes(all_keys(prev));
        let more = key_hashes(batch_keys(last));
        let old_rows = all_encoded(types, prev);
        ht::lemma_stamped_prefix(old_rows, encode(types, last), rs, 0, before);
        ht::lemma_stamped_concat(enc, rs, 0, before, more);
        assert(hs =~= before + more);
    }
    ht::lemma_stamped_prefix(enc, Seq::empty(), rs, 0, hs);
    assert forall|i: int|
        0 <= i < enc.len() && !(row::HEADER_HASH <= i % rs < row::HEADER_HASH
            + 8) implies #[trigger] all_appended(types, batches)[i] == enc[i] by {
        ht::lemma_stamped_frame(enc, rs, 0, hs, i);
    }
}

/// The probe side of a join: the keys of all batches, and their hashes.
pub fn probe_side(batches: &[Vec<i32>]) -> (r: (Vec<i32>, Vec<u64>))
    ensures
        r.0@ == batches@.map_values(|b: Vec<i32>| b@).flatten(),
        r.1@ == key_hashes(r.0@),
{
    let ghost parts = batches@.map_values(|b: Vec<i32>| b@);
    let mut keys: Vec<i32> = Vec::new();
    let mut b: usize = 0;
    assert(parts.take(0) =~= Seq::empty());
    while b < batches.len()
        invariant
            b <= batches@.len(),
            parts == batches@.map_values(|b: Vec<i32>| b@),
            keys@ == parts.take(b as int).flatten(),
        decreases batches@.len() - b,
    {
        proof {
            assert(parts.take(b + 1) =~= parts.take(b as int).push(parts[b as int]));
            parts.take(b as int).lemma_flatten_push(parts[b as int]);
        }
        keys.extend_from_slice(batches[b].as_slice());
        b += 1;
    }
    assert(parts.take(b as int) =~= parts);
    let mut hashes: Vec<u64> = vec![0u64; keys.len()];
    hash_i32_slice(keys.as_slice(), hashes.as_mut_slice());
    assert(hashes@ =~= key_hashes(keys@));
    (keys, hashes)
}

/// The columns of one record batch of a table that keeps its data in columns:
/// the key and the data columns. Floating-point columns are held as bit patterns,
/// strings as their UTF-8 bytes.
pub struct BatchCols {
    pub k: Vec<i32>,
    pub c_int: Vec<i32>,
    pub c_bigint: Vec<i64>,
    pub c_dbl: Vec<u64>,
    pub c_flt: Vec<u32>,
    pub c_bool: Vec<bool>,
    pub c_short: Vec<Vec<u8>>,
    pub c_long: Vec<Vec<u8>>,
    pub n_rows: usize,
}

impl BatchCols {
    /// Whether all columns have as many values as the batch has rows.
    pub open spec fn ok(self) -> bool {
        &&& self.k@.len() == self.n_rows
        &&& self.c_int@.len() == self.n_rows
        &&& self.c_bigint@.len() == self.n_rows
        &&& self.c_dbl@.len() == self.n_rows
        &&& self.c_flt@.len() == self.n_rows
        &&& self.c_bool@.len() == self.n_rows
        &&& self.c_short@.len() == self.n_rows
        &&& self.c_long@.len() == self.n_rows
    }

    /// Whether all columns have as many values as the batch has rows.
    pub fn is_ok(&self) -> (b: bool)
        ensures
            b == self.ok(),
    {
        self.k.len() == self.n_rows && self.c_int.len() == self.n_rows && self.c_bigint.len()
            == self.n_rows && self.c_dbl.len() == self.n_rows && self.c_flt.len() == self.n_rows
            && self.c_bool.len() == self.n_rows && self.c_short.len() == self.n_rows
            && self.c_long.len() == self.n_rows
    }
}

/// Number of rows of the batches of a table.
pub open spec fn table_rows(batches: Seq<BatchCols>) -> nat
    decreases batches.len(),
{
    if batches.len() == 0 {
        0
    } else {
        table_rows(batches.drop_last()) + batches.last().n_rows as nat
    }
}

/// The keys of the batches of a table, one batch after the other.
pub open spec fn table_keys(batches: Seq<BatchCols>) -> Seq<i32>
    decreases batches.len(),
{
    if batches.len() == 0 {
        Seq::empty()
    } else {
        table_keys(batches.drop_last()) + batches.last().k@
    }
}

/// Whether `b` are the cumulative row counts of the batches, from 0 on.
pub open spec fn are_boundaries(b: Seq<u32>, batches: Seq<BatchCols>) -> bool {
    &&& b.len() == batches.len() + 1
    &&& forall|i: int| 0 <= i < b.len() ==> #[trigger] b[i] == table_rows(batches.take(i))
}

/// Whether row `idx` of a table with the given boundaries is row `at.1` of batch
/// `at.0`.
pub open spec fn located(b: Seq<u32>, idx: int, at: (usize, usize)) -> bool {
    &&& at.0 + 1 < b.len()
    &&& b[at.0 as int] <= idx < b[at.0 + 1]
    &&& at.1 == idx - b[at.0 as int]
}

proof fn lemma_table_rows_mono(batches: Seq<BatchCols>, i: int, j: int)
    requires
        0 <= i <= j <= batches.len(),
    ensures
        table_rows(batches.take(i)) <= table_rows(batches.take(j)),
        i < batches.len() ==> table_rows(batches.take(i + 1)) == table_rows(batches.take(i))
            + batches[i].n_rows,
    decreases j - i,
{
    if i < batches.len() {
        assert(batches.take(i + 1).drop_last() =~= batches.take(i));
    }
    if i < j {
        lemma_table_rows_mono(batches, i + 1, j);
    }
}

/// A table that keeps its data in columns: a hash table over the keys alone, the
/// record batches, and the row at which each batch starts.
pub struct TableData {
    pub ht: JoinHashTable,
    pub batches: Vec<BatchCols>,
    /// `boundaries[i]` is the first row of batch `i`; the last element is the
    /// number of rows.
    pub boundaries: Vec<u32>,
}

impl TableData {
    /// The hash table holds the keys of the batches, in order, under their
    /// hashes, and the boundaries are those of the batches.
    pub open spec fn wf(self) -> bool {
        &&& self.ht.wf()
        &&& self.ht.types() == seq![PhysType::I32]
        &&& are_boundaries(self.boundaries@, self.batches@)
        &&& forall|b: int| 0 <= b < self.batches@.len() ==> (#[trigger] self.batches@[b]).ok()
        &&& self.ht.rows() == table_rows(self.batches@)
        &&& self.ht.keys() == table_keys(self.batches@)
        &&& self.ht.hashes() == key_hashes(table_keys(self.batches@))
        &&& self.ht.is_final() ==> self.ht.dir().filed() == self.ht.hashes()
    }

    /// Number of rows.
    pub fn n_rows(&self) -> (n: usize)
        requires
            self.boundaries@.len() > 0,
        ensures
            n == self.boundaries@.last(),
            self.wf() ==> n == table_rows(self.batches@),
    {
        proof {
            if self.wf() {
                assert(self.batches@.take(self.batches@.len() as int) =~= self.batches@);
            }
        }
        self.boundaries[self.boundaries.len() - 1] as usize
    }

    /// The batch that holds row `arena_idx`, and the number of the row in it.
    /// For a number past the last row, the batch is one past the last batch.
    pub fn locate(&self, arena_idx: usize) -> (at: (usize, usize))
        requires
            are_boundaries(self.boundaries@, self.batches@),
        ensures
            arena_idx < table_rows(self.batches@) ==> located(
                self.boundaries@,
                arena_idx as int,
                at,
            ),
            arena_idx >= table_rows(self.batches@) ==> at.0 == self.batches@.len() && at.1
                == arena_idx - table_rows(self.batches@),
    {
        proof {
            assert(self.batches@.take(self.batches@.len() as int) =~= self.batches@);
            lemma_boundaries_sorted(self.boundaries@, self.batches@);
            assert(self.boundaries@[0] == table_rows(self.batches@.take(0)));
        }
        locate_in(self.boundaries.as_slice(), arena_idx)
    }
}

proof fn lemma_boundaries_sorted(b: Seq<u32>, batches: Seq<BatchCols>)
    requires
        are_boundaries(b, batches),
    ensures
        forall|i: int, j: int| 0 <= i <= j < b.len() ==> #[trigger] b[i] <= #[trigger] b[j],
        b[0] == 0,
        b[b.len() - 1] == table_rows(batches),
{
    assert forall|i: int, j: int| 0 <= i <= j < b.len() implies #[trigger] b[i]
        <= #[trigger] b[j] by {
        lemma_table_rows_mono(batches, i, j);
    }
    assert(batches.take(batches.len() as int) =~= batches);
    assert(batches.take(0) =~= Seq::empty());
    assert(b[0] == table_rows(batches.take(0)));
}

/// Binary search for the last boundary that is not above `idx`.
pub(crate) fn locate_in(boundaries: &[u32], idx: usize) -> (at: (usize, usize))
    requires
        boundaries@.len() > 0,
        boundaries@[0] == 0,
        forall|i: int, j: int|
            0 <= i <= j < boundaries@.len() ==> #[trigger] boundaries@[i]
                <= #[trigger] boundaries@[j],
    ensures
        at.0 < boundaries@.len(),
        boundaries@[at.0 as int] <= idx,
        at.1 == idx - boundaries@[at.0 as int],
        at.0 + 1 < boundaries@.len() ==> idx < boundaries@[at.0 + 1],
{
    let mut lo: usize = 0;
    let mut hi: usize = boundaries.len();
    while hi - lo > 1
        invariant
            lo < hi <= boundaries@.len(),
            boundaries@[lo as int] <= idx,
            hi < boundaries@.len() ==> idx < boundaries@[hi as int],
        decreases hi - lo,
    {
        let mid: usize = lo + (hi - lo) / 2;
        if boundaries[mid] as usize <= idx {
            lo = mid;
        } else {
            hi = mid;
        }
    }
    (lo, idx - boundaries[lo] as usize)
}

/// Every row lies in exactly one batch, at one place: `locate` inverts the
/// numbering of the rows batch by batch.
pub proof fn law_locate(b: Seq<u32>, batches: Seq<BatchCols>, batch: usize, r: usize)
    requires
        are_boundaries(b, batches),
        batch < batches.len(),
        r < batches[batch as int].n_rows,
    ensures
        ({
            let idx = table_rows(batches.take(batch as int)) + r;
            &&& idx < table_rows(batches)
            &&& located(b, idx as int, (batch, r))
            &&& forall|at: (usize, usize)| located(b, idx as int, at) ==> at == (batch, r)
        }),
{
    let idx = table_rows(batches.take(batch as int)) + r;
    lemma_table_rows_mono(batches, batch as int, batches.len() as int);
    lemma_table_rows_mono(batches, batch + 1, batches.len() as int);
    lemma_boundaries_sorted(b, batches);
    assert(b[batch as int] == table_rows(batches.take(batch as int)));
    assert(b[batch + 1] == table_rows(batches.take(batch + 1)));
    assert(batches.take(batches.len() as int) =~= batches);
    assert forall|at: (usize, usize)| located(b, idx as int, at) implies at == (batch, r) by {
        if at.0 < batch {
            assert(b[at.0 + 1] <= b[batch as int]);
        } else if at.0 > batch {
            assert(b[batch + 1] <= b[at.0 as int]);
        }
    }
}

/// A row lies at one place only.
pub proof fn lemma_located_unique(
    b: Seq<u32>,
    batches: Seq<BatchCols>,
    idx: int,
    x: (usize, usize),
    y: (usize, usize),
)
    requires
        are_boundaries(b, batches),
        located(b, idx, x),
        located(b, idx, y),
    ensures
        x == y,
        x.0 < batches.len(),
        x.1 < batches[x.0 as int].n_rows,
{
    lemma_boundaries_sorted(b, batches);
    if x.0 < y.0 {
        assert(b[x.0 + 1] <= b[y.0 as int]);
    } else if y.0 < x.0 {
        assert(b[y.0 + 1] <= b[x.0 as int]);
    }
    lemma_table_rows_mono(batches, x.0 as int, batches.len() as int);
    assert(b[x.0 as int] == table_rows(batches.take(x.0 as int)));
    assert(b[x.0 + 1] == table_rows(batches.take(x.0 + 1)));
}

/// Row `i` of batch `b` has the key that stands at its place among all keys.
pub proof fn lemma_table_key(batches: Seq<BatchCols>, b: int, i: int)
    requires
        0 <= b < batches.len(),
        forall|b: int| 0 <= b < batches.len() ==> (#[trigger] batches[b]).ok(),
        0 <= i < batches[b].n_rows,
    ensures
        table_keys(batches).len() == table_rows(batches),
        table_rows(batches.take(b)) + i < table_rows(batches),
        table_keys(batches)[table_rows(batches.take(b)) + i] == batches[b].k@[i],
    decreases batches.len(),
{
    let prev = batches.drop_last();
    assert forall|b: int| 0 <= b < prev.len() implies (#[trigger] prev[b]).ok() by {
        assert(batches[b].ok());
    }
    lemma_table_keys_len(prev);
    assert(batches[batches.len() - 1].ok());
    assert(batches[b].ok());
    if b < prev.len() {
        lemma_table_key(prev, b, i);
        assert(prev.take(b) =~= batches.take(b));
    } else {
        assert(batches.take(b) =~= prev);
    }
}

proof fn lemma_table_keys_len(batches: Seq<BatchCols>)
    requires
        forall|b: int| 0 <= b < batches.len() ==> (#[trigger] batches[b]).ok(),
    ensures
        table_keys(batches).len() == table_rows(batches),
    decreases batches.len(),
{
    if batches.len() > 0 {
        let prev = batches.drop_last();
        assert forall|b: int| 0 <= b < prev.len() implies (#[trigger] prev[b]).ok() by {
            assert(batches[b].ok());
        }
        assert(batches[batches.len() - 1].ok());
        lemma_table_keys_len(prev);
    }
}

/// The rows of a batch are rows of the table.
pub proof fn lemma_batch_in_table(t: TableData, b: int)
    requires
        t.wf(),
        0 <= b < t.batches@.len(),
    ensures
        t.boundaries@[b] + t.batches@[b].n_rows <= t.ht.rows(),
        t.batches@[b].ok(),
{
    let all = t.batches@;
    lemma_table_rows_mono(all, b, all.len() as int);
    lemma_table_rows_mono(all, b + 1, all.len() as int);
    assert(all.take(all.len() as int) =~= all);
    assert(t.boundaries@[b] == table_rows(all.take(b)));
}

/// The first batch starts at row 0.
pub proof fn lemma_first_boundary(t: TableData)
    requires
        t.wf(),
    ensures
        t.boundaries@[0] == 0,
{
    lemma_boundaries_sorted(t.boundaries@, t.batches@);
}

/// The next batch starts where a batch ends.
pub proof fn lemma_next_boundary(t: TableData, b: int)
    requires
        t.wf(),
        0 <= b < t.batches@.len(),
    ensures
        t.boundaries@[b + 1] == t.boundaries@[b] + t.batches@[b].n_rows,
{
    lemma_table_rows_mono(t.batches@, b, t.batches@.len() as int);
    assert(t.boundaries@[b] == table_rows(t.batches@.take(b)));
    assert(t.boundaries@[b + 1] == table_rows(t.batches@.take(b + 1)));
}

/// A table records one hash per row.
pub proof fn lemma_table_lens(t: TableData)
    requires
        t.wf(),
    ensures
        t.ht.hashes().len() == t.ht.rows(),
        t.ht.cached(),
{
    assert(t.ht.hashes().len() == t.ht.keys().len());
}

/// Builds a table from its record batches: the boundaries, and a hash table that
/// holds the keys and records their hashes. The rows are not filed yet.
pub fn table_from_batches(batches: Vec<BatchCols>) -> (t: TableData)
    requires
        forall|b: int| 0 <= b < batches@.len() ==> (#[trigger] batches@[b]).ok(),
        table_rows(batches@) <= u32::MAX,
        table_rows(batches@) * KEY_ROW_SIZE <= isize::MAX,
    ensures
        t.wf(),
        t.batches == batches,
        !t.ht.is_final(),
{
    let ghost all = batches@;
    let ghost types = seq![PhysType::I32];
    let mut boundaries: Vec<u32> = Vec::new();
    let mut key_batches: Vec<Vec<Column>> = Vec::with_capacity(batches.len());
    boundaries.push(0);
    let mut next: u32 = 0;
    let mut b: usize = 0;
    assert(all.take(0) =~= Seq::empty());
    assert(key_batches@.take(0) =~= Seq::empty());
    while b < batches.len()
        invariant
            all == batches@,
            b <= all.len(),
            types == seq![PhysType::I32],
            forall|b: int| 0 <= b < all.len() ==> (#[trigger] all[b]).ok(),
            table_rows(all) <= u32::MAX,
            boundaries@.len() == b + 1,
            next == table_rows(all.take(b as int)),
            forall|i: int| 0 <= i <= b ==> #[trigger] boundaries@[i] == table_rows(all.take(i)),
            key_batches@.len() == b,
            forall|i: int|
                0 <= i < b ==> batch_ok((#[trigger] key_batches@[i])@, types) && batch_keys(
                    key_batches@[i]@,
                ) == all[i].k@,
            total_rows(key_batches@) == table_rows(all.take(b as int)),
            all_keys(key_batches@) == table_keys(all.take(b as int)),
        decreases all.len() - b,
    {
        proof {
            lemma_table_rows_mono(all, b as int, all.len() as int);
            lemma_table_rows_mono(all, b + 1, all.len() as int);
            assert(all.take(all.len() as int) =~= all);
            assert(all.take(b + 1).drop_last() =~= all.take(b as int));
            assert(all[b as int].ok());
        }
        next = next + batches[b].n_rows as u32;
        boundaries.push(next);
        let keys: Vec<i32> = batches[b].k.clone();
        assert(keys@ =~= batches@[b as int].k@);
        let cols: Vec<Column> = vec![Column::I32(keys)];
        let ghost before = key_batches@;
        key_batches.push(cols);
        assert(key_batches@.drop_last() =~= before);
        b += 1;
    }
    assert(all.take(b as int) =~= all);
    let layout: RowLayout = keys_only_layout();
    let mut ht: JoinHashTable = JoinHashTable::new(layout);
    proof {
        law_key_row_size();
    }
    ingest_batches(&mut ht, key_batches);
    TableData { ht, batches, boundaries }
}

/// Whether a table over `n` bare keys fits memory and its rows have addresses
/// that fit an entry.
pub open spec fn keys_fit(n: int) -> bool {
    let size = n * KEY_ROW_SIZE;
    &&& size <= isize::MAX
    &&& row::ARENA_BASE + size <= crate::ht_entry::ADDRESS_SPACE
    &&& row::ARENA_BASE + size <= usize::MAX
}

/// Tests whether a table over `n` bare keys can be built.
pub fn key_table_fits(n: usize) -> (b: bool)
    ensures
        b == keys_fit(n as int),
{
    match n.checked_mul(KEY_ROW_SIZE) {
        None => false,
        Some(size) => size <= isize::MAX as usize && size as u64 <= crate::ht_entry::ADDRESS_SPACE
            - row::ARENA_BASE as u64,
    }
}

/// A finalized table over bare keys, filed under the given hashes.
pub fn table_of_keys(keys: &[i32], hashes: &[u64]) -> (ht: JoinHashTable)
    requires
        keys@.len() == hashes@.len(),
        keys_fit(keys@.len() as int),
    ensures
        ht.wf(),
        ht.is_final(),
        ht.types() == seq![PhysType::I32],
        ht.rows() == keys@.len(),
        ht.keys() == keys@,
        ht.hashes() == hashes@,
        ht.dir().filed() == hashes@,
{
    let n: usize = keys.len();
    let mut ht: JoinHashTable = JoinHashTable::new(keys_only_layout());
    let ghost rs = ht.row_size();
    proof {
        law_key_row_size();
    }
    ht.set_len(n);
    let row_size: usize = ht.layout().row_size();
    let key_off: usize = ht.key_offset();
    let ghost blank = row::zeros(n * rs);
    let ghost fields = i32_fields(keys@);
    proof {
        row::law_first_column(ht.types());
        assert(ht.data() =~= blank);
        if n > 0 {
            row::lemma_row_in_arena(n - 1, n as nat, rs);
        }
    }
    let data: &mut [u8] = ht.arena_bytes_mut();
    write_i32_column(data, row_size, key_off, keys);
    let slots: &mut [u64] = ht.hashes_base_addr();
    copy_hashes(slots, 0, hashes);
    proof {
        assert(ht.hashes() =~= hashes@);
        assert(ht.data() == put_column(blank, rs, HEADER_SIZE as int, fields));
        lemma_put_column(blank, rs, HEADER_SIZE as int, fields, 4);
        assert forall|r: int| 0 <= r < n implies #[trigger] ht.keys()[r] == keys@[r] by {
            let at = r * rs + HEADER_SIZE;
            row::lemma_row_in_arena(r, n as nat, rs);
            let f = bytes::u32_bytes(keys@[r] as u32);
            bytes::law_u32_round_trip(keys@[r] as u32);
            bytes::law_i32_bits(keys@[r]);
            assert(fields[r] == f);
            assert(ht.data()[at] == fields[r][0] && ht.data()[at + 1] == fields[r][1]
                && ht.data()[at + 2] == fields[r][2] && ht.data()[at + 3] == fields[r][3]);
        }
        assert(ht.keys() =~= keys@);
    }
    ht.finalize_parallel();
    ht
}

/// A place that holds the bytes of a value reads as that value.
proof fn lemma_field_value(data: Seq<u8>, at: int, col: Column, i: int)
    requires
        0 <= at,
        at + row::width(col.ty()) <= data.len(),
        0 <= i < col.fields().len(),
        data.subrange(at, at + row::width(col.ty())) == col.fields()[i],
    ensures
        match col {
            Column::I32(v) => bytes::i32_at(data, at) == v@[i],
            Column::I64(v) => bytes::u64_at(data, at) as i64 == v@[i],
            Column::F32(v) => bytes::u32_at(data, at) == v@[i],
            Column::F64(v) => bytes::u64_at(data, at) == v@[i],
            Column::Bool(v) => data[at] == (if v@[i] {
                1u8
            } else {
                0u8
            }),
        },
{
    bytes::law_field_read(data, at);
    match col {
        Column::I32(v) => {
            let x = v@[i];
            bytes::law_u32_round_trip(x as u32);
            bytes::law_u32_round_trip(bytes::u32_at(data, at));
            bytes::law_i32_bits(x);
        },
        Column::I64(v) => {
            let x = v@[i];
            bytes::law_u64_round_trip(x as u64);
            bytes::law_u64_round_trip(bytes::u64_at(data, at));
            assert((x as u64) as i64 == x) by (bit_vector);
        },
        Column::F32(v) => {
            bytes::law_u32_round_trip(v@[i]);
            bytes::law_u32_round_trip(bytes::u32_at(data, at));
        },
        Column::F64(v) => {
            bytes::law_u64_round_trip(v@[i]);
            bytes::law_u64_round_trip(bytes::u64_at(data, at));
        },
        Column::Bool(v) => {
            assert(data.subrange(at, at + 1)[0] == data[at]);
        },
    }
}

/// A column written into rows reads back: at its offset in row `i` stands value `i`,
/// whatever the value. No byte of a row outside the column changes.
pub proof fn law_column_reads_back(
    data: Seq<u8>,
    row_size: int,
    off: int,
    col: Column,
    i: int,
)
    requires
        0 <= off,
        off + row::width(col.ty()) <= row_size,
        col.fields().len() * row_size <= data.len(),
        0 <= i < col.fields().len(),
    ensures
        put_column(data, row_size, off, col.fields()).len() == data.len(),
        ({
            let at = i * row_size + off;
            let after = put_column(data, row_size, off, col.fields());
            match col {
                Column::I32(v) => bytes::i32_at(after, at) == v@[i],
                Column::I64(v) => bytes::u64_at(after, at) as i64 == v@[i],
                Column::F32(v) => bytes::u32_at(after, at) == v@[i],
                Column::F64(v) => bytes::u64_at(after, at) == v@[i],
                Column::Bool(v) => after[at] == (if v@[i] {
                    1u8
                } else {
                    0u8
                }),
            }
        }),
        forall|p: int|
            0 <= p < data.len() && !(off <= p % row_size < off + row::width(col.ty()))
                ==> #[trigger] put_column(data, row_size, off, col.fields())[p] == data[p],
{
    let fields = col.fields();
    let w = row::width(col.ty());
    let at = i * row_size + off;
    let after = put_column(data, row_size, off, fields);
    lemma_field_width(col);
    lemma_put_column(data, row_size, off, fields, w);
    row::lemma_row_in_arena(i, fields.len(), row_size);
    assert forall|j: int| 0 <= j < w implies #[trigger] after.subrange(at, at + w)[j]
        == fields[i][j] by {}
    assert(after.subrange(at, at + w) =~= fields[i]);
    lemma_field_value(after, at, col, i);
}

/// The values of a column are as many as its fields.
pub proof fn law_column_len(col: Column)
    ensures
        match col {
            Column::I32(v) => col.fields().len() == v@.len(),
            Column::I64(v) => col.fields().len() == v@.len(),
            Column::F32(v) => col.fields().len() == v@.len(),
            Column::F64(v) => col.fields().len() == v@.len(),
            Column::Bool(v) => col.fields().len() == v@.len(),
        },
{
}

/// In the rows of a batch, reading the field of column `c` of row `i` gives value `i`
/// of that column, whatever the value.
pub proof fn law_encoded_value(types: Seq<PhysType>, cols: Seq<Column>, c: int, i: int)
    requires
        batch_ok(cols, types),
        0 <= c < cols.len(),
        0 <= i < batch_rows(cols),
    ensures
        ({
            let at = i * row::row_width(types) + row::column_start(types, c as nat);
            let rows = encode(types, cols);
            match cols[c] {
                Column::I32(v) => bytes::i32_at(rows, at) == v@[i],
                Column::I64(v) => bytes::u64_at(rows, at) as i64 == v@[i],
                Column::F32(v) => bytes::u32_at(rows, at) == v@[i],
                Column::F64(v) => bytes::u64_at(rows, at) == v@[i],
                Column::Bool(v) => rows[at] == (if v@[i] {
                    1u8
                } else {
                    0u8
                }),
            }
        }),
{
    let rs = row::row_width(types);
    law_encoded(types, cols, c, i);
    row::lemma_column_in_row(types, c as nat);
    row::law_row_width_positive(types);
    row::lemma_row_in_arena(i, batch_rows(cols), rs);
    lemma_field_value(
        encode(types, cols),
        i * rs + row::column_start(types, c as nat),
        cols[c],
        i,
    );
}

/// After a batch was appended to rows, reading the field of column `c` of its row `i`
/// gives value `i` of that column; the hash in the header of the row is that of its
/// key; and the rows that were there before are as they were.
pub proof fn law_appended_value(
    before: Seq<u8>,
    n: nat,
    types: Seq<PhysType>,
    cols: Seq<Column>,
    c: int,
    i: int,
)
    requires
        batch_ok(cols, types),
        before.len() == n * row::row_width(types),
        0 <= c < cols.len(),
        0 <= i < batch_rows(cols),
    ensures
        ({
            let rs = row::row_width(types);
            let at = (n + i) * rs + row::column_start(types, c as nat);
            let rows = ht::stamped(
                before + encode(types, cols),
                rs,
                n as int,
                key_hashes(batch_keys(cols)),
            );
            &&& rows.len() == (n + batch_rows(cols)) * rs
            &&& rows.take(before.len() as int) == before
            &&& bytes::u64_at(rows, (n + i) * rs + 8) == hash::murmur64(
                (batch_keys(cols)[i] as u32) as u64,
            )
            &&& match cols[c] {
                Column::I32(v) => bytes::i32_at(rows, at) == v@[i],
                Column::I64(v) => bytes::u64_at(rows, at) as i64 == v@[i],
                Column::F32(v) => bytes::u32_at(rows, at) == v@[i],
                Column::F64(v) => bytes::u64_at(rows, at) == v@[i],
                Column::Bool(v) => rows[at] == (if v@[i] {
                    1u8
                } else {
                    0u8
                }),
            }
        }),
{
    let rs = row::row_width(types);
    let m = batch_rows(cols);
    let enc = encode(types, cols);
    let hs = key_hashes(batch_keys(cols));
    let all = before + enc;
    let rows = ht::stamped(all, rs, n as int, hs);
    let start = row::column_start(types, c as nat);
    let w = row::width(types[c]);
    let here = i * rs + start;
    let at = (n + i) * rs + start;
    row::law_row_width_positive(types);
    row::law_first_column(types);
    row::lemma_column_in_row(types, c as nat);
    lemma_encoded_keys(types, cols);
    law_encoded(types, cols, c, i);
    lemma_field_width(cols[c]);
    row::lemma_row_in_arena(i, m, rs);
    row::lemma_row_in_arena(n + i, n + m, rs);
    assert((n + m) * rs == n * rs + m * rs) by (nonlinear_arith);
    assert((n + i) * rs == n * rs + i * rs) by (nonlinear_arith);
    ht::law_stamped(all, rs, n + m, n as int, hs, n + i, HEADER_SIZE as int);
    assert forall|j: int| 0 <= j < w implies #[trigger] rows.subrange(at, at + w)[j]
        == enc.subrange(here, here + w)[j] by {
        vstd::arithmetic::div_mod::lemma_fundamental_div_mod_converse(
            at + j,
            rs,
            n + i,
            start + j,
        );
        ht::lemma_stamped_frame(all, rs, n as int, hs, at + j);
    }
    assert(rows.subrange(at, at + w) =~= enc.subrange(here, here + w));
    lemma_field_value(rows, at, cols[c], i);
    ht::lemma_stamped_behind(before, enc, rs, n, hs);
}

/// After batches were ingested together, reading the field of column `c` of row `i` of
/// batch `b` gives value `i` of that column of that batch, whatever the value.
pub proof fn law_ingested_value(
    types: Seq<PhysType>,
    batches: Seq<Vec<Column>>,
    b: int,
    c: int,
    i: int,
)
    requires
        types.len() > 0,
        types[0] == PhysType::I32,
        forall|b: int| 0 <= b < batches.len() ==> batch_ok((#[trigger] batches[b])@, types),
        0 <= b < batches.len(),
        0 <= c < batches[b]@.len(),
        0 <= i < batch_rows(batches[b]@),
    ensures
        ({
            let at = (total_rows(batches.take(b)) + i) * row::row_width(types) + row::column_start(
                types,
                c as nat,
            );
            let rows = all_encoded(types, batches);
            match batches[b]@[c] {
                Column::I32(v) => bytes::i32_at(rows, at) == v@[i],
                Column::I64(v) => bytes::u64_at(rows, at) as i64 == v@[i],
                Column::F32(v) => bytes::u32_at(rows, at) == v@[i],
                Column::F64(v) => bytes::u64_at(rows, at) == v@[i],
                Column::Bool(v) => rows[at] == (if v@[i] {
                    1u8
                } else {
                    0u8
                }),
            }
        }),
{
    let rs = row::row_width(types);
    let cols = batches[b]@;
    let start = row::column_start(types, c as nat);
    let w = row::width(types[c]);
    let first = total_rows(batches.take(b));
    let here = i * rs + start;
    let at = (first + i) * rs + start;
    let rows = all_encoded(types, batches);
    assert(batch_ok(cols, types));
    row::law_row_width_positive(types);
    row::lemma_column_in_row(types, c as nat);
    law_encoded(types, cols, c, i);
    lemma_field_width(cols[c]);
    row::lemma_row_in_arena(i, batch_rows(cols), rs);
    lemma_batch_in_place(types, batches, b);
    assert((first + i) * rs == first * rs + i * rs) by (nonlinear_arith);
    let enc = encode(types, cols);
    assert(rows.subrange(at, at + w) =~= rows.subrange(
        first * rs,
        first * rs + enc.len(),
    ).subrange(here, here + w));
    assert(0 <= first * rs) by (nonlinear_arith)
        requires
            rs >= 0,
            first >= 0,
    ;
    lemma_field_value(rows, at, cols[c], i);
}

/// The rows of a batch lie, in one piece, behind those of the batches before it.
proof fn lemma_batch_in_place(types: Seq<PhysType>, batches: Seq<Vec<Column>>, b: int)
    requires
        types.len() > 0,
        types[0] == PhysType::I32,
        forall|b: int| 0 <= b < batches.len() ==> batch_ok((#[trigger] batches[b])@, types),
        0 <= b < batches.len(),
    ensures
        ({
            let at = total_rows(batches.take(b)) * row::row_width(types);
            let enc = encode(types, batches[b]@);
            &&& 0 <= at
            &&& at + enc.len() <= all_encoded(types, batches).len()
            &&& all_encoded(types, batches).subrange(at, at + enc.len()) == enc
        }),
    decreases batches.len(),
{
    let prev = batches.drop_last();
    let rs = row::row_width(types);
    row::law_row_width_positive(types);
    assert forall|b: int| 0 <= b < prev.len() implies batch_ok((#[trigger] prev[b])@, types) by {
        assert(batch_ok(batches[b]@, types));
    }
    let at = total_rows(batches.take(b)) * rs;
    let enc = encode(types, batches[b]@);
    let all = all_encoded(types, batches);
    assert(0 <= at) by (nonlinear_arith)
        requires
            rs >= 0,
            at == total_rows(batches.take(b)) * rs,
    ;
    if b < prev.len() {
        lemma_batch_in_place(types, prev, b);
        assert(prev.take(b) =~= batches.take(b));
        assert(all.subrange(at, at + enc.len()) =~= all_encoded(types, prev).subrange(
            at,
            at + enc.len(),
        ));
    } else {
        assert(batches.take(b) =~= prev);
        lemma_all_batches(types, prev);
        assert(all.subrange(at, at + enc.len()) =~= enc);
    }
}

/// The keys of a batch are the values of its first column, and those of several
/// batches stand one batch after the other.
pub proof fn law_batch_keys(batches: Seq<Vec<Column>>, b: int, i: int)
    requires
        0 <= b < batches.len(),
        0 <= i < batch_keys(batches[b]@).len(),
        forall|b: int|
            0 <= b < batches.len() ==> batch_keys((#[trigger] batches[b])@).len() == batch_rows(
                batches[b]@,
            ),
    ensures
        batches[b]@[0] matches Column::I32(v) ==> batch_keys(batches[b]@) == v@,
        total_rows(batches.take(b)) + i < all_keys(batches).len(),
        all_keys(batches)[total_rows(batches.take(b)) + i] == batch_keys(batches[b]@)[i],
        all_keys(batches).len() == total_rows(batches),
    decreases batches.len(),
{
    let prev = batches.drop_last();
    assert forall|b: int| 0 <= b < prev.len() implies batch_keys((#[trigger] prev[b])@).len()
        == batch_rows(prev[b]@) by {
        assert(batches[b]@ == prev[b]@);
    }
    lemma_all_keys_len(prev);
    assert(batch_keys(batches[batches.len() - 1]@).len() == batch_rows(
        batches[batches.len() - 1]@,
    ));
    if b < prev.len() {
        law_batch_keys(prev, b, i);
        assert(prev.take(b) =~= batches.take(b));
    } else {
        assert(batches.take(b) =~= prev);
    }
}

proof fn lemma_all_keys_len(batches: Seq<Vec<Column>>)
    requires
        forall|b: int|
            0 <= b < batches.len() ==> batch_keys((#[trigger] batches[b])@).len() == batch_rows(
                batches[b]@,
            ),
    ensures
        all_keys(batches).len() == total_rows(batches),
    decreases batches.len(),
{
    if batches.len() > 0 {
        let prev = batches.drop_last();
        assert forall|b: int| 0 <= b < prev.len() implies batch_keys((#[trigger] prev[b])@).len()
            == batch_rows(prev[b]@) by {
            assert(batches[b]@ == prev[b]@);
        }
        lemma_all_keys_len(prev);
        assert(batch_keys(batches[batches.len() - 1]@).len() == batch_rows(
            batches[batches.len() - 1]@,
        ));
    }
}

/// The hashes recorded for keys are the 64-bit hashes of their zero extensions, one
/// per key.
pub proof fn law_key_hashes(keys: Seq<i32>, i: int)
    requires
        0 <= i < keys.len(),
    ensures
        key_hashes(keys).len() == keys.len(),
        key_hashes(keys)[i] == hash::murmur64((keys[i] as u32) as u64),
{
}

/// A table that keeps its data in columns numbers its rows batch by batch: row `i` of
/// batch `b` is row `boundaries[b] + i`, has its key, and is found again there.
pub proof fn law_table_rows(t: TableData, b: int, i: int)
    requires
        t.wf(),
        0 <= b < t.batches@.len(),
        0 <= i < t.batches@[b].n_rows,
    ensures
        t.boundaries@.len() == t.batches@.len() + 1,
        t.boundaries@[0] == 0,
        t.boundaries@[b + 1] == t.boundaries@[b] + t.batches@[b].n_rows,
        t.boundaries@[t.batches@.len() as int] == t.ht.rows(),
        t.boundaries@[b] + i < t.ht.rows(),
        t.ht.keys()[t.boundaries@[b] + i] == t.batches@[b].k@[i],
        t.ht.hashes()[t.boundaries@[b] + i] == hash::murmur64(
            (t.batches@[b].k@[i] as u32) as u64,
        ),
        forall|at: (usize, usize)|
            located(t.boundaries@, t.boundaries@[b] + i, at) ==> at.0 == b && at.1 == i,
{
    let all = t.batches@;
    assert(all.len() == t.batches.len());
    assert(t.boundaries@[b] == table_rows(all.take(b)));
    lemma_first_boundary(t);
    lemma_next_boundary(t, b);
    lemma_batch_in_table(t, b);
    lemma_table_key(all, b, i);
    lemma_boundaries_sorted(t.boundaries@, all);
    law_locate(t.boundaries@, all, b as usize, i as usize);
}

/// Bare keys take 24 bytes each; they fit if they fit memory, and if the address behind
/// the last of them has at most 48 bits.
pub proof fn law_keys_fit(n: int)
    ensures
        keys_fit(n) <==> 24 * n <= isize::MAX && 64 + 24 * n <= 0x1_0000_0000_0000 && 64 + 24 * n
            <= usize::MAX,
{
}

/// The fields of a column hold the bytes of its values, one for one: four or eight, the
/// lowest first, and for a truth value the byte 1 or 0.
pub proof fn law_fields(
    ints: Seq<i32>,
    longs: Seq<i64>,
    floats: Seq<u32>,
    doubles: Seq<u64>,
    bools: Seq<bool>,
    i: int,
)
    ensures
        i32_fields(ints).len() == ints.len(),
        0 <= i < ints.len() ==> i32_fields(ints)[i] == bytes::u32_bytes(ints[i] as u32),
        i64_fields(longs).len() == longs.len(),
        0 <= i < longs.len() ==> i64_fields(longs)[i] == bytes::u64_bytes(longs[i] as u64),
        f32_fields(floats).len() == floats.len(),
        0 <= i < floats.len() ==> f32_fields(floats)[i] == bytes::u32_bytes(floats[i]),
        f64_fields(doubles).len() == doubles.len(),
        0 <= i < doubles.len() ==> f64_fields(doubles)[i] == bytes::u64_bytes(doubles[i]),
        bool_fields(bools).len() == bools.len(),
        0 <= i < bools.len() ==> bool_fields(bools)[i] == (if bools[i] {
            seq![1u8]
        } else {
            seq![0u8]
        }),
{
}

/// The type of a column is that of its values.
pub proof fn law_column_type(col: Column)
    ensures
        match col {
            Column::I32(_) => col.ty() == PhysType::I32,
            Column::I64(_) => col.ty() == PhysType::I64,
            Column::F32(_) => col.ty() == PhysType::F32,
            Column::F64(_) => col.ty() == PhysType::F64,
            Column::Bool(_) => col.ty() == PhysType::Bool,
        },
{
}

/// A batch is in order if and only if each of its columns has a value for every row.
pub proof fn law_batch_ok(cols: BatchCols)
    ensures
        cols.ok() <==> cols.k@.len() == cols.n_rows && cols.c_int@.len() == cols.n_rows
            && cols.c_bigint@.len() == cols.n_rows && cols.c_dbl@.len() == cols.n_rows
            && cols.c_flt@.len() == cols.n_rows && cols.c_bool@.len() == cols.n_rows
            && cols.c_short@.len() == cols.n_rows && cols.c_long@.len() == cols.n_rows,
{
}

} // verus!
