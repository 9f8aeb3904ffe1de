//! Row storage for the build side of a join.
//!
//! Rows have fixed width: a header, then one slot per column.
//!
//! ```text
//!   offset  size  field
//!   0       8     next_ptr   u64, address of the next row on the chain, or 0
//!   8       8     hash       u64, cached hash
//!   16      ...   columns    slots at `RowLayout::column_offset`
//! ```
//!
//! Multi-byte fields are little-endian. Rows live in one contiguous arena and
//! are named by their address: `ARENA_BASE` plus the byte offset of the row in
//! the arena. Addresses do not change when the arena grows, and none is 0.

use crate::bytes;
use crate::bytes::{read_u64, write_u64};
use vstd::arithmetic::power2::*;
use vstd::prelude::*;

verus! {

pub const HEADER_NEXT_PTR: usize = 0;

pub const HEADER_HASH: usize = 8;

pub const HEADER_SIZE: usize = 16;

/// Address of the first row of an arena.
pub const ARENA_BASE: usize = 64;

/// Physical column types.
#[derive(Copy, Clone, Debug, PartialEq, Eq, Structural)]
pub enum PhysType {
    I32,
    I64,
    F32,
    F64,
    Bool,
}

/// Width of a column slot in bytes.
pub open spec fn width(ty: PhysType) -> int {
    match ty {
        PhysType::I32 | PhysType::F32 => 4,
        PhysType::I64 | PhysType::F64 => 8,
        PhysType::Bool => 1,
    }
}

impl PhysType {
    /// Width of a slot of this type in bytes.
    pub fn size(self) -> (n: usize)
        ensures
            n == width(self),
    {
        match self {
            PhysType::I32 | PhysType::F32 => 4,
            PhysType::I64 | PhysType::F64 => 8,
            PhysType::Bool => 1,
        }
    }

    /// Natural alignment of a slot of this type: its width.
    pub fn align(self) -> (n: usize)
        ensures
            n == width(self),
    {
        self.size()
    }
}

/// The smallest multiple of `align` that is not below `x`.
pub open spec fn round_up(x: int, align: int) -> int {
    (x + align - 1) / align * align
}

/// Offset of the byte after the first `i` columns of a row.
pub open spec fn columns_end(types: Seq<PhysType>, i: nat) -> int
    decreases i,
{
    if i == 0 {
        HEADER_SIZE as int
    } else {
        round_up(columns_end(types, (i - 1) as nat), width(types[i - 1])) + width(types[i - 1])
    }
}

/// Offset of column `i` in a row: the first aligned offset past the columns
/// before it.
pub open spec fn column_start(types: Seq<PhysType>, i: nat) -> int {
    round_up(columns_end(types, i), width(types[i as int]))
}

/// Width of a row in bytes: the columns, padded to a multiple of 8.
pub open spec fn row_width(types: Seq<PhysType>) -> int {
    round_up(columns_end(types, types.len()), 8)
}

/// Describes the layout of a row: header and column offsets.
#[derive(Debug)]
pub struct RowLayout {
    column_types: Vec<PhysType>,
    column_offsets: Vec<usize>,
    row_size: usize,
}

impl Clone for RowLayout {
    fn clone(&self) -> (r: Self)
        ensures
            r.types() == self.types(),
            self.wf() ==> r.wf(),
    {
        let column_types: Vec<PhysType> = self.column_types.clone();
        let column_offsets: Vec<usize> = self.column_offsets.clone();
        assert(column_types@ =~= self.column_types@);
        assert(column_offsets@ =~= self.column_offsets@);
        RowLayout { column_types, column_offsets, row_size: self.row_size }
    }
}

impl RowLayout {
    /// The column types, in order.
    pub closed spec fn types(self) -> Seq<PhysType> {
        self.column_types@
    }

    /// Whether the stored offsets and row size are those of the column types.
    pub closed spec fn wf(self) -> bool {
        &&& self.column_offsets.len() == self.column_types.len()
        &&& forall|i: int|
            0 <= i < self.column_types.len() ==> #[trigger] self.column_offsets[i] == column_start(
                self.column_types@,
                i as nat,
            )
        &&& self.row_size == row_width(self.column_types@)
    }

    /// Builds the layout for the given column types: the columns in the order
    /// given, each at its natural alignment, the first right after the header.
    pub fn new(column_types: Vec<PhysType>) -> (r: Self)
        requires
            row_width(column_types@) <= usize::MAX,
        ensures
            r.wf(),
            r.types() == column_types@,
    {
        let mut offset: usize = HEADER_SIZE;
        let mut column_offsets: Vec<usize> = Vec::with_capacity(column_types.len());
        let mut i: usize = 0;
        let n: usize = column_types.len();
        while i < n
            invariant
                n == column_types.len(),
                i <= n,
                row_width(column_types@) <= usize::MAX,
                offset == columns_end(column_types@, i as nat),
                column_offsets.len() == i,
                forall|j: int|
                    0 <= j < i ==> #[trigger] column_offsets[j] == column_start(
                        column_types@,
                        j as nat,
                    ),
            decreases n - i,
        {
            let ty: PhysType = column_types[i];
            proof {
                lemma_columns_end_monotonic(column_types@, (i + 1) as nat, n as nat);
                lemma_round_up(columns_end(column_types@, n as nat), 8);
                lemma_round_up(offset as int, width(ty));
            }
            let start: usize = align_up(offset, ty.align());
            column_offsets.push(start);
            offset = start + ty.size();
            i += 1;
        }
        proof {
            lemma_round_up(offset as int, 8);
        }
        let row_size: usize = align_up(offset, 8);
        RowLayout { column_types, column_offsets, row_size }
    }

    /// Width of a row in bytes.
    pub fn row_size(&self) -> (n: usize)
        requires
            self.wf(),
        ensures
            n == row_width(self.types()),
    {
        self.row_size
    }

    /// Number of columns.
    pub fn num_columns(&self) -> (n: usize)
        ensures
            n == self.types().len(),
    {
        self.column_types.len()
    }

    /// Offset of column `idx` in a row.
    pub fn column_offset(&self, idx: usize) -> (n: usize)
        requires
            self.wf(),
            idx < self.types().len(),
        ensures
            n == column_start(self.types(), idx as nat),
    {
        self.column_offsets[idx]
    }

    /// Type of column `idx`.
    pub fn column_type(&self, idx: usize) -> (t: PhysType)
        requires
            idx < self.types().len(),
        ensures
            t == self.types()[idx as int],
    {
        self.column_types[idx]
    }
}

/// Rounds `x` up to a multiple of `align`, which is meant to be a power of two.
pub fn align_up(x: usize, align: usize) -> (r: usize)
    requires
        align > 0,
        x + align - 1 <= usize::MAX,
    ensures
        r == ((x + align - 1) as usize) & !((align - 1) as usize),
        is_power_of_two(align as int) ==> r == round_up(x as int, align as int),
{
    let r: usize = (x + (align - 1)) & !(align - 1);
    proof {
        if is_power_of_two(align as int) {
            let k = choose|k: nat| #[trigger] pow2(k) == align;
            let y = (x + align - 1) as usize;
            let m = (align - 1) as usize;
            lemma_exponent_in_usize(align, k);
            vstd::bits::lemma_usize_low_bits_mask_is_mod(y, k);
            assert(y & !m == y - (y & m)) by (bit_vector);
            vstd::arithmetic::div_mod::lemma_fundamental_div_mod(y as int, align as int);
            assert(y as int / align as int * align as int == align as int * (y as int
                / align as int)) by (nonlinear_arith);
        }
    }
    r
}

/// Whether `x` is a power of two.
pub open spec fn is_power_of_two(x: int) -> bool {
    exists|k: nat| #[trigger] pow2(k) == x
}

pub(crate) proof fn lemma_exponent_in_usize(x: usize, k: nat)
    requires
        pow2(k) == x,
    ensures
        k < usize::BITS,
{
    if k >= usize::BITS {
        lemma2_to64();
        lemma2_to64_rest();
        if k > usize::BITS {
            lemma_pow2_strictly_increases(usize::BITS as nat, k);
        }
    }
}

pub(crate) proof fn lemma_small_powers()
    ensures
        is_power_of_two(1),
        is_power_of_two(4),
        is_power_of_two(8),
{
    lemma2_to64();
    assert(pow2(0) == 1);
    assert(pow2(2) == 4);
    assert(pow2(3) == 8);
}

pub(crate) proof fn lemma_round_up(x: int, align: int)
    requires
        align == 1 || align == 4 || align == 8,
    ensures
        x <= round_up(x, align) < x + align,
        round_up(x, align) % align == 0,
        is_power_of_two(align),
{
    lemma_small_powers();
}

pub(crate) proof fn lemma_columns_end_monotonic(types: Seq<PhysType>, i: nat, j: nat)
    requires
        i <= j <= types.len(),
    ensures
        HEADER_SIZE <= columns_end(types, i) <= columns_end(types, j),
        i < j ==> columns_end(types, i) <= column_start(types, i) && column_start(types, i) + width(
            types[i as int],
        ) <= columns_end(types, j),
    decreases j,
{
    if i < j {
        lemma_columns_end_monotonic(types, i, (j - 1) as nat);
        lemma_round_up(columns_end(types, (j - 1) as nat), width(types[j - 1]));
    } else if i > 0 {
        lemma_columns_end_monotonic(types, (i - 1) as nat, (i - 1) as nat);
        lemma_round_up(columns_end(types, (i - 1) as nat), width(types[i - 1]));
    }
}

/// Columns lie between the header and the end of the row, each at its natural
/// alignment, in order and without overlap; rows are a multiple of 8 wide.
pub proof fn law_columns_packed(types: Seq<PhysType>, i: nat, j: nat)
    requires
        i < j < types.len(),
    ensures
        column_start(types, i) >= HEADER_SIZE,
        column_start(types, i) % width(types[i as int]) == 0,
        column_start(types, i) + width(types[i as int]) <= column_start(types, j),
        column_start(types, j) % width(types[j as int]) == 0,
        column_start(types, j) + width(types[j as int]) <= row_width(types),
        row_width(types) % 8 == 0,
{
    lemma_columns_end_monotonic(types, i, j);
    lemma_columns_end_monotonic(types, j, types.len());
    lemma_round_up(columns_end(types, i), width(types[i as int]));
    lemma_round_up(columns_end(types, j), width(types[j as int]));
    lemma_round_up(columns_end(types, types.len()), 8);
}

/// Whether `x` is the least multiple of `align` that is not below `from`.
pub open spec fn is_least_multiple(x: int, from: int, align: int) -> bool {
    &&& from <= x
    &&& x % align == 0
    &&& forall|y: int| from <= y && #[trigger] (y % align) == 0 ==> x <= y
}

/// Columns are packed tightly: each starts at the least multiple of its width past
/// the column before it, the first past the header, and the row ends at the least
/// multiple of 8 past the last one.
pub proof fn law_columns_tight(types: Seq<PhysType>, i: nat)
    requires
        i <= types.len(),
    ensures
        ({
            let end = if i == 0 {
                HEADER_SIZE as int
            } else {
                column_start(types, (i - 1) as nat) + width(types[i - 1])
            };
            &&& i < types.len() ==> is_least_multiple(
                column_start(types, i),
                end,
                width(types[i as int]),
            )
            &&& i == types.len() ==> is_least_multiple(row_width(types), end, 8)
        }),
{
    let end = columns_end(types, i);
    let align = if i < types.len() {
        width(types[i as int])
    } else {
        8
    };
    let x = round_up(end, align);
    lemma_round_up(end, align);
    assert forall|y: int| end <= y && #[trigger] (y % align) == 0 implies x <= y by {
        assert(x <= y) by (nonlinear_arith)
            requires
                x < end + align,
                end <= y,
                x % align == 0,
                y % align == 0,
                align == 1 || align == 4 || align == 8,
        ;
    }
}

/// Every column lies between the header and the end of the row.
pub proof fn lemma_column_in_row(types: Seq<PhysType>, c: nat)
    requires
        c < types.len(),
    ensures
        HEADER_SIZE <= column_start(types, c),
        column_start(types, c) + width(types[c as int]) <= row_width(types),
{
    lemma_columns_end_monotonic(types, c, types.len());
    lemma_round_up(columns_end(types, types.len()), 8);
    lemma_columns_end_monotonic(types, 0, c);
}

/// The first column sits right after the header, and a single column fits the
/// row.
pub proof fn law_first_column(types: Seq<PhysType>)
    requires
        types.len() > 0,
    ensures
        column_start(types, 0) == HEADER_SIZE,
        HEADER_SIZE == 16,
        HEADER_SIZE + width(types[0]) <= row_width(types),
        row_width(types) % 8 == 0,
{
    assert(columns_end(types, 0) == HEADER_SIZE);
    lemma_columns_end_monotonic(types, 0, types.len());
    lemma_round_up(columns_end(types, types.len()), 8);
}

/// Address of row `i` in an arena whose rows are `row_size` bytes wide.
pub open spec fn row_address(i: int, row_size: int) -> int {
    ARENA_BASE + i * row_size
}

/// `n` zero bytes.
pub open spec fn zeros(n: int) -> Seq<u8> {
    Seq::new(n as nat, |i: int| 0u8)
}

/// Arena of packed rows.
pub struct RowArena {
    layout: RowLayout,
    /// Packed rows, `n_rows * layout.row_size()` bytes.
    data: Vec<u8>,
    n_rows: usize,
}

impl RowArena {
    /// The column types of the rows.
    pub closed spec fn types(self) -> Seq<PhysType> {
        self.layout.types()
    }

    /// The bytes of all rows.
    pub closed spec fn data(self) -> Seq<u8> {
        self.data@
    }

    /// Number of rows.
    pub closed spec fn rows(self) -> nat {
        self.n_rows as nat
    }

    pub closed spec fn layout_wf(self) -> bool {
        self.layout.wf()
    }

    /// The bytes of the arena are those of its rows.
    pub open spec fn wf(self) -> bool {
        &&& self.layout_wf()
        &&& self.data().len() == self.rows() * row_width(self.types())
        &&& self.data().len() <= isize::MAX
        &&& row_width(self.types()) <= usize::MAX
    }

    /// The bytes of row `i`.
    pub open spec fn row(self, i: int) -> Seq<u8> {
        self.data().subrange(i * row_width(self.types()), (i + 1) * row_width(self.types()))
    }

    /// An empty arena for rows of the given layout.
    pub fn new(layout: RowLayout) -> (r: Self)
        requires
            layout.wf(),
        ensures
            r.wf(),
            r.types() == layout.types(),
            r.rows() == 0,
            r.data() == Seq::<u8>::empty(),
    {
        proof {
            layout.lemma_row_size_fits();
        }
        RowArena { layout, data: Vec::new(), n_rows: 0 }
    }

    /// Makes room for `expected_rows` more rows without changing the contents.
    pub fn reserve(&mut self, expected_rows: usize)
        requires
            old(self).wf(),
            old(self).data().len() + expected_rows * row_width(old(self).types()) <= isize::MAX,
        ensures
            final(self).wf(),
            final(self).types() == old(self).types(),
            final(self).rows() == old(self).rows(),
            final(self).data() == old(self).data(),
    {
        let bytes: usize = expected_rows * self.layout.row_size();
        self.data.reserve(bytes);
    }

    /// The row layout.
    pub fn layout(&self) -> (l: &RowLayout)
        requires
            self.wf(),
        ensures
            l.wf(),
            l.types() == self.types(),
    {
        &self.layout
    }

    /// Number of rows.
    pub fn len(&self) -> (n: usize)
        ensures
            n == self.rows(),
    {
        self.n_rows
    }

    /// Whether the arena holds no row.
    pub fn is_empty(&self) -> (b: bool)
        ensures
            b == (self.rows() == 0),
    {
        self.n_rows == 0
    }

    /// Appends `n` zeroed rows and hands out their bytes, for the caller to
    /// write column values into.
    pub fn append_blank(&mut self, n: usize) -> (r: &mut [u8])
        requires
            old(self).wf(),
            n > 0,
            (old(self).rows() + n) * row_width(old(self).types()) <= isize::MAX,
        ensures
            r@ == zeros(n * row_width(old(self).types())),
            final(self).data() == old(self).data() + final(r)@,
            final(self).rows() == old(self).rows() + n,
            final(self).types() == old(self).types(),
            final(r)@.len() == r@.len() ==> final(self).wf(),
    {
        let row_size: usize = self.layout.row_size();
        let start: usize = self.data.len();
        proof {
            law_row_width_positive(self.types());
            vstd::arithmetic::mul::lemma_mul_is_distributive_add_other_way(
                row_size as int,
                self.rows() as int,
                n as int,
            );
            lemma_rows_bounded(self.rows() + n, row_size as int);
        }
        let byte_count: usize = n * row_size;
        let ghost before = self.data@;
        self.data.resize(start + byte_count, 0);
        assert(self.data@ =~= before + zeros(byte_count as int)) by {
            assert(self.data@.subrange(0, before.len() as int) == before);
            assert forall|i: int| 0 <= i < start + byte_count implies self.data@[i] == (before
                + zeros(byte_count as int))[i] by {
                if i < before.len() {
                    assert(self.data@.subrange(0, before.len() as int)[i] == before[i]);
                }
            }
        }
        self.n_rows = self.n_rows + n;
        let (_, tail) = self.data.as_mut_slice().split_at_mut(start);
        assert(tail@ =~= zeros(byte_count as int));
        tail
    }

    /// The bytes of row `i`.
    pub fn row_ptr(&self, i: usize) -> (r: &[u8])
        requires
            self.wf(),
            i < self.rows(),
        ensures
            r@ == self.row(i as int),
            r@.len() == row_width(self.types()),
    {
        let row_size: usize = self.layout.row_size();
        proof {
            lemma_row_in_arena(i as int, self.rows(), row_size as int);
        }
        let start: usize = i * row_size;
        vstd::slice::slice_subrange(self.data.as_slice(), start, start + row_size)
    }

    /// The bytes of row `i`, for writing.
    pub fn row_ptr_mut(&mut self, i: usize) -> (r: &mut [u8])
        requires
            old(self).wf(),
            i < old(self).rows(),
        ensures
            r@ == old(self).row(i as int),
            r@.len() == row_width(old(self).types()),
            final(self).types() == old(self).types(),
            final(self).rows() == old(self).rows(),
            final(r)@.len() == r@.len() ==> {
                &&& final(self).wf()
                &&& final(self).data() == bytes::splice(
                    old(self).data(),
                    i * row_width(old(self).types()),
                    final(r)@,
                )
            },
    {
        let row_size: usize = self.layout.row_size();
        proof {
            lemma_row_in_arena(i as int, self.rows(), row_size as int);
        }
        let start: usize = i * row_size;
        let (head, rest) = self.data.as_mut_slice().split_at_mut(start);
        let (row, tail) = rest.split_at_mut(row_size);
        row
    }

    /// Sizes the arena to exactly `n_rows` zeroed rows.
    pub fn set_len(&mut self, n_rows: usize)
        requires
            old(self).wf(),
            n_rows * row_width(old(self).types()) <= isize::MAX,
        ensures
            final(self).wf(),
            final(self).types() == old(self).types(),
            final(self).rows() == n_rows,
            final(self).data() == zeros(n_rows * row_width(old(self).types())),
    {
        let byte_count: usize = n_rows * self.layout.row_size();
        self.data.clear();
        self.data.resize(byte_count, 0);
        assert(self.data@ =~= zeros(byte_count as int));
        self.n_rows = n_rows;
    }

    /// Address of the first row, 0 if the arena is empty.
    pub fn base_addr(&self) -> (a: usize)
        ensures
            a == (if self.data().len() == 0 {
                0
            } else {
                ARENA_BASE as int
            }),
    {
        if self.data.is_empty() {
            0
        } else {
            ARENA_BASE
        }
    }

    /// Address of row `i`.
    pub fn row_addr(&self, i: usize) -> (a: usize)
        requires
            self.wf(),
            i < self.rows(),
        ensures
            a == row_address(i as int, row_width(self.types())),
    {
        proof {
            lemma_row_in_arena(i as int, self.rows(), row_width(self.types()));
        }
        ARENA_BASE + i * self.layout.row_size()
    }

    /// The bytes of all rows.
    pub fn bytes(&self) -> (r: &[u8])
        ensures
            r@ == self.data(),
    {
        self.data.as_slice()
    }

    /// The bytes of all rows, for writing.
    pub fn bytes_mut(&mut self) -> (r: &mut [u8])
        requires
            old(self).wf(),
        ensures
            r@ == old(self).data(),
            final(self).data() == final(r)@,
            final(self).types() == old(self).types(),
            final(self).rows() == old(self).rows(),
            final(r)@.len() == r@.len() ==> final(self).wf(),
    {
        self.data.as_mut_slice()
    }
}

/// The cached hash in the header of a row.
pub fn row_hash(row: &[u8]) -> (h: u64)
    requires
        row@.len() >= HEADER_SIZE,
    ensures
        h == bytes::u64_at(row@, HEADER_HASH as int),
        h == bytes::u64_at(row@, 8),
{
    read_u64(row, HEADER_HASH)
}

/// Sets the cached hash in the header of a row.
pub fn set_row_hash(row: &mut [u8], hash: u64)
    requires
        old(row)@.len() >= HEADER_SIZE,
    ensures
        final(row)@ == bytes::splice(old(row)@, HEADER_HASH as int, bytes::u64_bytes(hash)),
        final(row)@ == bytes::splice(old(row)@, 8, bytes::u64_bytes(hash)),
{
    write_u64(row, HEADER_HASH, hash);
}

/// The chain link in the header of a row.
pub fn row_next_ptr(row: &[u8]) -> (p: u64)
    requires
        row@.len() >= HEADER_SIZE,
    ensures
        p == bytes::u64_at(row@, HEADER_NEXT_PTR as int),
        p == bytes::u64_at(row@, 0),
{
    read_u64(row, HEADER_NEXT_PTR)
}

/// Sets the chain link in the header of a row.
pub fn set_row_next_ptr(row: &mut [u8], next: u64)
    requires
        old(row)@.len() >= HEADER_SIZE,
    ensures
        final(row)@ == bytes::splice(old(row)@, HEADER_NEXT_PTR as int, bytes::u64_bytes(next)),
        final(row)@ == bytes::splice(old(row)@, 0, bytes::u64_bytes(next)),
{
    write_u64(row, HEADER_NEXT_PTR, next);
}

impl RowLayout {
    proof fn lemma_row_size_fits(self)
        requires
            self.wf(),
        ensures
            row_width(self.types()) <= usize::MAX,
    {
    }
}

/// A column takes at most 16 bytes of a row, padding and all.
pub proof fn lemma_row_width_bound(types: Seq<PhysType>, i: nat)
    requires
        i <= types.len(),
    ensures
        columns_end(types, i) <= HEADER_SIZE + 16 * i,
        i == types.len() ==> row_width(types) <= HEADER_SIZE + 8 + 16 * i,
    decreases i,
{
    if i > 0 {
        lemma_row_width_bound(types, (i - 1) as nat);
        lemma_round_up(columns_end(types, (i - 1) as nat), width(types[i - 1]));
    }
    lemma_round_up(columns_end(types, i), 8);
}

/// A row is at least as wide as its header.
pub proof fn law_row_width_positive(types: Seq<PhysType>)
    ensures
        row_width(types) >= HEADER_SIZE,
        row_width(types) % 8 == 0,
{
    lemma_columns_end_monotonic(types, 0, types.len());
    lemma_round_up(columns_end(types, types.len()), 8);
}

proof fn lemma_rows_bounded(n: int, row_size: int)
    requires
        n >= 0,
        row_size >= 1,
    ensures
        n <= n * row_size,
{
    assert(n <= n * row_size) by (nonlinear_arith)
        requires
            n >= 0,
            row_size >= 1,
    ;
}

/// A row lies within the arena, and rows do not overlap.
pub proof fn lemma_row_in_arena(i: int, n: nat, row_size: int)
    requires
        0 <= i < n,
        0 <= row_size,
    ensures
        0 <= i * row_size,
        i * row_size + row_size == (i + 1) * row_size,
        (i + 1) * row_size <= n * row_size,
{
    assert(0 <= i * row_size && i * row_size + row_size == (i + 1) * row_size && (i + 1) * row_size
        <= n * row_size) by (nonlinear_arith)
        requires
            0 <= i < n,
            0 <= row_size,
    ;
}

/// The header fields of a row read back as they were set, independently of each
/// other.
pub proof fn law_header_round_trip(row: Seq<u8>, hash: u64, next: u64)
    requires
        row.len() >= HEADER_SIZE,
    ensures
        ({
            let r = bytes::splice(
                bytes::splice(row, HEADER_HASH as int, bytes::u64_bytes(hash)),
                HEADER_NEXT_PTR as int,
                bytes::u64_bytes(next),
            );
            &&& bytes::u64_at(r, HEADER_HASH as int) == hash
            &&& bytes::u64_at(r, HEADER_NEXT_PTR as int) == next
            &&& forall|i: int| HEADER_SIZE <= i < row.len() ==> r[i] == row[i]
        }),
{
    let mid = bytes::splice(row, HEADER_HASH as int, bytes::u64_bytes(hash));
    bytes::law_u64_round_trip(hash);
    bytes::law_u64_round_trip(next);
    bytes::lemma_splice_read(row, HEADER_HASH as int, hash, 0);
    bytes::lemma_splice_read(mid, HEADER_NEXT_PTR as int, next, 0);
    bytes::lemma_splice_frame(
        mid,
        HEADER_NEXT_PTR as int,
        bytes::u64_bytes(next),
        HEADER_HASH as int,
    );
}

/// An `i32` and an `f32` take 4 bytes of a row, an `i64` and an `f64` take 8, a `bool`
/// takes 1.
pub proof fn law_width(ty: PhysType)
    ensures
        ty is I32 || ty is F32 ==> width(ty) == 4,
        ty is I64 || ty is F64 ==> width(ty) == 8,
        ty is Bool ==> width(ty) == 1,
{
}

/// The first row of an arena has the address 64, and each row follows the one before
/// it by the width of a row.
pub proof fn law_addresses(i: int, row_size: int)
    ensures
        row_address(0, row_size) == 64,
        row_address(i + 1, row_size) == row_address(i, row_size) + row_size,
{
    assert(0 * row_size == 0);
    assert((i + 1) * row_size == i * row_size + row_size) by (nonlinear_arith);
}

/// Row `i` of an arena is its bytes from `i` times the width of a row on.
pub proof fn law_row_bytes(arena: RowArena, i: int, j: int)
    requires
        arena.wf(),
        0 <= i < arena.rows(),
        0 <= j < row_width(arena.types()),
    ensures
        arena.row(i).len() == row_width(arena.types()),
        arena.row(i)[j] == arena.data()[i * row_width(arena.types()) + j],
{
    lemma_row_in_arena(i, arena.rows(), row_width(arena.types()));
}

/// Rounding up gives a multiple, not below the number, and the first such one.
pub proof fn law_round_up(x: int, align: int)
    requires
        align > 0,
    ensures
        round_up(x, align) % align == 0,
        x <= round_up(x, align) < x + align,
{
    let y = x + align - 1;
    vstd::arithmetic::div_mod::lemma_fundamental_div_mod(y, align);
    vstd::arithmetic::div_mod::lemma_mod_bound(y, align);
    vstd::arithmetic::mul::lemma_mul_is_commutative(y / align, align);
    vstd::arithmetic::div_mod::lemma_mod_multiples_basic(y / align, align);
}

/// Zeros are so many bytes, each 0.
pub proof fn law_zeros(n: int, i: int)
    requires
        0 <= i < n,
    ensures
        zeros(n).len() == n,
        zeros(n)[i] == 0,
{
}

} // verus!
