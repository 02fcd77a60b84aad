//! Columns: a type, and one cell or null per row.

use crate::bytes::{
    law_bytes_read_back, le_bytes, lemma_byte_spans, lemma_le_bytes_injective, number_from,
    to_le_bytes, twos_complement,
};
use crate::schema::{DataType, DataTypeView};
use crate::text::lemma_utf8_injective;
use vstd::prelude::*;
use vstd::string::StrSliceExecFns;
use vstd::utf8::encode_utf8;

verus! {

/// A value of a column. Floats are held by their bits.
#[derive(Debug, PartialEq, Eq)]
pub enum Cell {
    Boolean(bool),
    Int8(i8),
    Int16(i16),
    Int32(i32),
    Int64(i64),
    UInt8(u8),
    UInt16(u16),
    UInt32(u32),
    UInt64(u64),
    /// The bits of a 32-bit float.
    Float32(u32),
    /// The bits of a 64-bit float.
    Float64(u64),
    Text(String),
    Bytes(Vec<u8>),
    Int128(i128),
}

/// The model of [`Cell`].
pub ghost enum CellView {
    Boolean(bool),
    Int8(i8),
    Int16(i16),
    Int32(i32),
    Int64(i64),
    UInt8(u8),
    UInt16(u16),
    UInt32(u32),
    UInt64(u64),
    Float32(u32),
    Float64(u64),
    Text(Seq<char>),
    Bytes(Seq<u8>),
    Int128(i128),
}

impl View for Cell {
    type V = CellView;

    open spec fn view(&self) -> CellView {
        match self {
            Cell::Boolean(v) => CellView::Boolean(*v),
            Cell::Int8(v) => CellView::Int8(*v),
            Cell::Int16(v) => CellView::Int16(*v),
            Cell::Int32(v) => CellView::Int32(*v),
            Cell::Int64(v) => CellView::Int64(*v),
            Cell::UInt8(v) => CellView::UInt8(*v),
            Cell::UInt16(v) => CellView::UInt16(*v),
            Cell::UInt32(v) => CellView::UInt32(*v),
            Cell::UInt64(v) => CellView::UInt64(*v),
            Cell::Float32(v) => CellView::Float32(*v),
            Cell::Float64(v) => CellView::Float64(*v),
            Cell::Text(v) => CellView::Text(v@),
            Cell::Bytes(v) => CellView::Bytes(v@),
            Cell::Int128(v) => CellView::Int128(*v),
        }
    }
}

impl Clone for Cell {
    fn clone(&self) -> (r: Self)
        ensures
            r@ == self@,
    {
        match self {
            Cell::Boolean(v) => Cell::Boolean(*v),
            Cell::Int8(v) => Cell::Int8(*v),
            Cell::Int16(v) => Cell::Int16(*v),
            Cell::Int32(v) => Cell::Int32(*v),
            Cell::Int64(v) => Cell::Int64(*v),
            Cell::UInt8(v) => Cell::UInt8(*v),
            Cell::UInt16(v) => Cell::UInt16(*v),
            Cell::UInt32(v) => Cell::UInt32(*v),
            Cell::UInt64(v) => Cell::UInt64(*v),
            Cell::Float32(v) => Cell::Float32(*v),
            Cell::Float64(v) => Cell::Float64(*v),
            Cell::Text(v) => Cell::Text(v.clone()),
            Cell::Bytes(v) => Cell::Bytes(v.clone()),
            Cell::Int128(v) => Cell::Int128(*v),
        }
    }
}

/// A cell or null, as a model.
pub open spec fn cell_view(c: Option<Cell>) -> Option<CellView> {
    match c {
        Some(v) => Some(v@),
        None => None,
    }
}

/// Whether a cell is a value of the type. A cell of a type that is not read into
/// ([`DataType::Other`]) is held as bytes that tell its values apart.
pub open spec fn fits(t: DataTypeView, c: CellView) -> bool {
    match (t, c) {
        (DataTypeView::Boolean, CellView::Boolean(_)) => true,
        (DataTypeView::Int8, CellView::Int8(_)) => true,
        (DataTypeView::Int16, CellView::Int16(_)) => true,
        (DataTypeView::Int32, CellView::Int32(_)) => true,
        (DataTypeView::Int64, CellView::Int64(_)) => true,
        (DataTypeView::UInt8, CellView::UInt8(_)) => true,
        (DataTypeView::UInt16, CellView::UInt16(_)) => true,
        (DataTypeView::UInt32, CellView::UInt32(_)) => true,
        (DataTypeView::UInt64, CellView::UInt64(_)) => true,
        (DataTypeView::Float32, CellView::Float32(_)) => true,
        (DataTypeView::Float64, CellView::Float64(_)) => true,
        (DataTypeView::Utf8, CellView::Text(_)) => true,
        (DataTypeView::LargeUtf8, CellView::Text(_)) => true,
        (DataTypeView::Binary, CellView::Bytes(_)) => true,
        (DataTypeView::LargeBinary, CellView::Bytes(_)) => true,
        (DataTypeView::Date32, CellView::Int32(_)) => true,
        (DataTypeView::Date64, CellView::Int64(_)) => true,
        (DataTypeView::Time32(_), CellView::Int32(_)) => true,
        (DataTypeView::Time64(_), CellView::Int64(_)) => true,
        (DataTypeView::Timestamp(_, _), CellView::Int64(_)) => true,
        (DataTypeView::Decimal128(_, _), CellView::Int128(_)) => true,
        (DataTypeView::Decimal256(_, _), CellView::Bytes(b)) => b.len() == 32,
        (DataTypeView::Other(_), CellView::Bytes(_)) => true,
        _ => false,
    }
}

/// Whether a cell, where it is not null, is a value of the type.
pub open spec fn fits_or_null(t: DataTypeView, c: Option<CellView>) -> bool {
    match c {
        Some(v) => fits(t, v),
        None => true,
    }
}

/// The bytes of a cell: integers and float bits little-endian, text in UTF-8.
pub open spec fn cell_bytes(c: CellView) -> Seq<u8> {
    match c {
        CellView::Boolean(v) => seq![if v { 1u8 } else { 0u8 }],
        CellView::Int8(v) => le_bytes(twos_complement(v as int, 1), 1),
        CellView::Int16(v) => le_bytes(twos_complement(v as int, 2), 2),
        CellView::Int32(v) => le_bytes(twos_complement(v as int, 4), 4),
        CellView::Int64(v) => le_bytes(twos_complement(v as int, 8), 8),
        CellView::UInt8(v) => le_bytes(v as nat, 1),
        CellView::UInt16(v) => le_bytes(v as nat, 2),
        CellView::UInt32(v) => le_bytes(v as nat, 4),
        CellView::UInt64(v) => le_bytes(v as nat, 8),
        CellView::Float32(v) => le_bytes(v as nat, 4),
        CellView::Float64(v) => le_bytes(v as nat, 8),
        CellView::Text(v) => encode_utf8(v),
        CellView::Bytes(v) => v,
        CellView::Int128(v) => le_bytes(twos_complement(v as int, 16), 16),
    }
}

/// The bytes of a cell, where it is not null.
pub open spec fn key_bytes(c: Option<CellView>) -> Option<Seq<u8>> {
    match c {
        Some(v) => Some(cell_bytes(v)),
        None => None,
    }
}

/// Within a type, cells are told apart by their bytes.
pub proof fn lemma_cell_bytes_injective(t: DataTypeView, a: CellView, b: CellView)
    requires
        fits(t, a),
        fits(t, b),
        cell_bytes(a) == cell_bytes(b),
    ensures
        a == b,
{
    lemma_byte_spans();
    match (a, b) {
        (CellView::Boolean(x), CellView::Boolean(y)) => {
            assert(cell_bytes(a)[0] == if x { 1u8 } else { 0u8 });
            assert(cell_bytes(b)[0] == if y { 1u8 } else { 0u8 });
        },
        (CellView::Int8(x), CellView::Int8(y)) => {
            lemma_le_bytes_injective(twos_complement(x as int, 1), twos_complement(y as int, 1), 1);
        },
        (CellView::Int16(x), CellView::Int16(y)) => {
            lemma_le_bytes_injective(twos_complement(x as int, 2), twos_complement(y as int, 2), 2);
        },
        (CellView::Int32(x), CellView::Int32(y)) => {
            lemma_le_bytes_injective(twos_complement(x as int, 4), twos_complement(y as int, 4), 4);
        },
        (CellView::Int64(x), CellView::Int64(y)) => {
            lemma_le_bytes_injective(twos_complement(x as int, 8), twos_complement(y as int, 8), 8);
        },
        (CellView::UInt8(x), CellView::UInt8(y)) => {
            lemma_le_bytes_injective(x as nat, y as nat, 1);
        },
        (CellView::UInt16(x), CellView::UInt16(y)) => {
            lemma_le_bytes_injective(x as nat, y as nat, 2);
        },
        (CellView::UInt32(x), CellView::UInt32(y)) => {
            lemma_le_bytes_injective(x as nat, y as nat, 4);
        },
        (CellView::UInt64(x), CellView::UInt64(y)) => {
            lemma_le_bytes_injective(x as nat, y as nat, 8);
        },
        (CellView::Float32(x), CellView::Float32(y)) => {
            lemma_le_bytes_injective(x as nat, y as nat, 4);
        },
        (CellView::Float64(x), CellView::Float64(y)) => {
            lemma_le_bytes_injective(x as nat, y as nat, 8);
        },
        (CellView::Text(x), CellView::Text(y)) => {
            lemma_utf8_injective(x, y);
        },
        (CellView::Int128(x), CellView::Int128(y)) => {
            lemma_le_bytes_injective(
                twos_complement(x as int, 16),
                twos_complement(y as int, 16),
                16,
            );
        },
        (CellView::Bytes(x), CellView::Bytes(y)) => {},
        _ => {
            assert(false);
        },
    }
}

impl Cell {
    /// The cell's bytes: integers and float bits little-endian, text in UTF-8.
    pub fn to_bytes(&self) -> (out: Vec<u8>)
        ensures
            out@ == cell_bytes(self@),
    {
        proof {
            lemma_byte_spans();
        }
        match self {
            Cell::Boolean(v) => {
                let mut out: Vec<u8> = Vec::new();
                out.push(if *v { 1 } else { 0 });
                assert(out@ =~= cell_bytes(self@));
                out
            },
            Cell::Int8(v) => {
                let x: u128 = if *v < 0 { (*v as i128 + 0x100) as u128 } else { *v as u128 };
                to_le_bytes(x, 1)
            },
            Cell::Int16(v) => {
                let x: u128 = if *v < 0 { (*v as i128 + 0x1_0000) as u128 } else { *v as u128 };
                to_le_bytes(x, 2)
            },
            Cell::Int32(v) => {
                let x: u128 = if *v < 0 { (*v as i128 + 0x1_0000_0000) as u128 } else { *v as u128 };
                to_le_bytes(x, 4)
            },
            Cell::Int64(v) => {
                let x: u128 = if *v < 0 {
                    (*v as i128 + 0x1_0000_0000_0000_0000) as u128
                } else {
                    *v as u128
                };
                to_le_bytes(x, 8)
            },
            Cell::UInt8(v) => to_le_bytes(*v as u128, 1),
            Cell::UInt16(v) => to_le_bytes(*v as u128, 2),
            Cell::UInt32(v) => to_le_bytes(*v as u128, 4),
            Cell::UInt64(v) => to_le_bytes(*v as u128, 8),
            Cell::Float32(v) => to_le_bytes(*v as u128, 4),
            Cell::Float64(v) => to_le_bytes(*v as u128, 8),
            Cell::Text(v) => v.as_str().as_bytes_vec(),
            Cell::Bytes(v) => v.clone(),
            Cell::Int128(v) => {
                let x: u128 = if *v < 0 {
                    (*v - i128::MIN) as u128 + 0x8000_0000_0000_0000_0000_0000_0000_0000
                } else {
                    *v as u128
                };
                to_le_bytes(x, 16)
            },
        }
    }

    /// Whether the cell is a value of the type.
    pub fn fits(&self, t: &DataType) -> (r: bool)
        ensures
            r == fits(t@, self@),
    {
        match (t, self) {
            (DataType::Boolean, Cell::Boolean(_)) => true,
            (DataType::Int8, Cell::Int8(_)) => true,
            (DataType::Int16, Cell::Int16(_)) => true,
            (DataType::Int32, Cell::Int32(_)) => true,
            (DataType::Int64, Cell::Int64(_)) => true,
            (DataType::UInt8, Cell::UInt8(_)) => true,
            (DataType::UInt16, Cell::UInt16(_)) => true,
            (DataType::UInt32, Cell::UInt32(_)) => true,
            (DataType::UInt64, Cell::UInt64(_)) => true,
            (DataType::Float32, Cell::Float32(_)) => true,
            (DataType::Float64, Cell::Float64(_)) => true,
            (DataType::Utf8, Cell::Text(_)) => true,
            (DataType::LargeUtf8, Cell::Text(_)) => true,
            (DataType::Binary, Cell::Bytes(_)) => true,
            (DataType::LargeBinary, Cell::Bytes(_)) => true,
            (DataType::Date32, Cell::Int32(_)) => true,
            (DataType::Date64, Cell::Int64(_)) => true,
            (DataType::Time32(_), Cell::Int32(_)) => true,
            (DataType::Time64(_), Cell::Int64(_)) => true,
            (DataType::Timestamp(_, _), Cell::Int64(_)) => true,
            (DataType::Decimal128(_, _), Cell::Int128(_)) => true,
            (DataType::Decimal256(_, _), Cell::Bytes(b)) => b.len() == 32,
            (DataType::Other(_), Cell::Bytes(_)) => true,
            _ => false,
        }
    }
}

/// The model of [`Column`].
pub ghost struct ColumnView {
    pub data_type: DataTypeView,
    pub cells: Seq<Option<CellView>>,
}

impl ColumnView {
    /// Every cell is a value of the column's type.
    pub open spec fn wf(self) -> bool {
        forall|i: int|
            0 <= i < self.cells.len() ==> fits_or_null(self.data_type, #[trigger] self.cells[i])
    }

    /// The column that holds, at each position, the cell of the row named there, or null where
    /// none is named.
    pub open spec fn take(self, rows: Seq<Option<int>>) -> ColumnView {
        ColumnView {
            data_type: self.data_type,
            cells: rows.map_values(
                |r: Option<int>|
                    match r {
                        Some(i) => self.cells[i],
                        None => None,
                    },
            ),
        }
    }

    /// Whether some cell is null.
    pub open spec fn has_null(self) -> bool {
        exists|i: int| 0 <= i < self.cells.len() && #[trigger] self.cells[i] is None
    }
}

/// A column: a type, and one cell or null per row, each a value of the type.
#[derive(Debug, PartialEq, Eq)]
pub struct Column {
    data_type: DataType,
    cells: Vec<Option<Cell>>,
}

impl View for Column {
    type V = ColumnView;

    closed spec fn view(&self) -> ColumnView {
        ColumnView {
            data_type: self.data_type@,
            cells: self.cells@.map_values(|c: Option<Cell>| cell_view(c)),
        }
    }
}

/// The rows that optional row numbers name, as a model.
pub open spec fn row_numbers(rows: Seq<Option<usize>>) -> Seq<Option<int>> {
    rows.map_values(
        |r: Option<usize>|
            match r {
                Some(i) => Some(i as int),
                None => None,
            },
    )
}

impl Column {
    #[verifier::type_invariant]
    spec fn inv(self) -> bool {
        self@.wf()
    }

    /// A column of the cells, or `None` where one of them is not a value of the type.
    pub fn try_new(data_type: DataType, cells: Vec<Option<Cell>>) -> (r: Option<Column>)
        ensures
            r is Some <==> (forall|i: int|
                0 <= i < cells@.len() ==> fits_or_null(data_type@, cell_view(#[trigger] cells@[i]))),
            match r {
                Some(c) => c@ == (ColumnView {
                    data_type: data_type@,
                    cells: cells@.map_values(|c: Option<Cell>| cell_view(c)),
                }),
                None => true,
            },
    {
        let mut i: usize = 0;
        while i < cells.len()
            invariant
                i <= cells@.len(),
                forall|k: int|
                    0 <= k < i ==> fits_or_null(data_type@, cell_view(#[trigger] cells@[k])),
            decreases cells@.len() - i,
        {
            let good = match &cells[i] {
                Some(c) => c.fits(&data_type),
                None => true,
            };
            if !good {
                assert(!fits_or_null(data_type@, cell_view(cells@[i as int])));
                return None;
            }
            i += 1;
        }
        Some(Column { data_type, cells })
    }

    /// The type of the column's values.
    pub fn data_type(&self) -> (t: &DataType)
        ensures
            t@ == self@.data_type,
            self@.wf(),
    {
        proof {
            use_type_invariant(self);
        }
        &self.data_type
    }

    /// The number of rows.
    pub fn len(&self) -> (n: usize)
        ensures
            n == self@.cells.len(),
            self@.wf(),
    {
        proof {
            use_type_invariant(self);
        }
        self.cells.len()
    }

    /// The cell of a row, or null.
    pub fn cell(&self, row: usize) -> (c: Option<&Cell>)
        requires
            row < self@.cells.len(),
        ensures
            match c {
                Some(v) => self@.cells[row as int] == Some(v@),
                None => self@.cells[row as int] is None,
            },
            self@.wf(),
    {
        proof {
            use_type_invariant(self);
        }
        match &self.cells[row] {
            Some(v) => Some(v),
            None => None,
        }
    }

    /// Whether the cell of a row is null.
    pub fn is_null(&self, row: usize) -> (r: bool)
        requires
            row < self@.cells.len(),
        ensures
            r == (self@.cells[row as int] is None),
    {
        match &self.cells[row] {
            Some(_) => false,
            None => true,
        }
    }

    /// Whether some cell is null.
    pub fn has_null(&self) -> (r: bool)
        ensures
            r == self@.has_null(),
    {
        let mut i: usize = 0;
        while i < self.cells.len()
            invariant
                i <= self.cells@.len(),
                forall|k: int| 0 <= k < i ==> (#[trigger] self@.cells[k]) is Some,
            decreases self.cells@.len() - i,
        {
            if self.is_null(i) {
                return true;
            }
            i += 1;
        }
        false
    }

    /// The column that holds, at each position, the cell of the row named there, or null where
    /// none is named.
    pub fn take(&self, rows: &Vec<Option<usize>>) -> (r: Column)
        requires
            forall|k: int|
                0 <= k < rows@.len() ==> match #[trigger] rows@[k] {
                    Some(i) => i < self@.cells.len(),
                    None => true,
                },
        ensures
            r@ == self@.take(row_numbers(rows@)),
    {
        proof {
            use_type_invariant(self);
        }
        let ghost target = self@.take(row_numbers(rows@));
        let mut cells: Vec<Option<Cell>> = Vec::new();
        let mut k: usize = 0;
        while k < rows.len()
            invariant
                k <= rows@.len(),
                cells@.len() == k,
                self@.wf(),
                target == self@.take(row_numbers(rows@)),
                forall|k: int|
                    0 <= k < rows@.len() ==> match #[trigger] rows@[k] {
                        Some(i) => i < self@.cells.len(),
                        None => true,
                    },
                forall|j: int|
                    0 <= j < k ==> cell_view(#[trigger] cells@[j]) == target.cells[j]
                        && fits_or_null(self@.data_type, cell_view(cells@[j])),
            decreases rows@.len() - k,
        {
            let c = match rows[k] {
                Some(i) => match &self.cells[i] {
                    Some(v) => Some(v.clone()),
                    None => None,
                },
                None => None,
            };
            proof {
                match rows@[k as int] {
                    Some(i) => {
                        assert(self@.cells[i as int] == cell_view(self.cells@[i as int]));
                        assert(target.cells[k as int] == self@.cells[i as int]);
                    },
                    None => {},
                }
            }
            cells.push(c);
            k += 1;
        }
        let r = Column { data_type: self.data_type.clone(), cells };
        assert(r@.cells =~= target.cells);
        r
    }
}

impl Clone for Column {
    fn clone(&self) -> (r: Self)
        ensures
            r@ == self@,
    {
        proof {
            use_type_invariant(self);
        }
        let mut cells: Vec<Option<Cell>> = Vec::new();
        let mut k: usize = 0;
        while k < self.cells.len()
            invariant
                k <= self.cells@.len(),
                cells@.len() == k,
                forall|j: int|
                    0 <= j < k ==> cell_view(#[trigger] cells@[j]) == self@.cells[j],
            decreases self.cells@.len() - k,
        {
            let c = match &self.cells[k] {
                Some(v) => Some(v.clone()),
                None => None,
            };
            cells.push(c);
            k += 1;
        }
        proof {
            assert forall|j: int| 0 <= j < cells@.len() implies fits_or_null(
                self@.data_type,
                cell_view(#[trigger] cells@[j]),
            ) by {
                assert(fits_or_null(self@.data_type, self@.cells[j]));
            }
        }
        let r = Column { data_type: self.data_type.clone(), cells };
        assert(r@.cells =~= self@.cells);
        r
    }
}

/// Taking rows takes their cells: each cell of the result is that of the row named in its place,
/// and null where none is named.
pub proof fn law_taken_cells(column: ColumnView, rows: Seq<Option<int>>, k: int)
    requires
        0 <= k < rows.len(),
    ensures
        column.take(rows).data_type == column.data_type,
        column.take(rows).cells.len() == rows.len(),
        rows[k] matches Some(i) ==> column.take(rows).cells[k] == column.cells[i],
        rows[k] is None ==> column.take(rows).cells[k] is None,
{
}

/// Which cells a type takes: each kind of cell is taken by the types that hold its values, and
/// bytes of a 256-bit decimal are thirty-two.
pub proof fn law_which_cells_fit(t: DataTypeView, c: CellView)
    ensures
        fits(t, c) <==> match c {
            CellView::Boolean(_) => t is Boolean,
            CellView::Int8(_) => t is Int8,
            CellView::Int16(_) => t is Int16,
            CellView::Int32(_) => t is Int32 || t is Date32 || t is Time32,
            CellView::Int64(_) => t is Int64 || t is Date64 || t is Time64 || t is Timestamp,
            CellView::UInt8(_) => t is UInt8,
            CellView::UInt16(_) => t is UInt16,
            CellView::UInt32(_) => t is UInt32,
            CellView::UInt64(_) => t is UInt64,
            CellView::Float32(_) => t is Float32,
            CellView::Float64(_) => t is Float64,
            CellView::Text(_) => t is Utf8 || t is LargeUtf8,
            CellView::Bytes(b) => t is Binary || t is LargeBinary || t is Other || (t is Decimal256
                && b.len() == 32),
            CellView::Int128(_) => t is Decimal128,
        },
{
}

/// The bytes of a number are as many as its type is wide and stand for it, a negative integer
/// for itself plus the number of values of its width.
pub proof fn law_bytes_of_numbers(c: CellView)
    ensures
        match c {
            CellView::Boolean(v) => cell_bytes(c).len() == 1 && number_from(cell_bytes(c)) == (
            if v {
                1int
            } else {
                0int
            }),
            CellView::Int8(v) => stands_for(cell_bytes(c), 1, 0x100, v as int),
            CellView::Int16(v) => stands_for(cell_bytes(c), 2, 0x1_0000, v as int),
            CellView::Int32(v) => stands_for(cell_bytes(c), 4, 0x1_0000_0000, v as int),
            CellView::Int64(v) => stands_for(cell_bytes(c), 8, 0x1_0000_0000_0000_0000, v as int),
            CellView::UInt8(v) => stands_for(cell_bytes(c), 1, 0x100, v as int),
            CellView::UInt16(v) => stands_for(cell_bytes(c), 2, 0x1_0000, v as int),
            CellView::UInt32(v) => stands_for(cell_bytes(c), 4, 0x1_0000_0000, v as int),
            CellView::UInt64(v) => stands_for(cell_bytes(c), 8, 0x1_0000_0000_0000_0000, v as int),
            CellView::Float32(v) => stands_for(cell_bytes(c), 4, 0x1_0000_0000, v as int),
            CellView::Float64(v) => stands_for(cell_bytes(c), 8, 0x1_0000_0000_0000_0000, v as int),
            CellView::Int128(v) => stands_for(
                cell_bytes(c),
                16,
                0x1_0000_0000_0000_0000 * 0x1_0000_0000_0000_0000,
                v as int,
            ),
            CellView::Text(s) => cell_bytes(c) == encode_utf8(s),
            CellView::Bytes(b) => cell_bytes(c) == b,
        },
{
    lemma_byte_spans();
    match c {
        CellView::Boolean(v) => {
            assert(cell_bytes(c).drop_first() =~= Seq::empty());
            assert(number_from(Seq::empty()) == 0);
        },
        CellView::Int8(v) => law_bytes_read_back(twos_complement(v as int, 1), 1),
        CellView::Int16(v) => law_bytes_read_back(twos_complement(v as int, 2), 2),
        CellView::Int32(v) => law_bytes_read_back(twos_complement(v as int, 4), 4),
        CellView::Int64(v) => law_bytes_read_back(twos_complement(v as int, 8), 8),
        CellView::UInt8(v) => law_bytes_read_back(v as nat, 1),
        CellView::UInt16(v) => law_bytes_read_back(v as nat, 2),
        CellView::UInt32(v) => law_bytes_read_back(v as nat, 4),
        CellView::UInt64(v) => law_bytes_read_back(v as nat, 8),
        CellView::Float32(v) => law_bytes_read_back(v as nat, 4),
        CellView::Float64(v) => law_bytes_read_back(v as nat, 8),
        CellView::Int128(v) => law_bytes_read_back(twos_complement(v as int, 16), 16),
        _ => {},
    }
}

/// Whether bytes of a width stand for a number, least significant first, with the number of
/// values of the width added to a negative one.
pub open spec fn stands_for(bytes: Seq<u8>, width: nat, values: nat, v: int) -> bool {
    &&& bytes.len() == width
    &&& number_from(bytes) == (if v < 0 {
        v + values
    } else {
        v
    })
}

} // verus!
