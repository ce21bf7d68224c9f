//! FITS binary-table reader.
//!
//! The header of a BINTABLE extension names its columns through the keywords
//! TFIELDS, TFORM{i}, TTYPE{i} and TUNIT{i}; each TFORM code fixes a cell
//! width and column offsets accumulate left to right. All multi-byte cell
//! values are big-endian. Floating-point cells are surfaced as their raw
//! bits: this library never computes with them, it only carries them.
//!
//! Header keywords are read from an already opened fitrs HDU (an in-memory
//! header lookup); opening the file and pulling the raw data block out of
//! fitrs are the caller's side of the boundary.
//!
//! TFORM codes are read as the catalog pipeline's tables write them: one
//! count digit followed by the type letter, and the cell width of a non-bit
//! column is the width of one element. Multi-digit repeat counts (which the
//! full FITS standard allows, widening the cell to count times the element)
//! are rejected as unknown codes rather than misread.

use vstd::prelude::*;
use vstd::slice::slice_subrange;
use vstd::string::StringExecFns;
use vstd::string::StrSliceExecFns;

use crate::usnob::{push_udec, udec_chars};

verus! {

/// Why a FITS table could not be read or decoded.
#[derive(Debug, Clone, Copy, PartialEq, Eq, Structural)]
pub enum FitsError {
    /// The requested HDU does not exist in the file.
    HduNotFound,
    /// A required header keyword is absent.
    MissingHeaderKey,
    /// A header keyword holds a value of the wrong kind.
    UnexpectedValueType,
    /// A TFORM column code is malformed or names an unknown type.
    UnknownTForm,
    /// The HDU's data block is not a byte matrix.
    NotByteData,
    /// A cell could not be decoded from its bytes.
    CellDecodeFailed,
}

#[verifier::external_type_specification]
#[verifier::external_body]
pub struct ExHdu(fitrs::Hdu);

/// A value read from an HDU header card. Floating-point and complex header
/// values collapse to Other: the table logic never consumes them.
#[derive(Debug, Clone)]
pub enum HeaderItem {
    Text(String),
    Flag(bool),
    Int(i32),
    Other,
}

/// The header cards of an HDU, keyed by keyword.
pub uninterp spec fn hdu_entries(h: fitrs::Hdu) -> Map<Seq<char>, HeaderItem>;

/// What Hdu::value returns for a keyword.
pub open spec fn spec_header_lookup(h: fitrs::Hdu, key: Seq<char>) -> Option<HeaderItem> {
    if hdu_entries(h).contains_key(key) {
        Some(hdu_entries(h)[key])
    } else {
        None
    }
}

/// Relies on String::push: appends exactly one character.
#[verifier::external_body]
fn push_char(s: &mut String, c: char)
    ensures
        final(s)@ == old(s)@ + seq![c],
{
    s.push(c);
}

/// Relies on fitrs::Hdu::value: a pure in-memory lookup of a header keyword
/// in the already-parsed header card list.
#[verifier::external_body]
fn read_header(hdu: &fitrs::Hdu, key: &str) -> (r: Option<HeaderItem>)
    ensures
        r == (if hdu_entries(*hdu).contains_key(key@) {
            Some(hdu_entries(*hdu)[key@])
        } else {
            None
        }),
{
    match hdu.value(key) {
        None => None,
        Some(fitrs::HeaderValue::CharacterString(s)) => Some(HeaderItem::Text(s.clone())),
        Some(fitrs::HeaderValue::Logical(b)) => Some(HeaderItem::Flag(*b)),
        Some(fitrs::HeaderValue::IntegerNumber(n)) => Some(HeaderItem::Int(*n)),
        Some(_) => Some(HeaderItem::Other),
    }
}

/// The keyword's value as text, when it holds text.
pub open spec fn header_text(h: fitrs::Hdu, key: Seq<char>) -> Option<Seq<char>> {
    match spec_header_lookup(h, key) {
        Some(HeaderItem::Text(t)) => Some(t@),
        _ => None,
    }
}

/// Reads a header keyword that must hold a character string.
pub fn read_to_string(hdu: &fitrs::Hdu, key: &str) -> (r: Result<String, FitsError>)
    ensures
        r is Ok <==> header_text(*hdu, key@) is Some,
        r matches Ok(s) ==> Some(s@) == header_text(*hdu, key@),
        r matches Err(e) ==> (e == FitsError::MissingHeaderKey <==> spec_header_lookup(*hdu, key@)
            is None) && (e == FitsError::MissingHeaderKey || e == FitsError::UnexpectedValueType),
{
    match read_header(hdu, key) {
        None => Err(FitsError::MissingHeaderKey),
        Some(HeaderItem::Text(s)) => Ok(s),
        Some(_) => Err(FitsError::UnexpectedValueType),
    }
}

/// Byte width of one element of the given column type code; -1 marks an
/// unknown code. The bit type X has no per-element byte width.
pub open spec fn element_size(c: char) -> int {
    if c == 'L' || c == 'B' || c == 'A' || c == 'X' {
        1
    } else if c == 'I' {
        2
    } else if c == 'J' || c == 'E' {
        4
    } else if c == 'K' || c == 'D' || c == 'C' {
        8
    } else if c == 'M' {
        16
    } else {
        -1
    }
}

/// The decimal digit a character denotes, or -1.
pub open spec fn digit_value(c: char) -> int {
    if c == '0' {
        0
    } else if c == '1' {
        1
    } else if c == '2' {
        2
    } else if c == '3' {
        3
    } else if c == '4' {
        4
    } else if c == '5' {
        5
    } else if c == '6' {
        6
    } else if c == '7' {
        7
    } else if c == '8' {
        8
    } else if c == '9' {
        9
    } else {
        -1
    }
}

/// Total byte width of a column from its TFORM code (one count digit and a
/// type letter): for the bit type X the count of bits rounded up to bytes,
/// for every other known type the width of one element. None for malformed
/// or unknown codes.
pub open spec fn spec_datatype_size(f: Seq<char>) -> Option<int> {
    if f.len() < 2 || digit_value(f[0]) < 0 {
        None
    } else if f[1] == 'X' {
        Some((digit_value(f[0]) + 7) / 8)
    } else if element_size(f[1]) > 0 {
        Some(element_size(f[1]))
    } else {
        None
    }
}

fn char_digit(c: char) -> (d: i32)
    ensures
        d == digit_value(c),
{
    match c {
        '0' => 0,
        '1' => 1,
        '2' => 2,
        '3' => 3,
        '4' => 4,
        '5' => 5,
        '6' => 6,
        '7' => 7,
        '8' => 8,
        '9' => 9,
        _ => -1,
    }
}

/// Byte width of a column cell from its TFORM code.
pub fn datatype_size(format: &str) -> (r: Result<usize, FitsError>)
    ensures
        r is Ok <==> spec_datatype_size(format@) is Some,
        r matches Ok(s) ==> Some(s as int) == spec_datatype_size(format@),
        r matches Err(e) ==> e == FitsError::UnknownTForm,
{
    if format.unicode_len() < 2 {
        return Err(FitsError::UnknownTForm);
    }
    let count = char_digit(format.get_char(0));
    if count < 0 {
        return Err(FitsError::UnknownTForm);
    }
    let dtype = format.get_char(1);
    if dtype == 'X' {
        return Ok(((count as usize) + 7) / 8);
    }
    let s: i32 = match dtype {
        'L' => 1,
        'B' => 1,
        'I' => 2,
        'J' => 4,
        'K' => 8,
        'A' => 1,
        'E' => 4,
        'D' => 8,
        'C' => 8,
        'M' => 16,
        _ => -1,
    };
    if s <= 0 {
        return Err(FitsError::UnknownTForm);
    }
    Ok(s as usize)
}

/// A big-endian unsigned integer read from all the bytes of a buffer.
pub open spec fn be_uint(s: Seq<u8>) -> int
    decreases s.len(),
{
    if s.len() == 0 {
        0
    } else {
        be_uint(s.drop_last()) * 256 + s.last()
    }
}

pub proof fn lemma_be_uint_bound(s: Seq<u8>, cap: int)
    requires
        s.len() <= 16,
        pow256(s.len() as nat) <= cap,
    ensures
        0 <= be_uint(s) < cap,
    decreases s.len(),
{
    if s.len() == 0 {
    } else {
        lemma_be_uint_bound(s.drop_last(), pow256((s.len() - 1) as nat));
        assert(be_uint(s.drop_last()) * 256 + s.last() < pow256((s.len() - 1) as nat) * 256)
            by (nonlinear_arith)
            requires
                be_uint(s.drop_last()) <= pow256((s.len() - 1) as nat) - 1,
                0 <= s.last() < 256,
                pow256((s.len() - 1) as nat) >= 1,
        ;
        assert(pow256((s.len() - 1) as nat) * 256 == pow256(s.len() as nat)) by (nonlinear_arith)
            requires
                pow256(s.len() as nat) == 256 * pow256((s.len() - 1) as nat),
        ;
    }
}

/// 256 to the k-th power.
pub open spec fn pow256(k: nat) -> int
    decreases k,
{
    if k == 0 {
        1
    } else {
        256 * pow256((k - 1) as nat)
    }
}

proof fn lemma_pow256_pos(k: nat)
    ensures
        pow256(k) >= 1,
    decreases k,
{
    if k > 0 {
        lemma_pow256_pos((k - 1) as nat);
    }
}

/// A two's-complement reading of an unsigned value of the given bit width.
pub open spec fn signed_of(v: int, bits: nat) -> int {
    if v < pow256(bits / 8) / 2 {
        v
    } else {
        v - pow256(bits / 8)
    }
}

/// Reads the big-endian unsigned integer held in bytes [from, to) of a
/// buffer; at most eight bytes.
fn read_be_uint(bytes: &[u8], from: usize, to: usize) -> (v: u64)
    requires
        from <= to <= bytes@.len(),
        to - from <= 8,
    ensures
        v == be_uint(bytes@.subrange(from as int, to as int)),
{
    let mut v: u64 = 0;
    let mut i: usize = from;
    proof {
        assert(bytes@.subrange(from as int, from as int) =~= Seq::<u8>::empty());
        reveal_with_fuel(pow256, 9);
    }
    while i < to
        invariant
            from <= i <= to <= bytes@.len(),
            to - from <= 8,
            v == be_uint(bytes@.subrange(from as int, i as int)),
            v < pow256((i - from) as nat),
        decreases to - i,
    {
        proof {
            reveal_with_fuel(pow256, 9);
            lemma_pow256_pos((i - from) as nat);
            assert(bytes@.subrange(from as int, i + 1).drop_last() =~= bytes@.subrange(
                from as int,
                i as int,
            ));
        }
        v = v * 256 + bytes[i] as u64;
        i = i + 1;
    }
    v
}

/// One decoded table cell. Floating-point cells carry their raw big-endian
/// bits; complex cells carry the bits of their real and imaginary parts.
#[derive(Debug, PartialEq)]
pub enum CellValue {
    Logical(bool),
    Int(i64),
    Float32Bits(u32),
    Float64Bits(u64),
    Text(String),
    Complex32Bits(u32, u32),
    Complex64Bits(u64, u64),
    /// A repeated column: one decoded element per full element-width chunk.
    List(Vec<CellValue>),
}

/// All bytes denote ASCII characters.
pub open spec fn all_ascii(s: Seq<u8>) -> bool {
    forall|i: int| 0 <= i < s.len() ==> #[trigger] s[i] < 128
}

/// The cell a known single-element type code decodes a byte buffer to, or
/// None when the buffer has the wrong width (or a non-ASCII text byte).
pub open spec fn spec_cell(dtype: char, s: Seq<u8>) -> Option<CellValue> {
    if dtype == 'L' {
        if s.len() == 1 {
            Some(CellValue::Logical(s[0] != 0))
        } else {
            None
        }
    } else if dtype == 'X' || dtype == 'B' {
        if s.len() == 1 {
            Some(CellValue::Int(s[0] as i64))
        } else {
            None
        }
    } else if dtype == 'I' {
        if s.len() == 2 {
            Some(CellValue::Int(signed_of(be_uint(s), 16) as i64))
        } else {
            None
        }
    } else if dtype == 'J' {
        if s.len() == 4 {
            Some(CellValue::Int(signed_of(be_uint(s), 32) as i64))
        } else {
            None
        }
    } else if dtype == 'K' {
        if s.len() == 8 {
            Some(CellValue::Int(signed_of(be_uint(s), 64) as i64))
        } else {
            None
        }
    } else if dtype == 'E' {
        if s.len() == 4 {
            Some(CellValue::Float32Bits(be_uint(s) as u32))
        } else {
            None
        }
    } else if dtype == 'D' {
        if s.len() == 8 {
            Some(CellValue::Float64Bits(be_uint(s) as u64))
        } else {
            None
        }
    } else if dtype == 'C' {
        if s.len() == 8 {
            Some(
                CellValue::Complex32Bits(
                    be_uint(s.subrange(0, 4)) as u32,
                    be_uint(s.subrange(4, 8)) as u32,
                ),
            )
        } else {
            None
        }
    } else if dtype == 'M' {
        if s.len() == 16 {
            Some(
                CellValue::Complex64Bits(
                    be_uint(s.subrange(0, 8)) as u64,
                    be_uint(s.subrange(8, 16)) as u64,
                ),
            )
        } else {
            None
        }
    } else {
        None
    }
}

/// Decodes the bytes of one single-element cell. Text cells ('A') accept
/// ASCII bytes only, as the FITS standard prescribes for character columns.
pub fn parse_bytes(dtype: char, bytes: &[u8]) -> (r: Result<CellValue, FitsError>)
    ensures
        dtype == 'A' ==> {
            &&& (r is Ok <==> all_ascii(bytes@))
            &&& (r matches Ok(c) ==> c matches CellValue::Text(t) && t@ =~= bytes@.map_values(
                |b: u8| b as char,
            ))
        },
        dtype != 'A' ==> {
            &&& (r is Ok <==> spec_cell(dtype, bytes@) is Some)
            &&& (r matches Ok(c) ==> Some(c) == spec_cell(dtype, bytes@))
        },
        r matches Err(e) ==> (e == FitsError::UnknownTForm <==> (dtype != 'A' && element_size(
            dtype,
        ) < 0)) && (e == FitsError::UnknownTForm || e == FitsError::CellDecodeFailed),
{
    let n = bytes.len();
    proof {
        reveal_with_fuel(pow256, 9);
    }
    if dtype == 'L' {
        if n != 1 {
            return Err(FitsError::CellDecodeFailed);
        }
        Ok(CellValue::Logical(bytes[0] != 0))
    } else if dtype == 'X' || dtype == 'B' {
        if n != 1 {
            return Err(FitsError::CellDecodeFailed);
        }
        proof {
            assert(bytes@.subrange(0, 1) =~= bytes@);
        }
        Ok(CellValue::Int(bytes[0] as i64))
    } else if dtype == 'I' {
        if n != 2 {
            return Err(FitsError::CellDecodeFailed);
        }
        let v = read_be_uint(bytes, 0, 2);
        proof {
            assert(bytes@.subrange(0, 2) =~= bytes@);
            lemma_be_uint_bound(bytes@, 0x10000);
        }
        let signed: i64 = if v >= 0x8000 {
            v as i64 - 0x10000
        } else {
            v as i64
        };
        Ok(CellValue::Int(signed))
    } else if dtype == 'J' {
        if n != 4 {
            return Err(FitsError::CellDecodeFailed);
        }
        let v = read_be_uint(bytes, 0, 4);
        proof {
            assert(bytes@.subrange(0, 4) =~= bytes@);
            lemma_be_uint_bound(bytes@, 0x100000000);
        }
        let signed: i64 = if v >= 0x80000000 {
            v as i64 - 0x100000000
        } else {
            v as i64
        };
        Ok(CellValue::Int(signed))
    } else if dtype == 'K' {
        if n != 8 {
            return Err(FitsError::CellDecodeFailed);
        }
        let v = read_be_uint(bytes, 0, 8);
        proof {
            assert(bytes@.subrange(0, 8) =~= bytes@);
            lemma_be_uint_bound(bytes@, 0x10000000000000000);
        }
        let signed: i64 = if v >= 0x8000000000000000 {
            -((0xFFFFFFFFFFFFFFFFu64 - v) as i64) - 1
        } else {
            v as i64
        };
        Ok(CellValue::Int(signed))
    } else if dtype == 'E' {
        if n != 4 {
            return Err(FitsError::CellDecodeFailed);
        }
        let v = read_be_uint(bytes, 0, 4);
        proof {
            assert(bytes@.subrange(0, 4) =~= bytes@);
            lemma_be_uint_bound(bytes@, 0x100000000);
        }
        Ok(CellValue::Float32Bits(v as u32))
    } else if dtype == 'D' {
        if n != 8 {
            return Err(FitsError::CellDecodeFailed);
        }
        let v = read_be_uint(bytes, 0, 8);
        proof {
            assert(bytes@.subrange(0, 8) =~= bytes@);
            lemma_be_uint_bound(bytes@, 0x10000000000000000);
        }
        Ok(CellValue::Float64Bits(v as u64))
    } else if dtype == 'C' {
        if n != 8 {
            return Err(FitsError::CellDecodeFailed);
        }
        let re = read_be_uint(bytes, 0, 4);
        let im = read_be_uint(bytes, 4, 8);
        proof {
            lemma_be_uint_bound(bytes@.subrange(0, 4), 0x100000000);
            lemma_be_uint_bound(bytes@.subrange(4, 8), 0x100000000);
        }
        Ok(CellValue::Complex32Bits(re as u32, im as u32))
    } else if dtype == 'M' {
        if n != 16 {
            return Err(FitsError::CellDecodeFailed);
        }
        let re = read_be_uint(bytes, 0, 8);
        let im = read_be_uint(bytes, 8, 16);
        proof {
            lemma_be_uint_bound(bytes@.subrange(0, 8), 0x10000000000000000);
            lemma_be_uint_bound(bytes@.subrange(8, 16), 0x10000000000000000);
        }
        Ok(CellValue::Complex64Bits(re as u64, im as u64))
    } else if dtype == 'A' {
        let mut s = String::new();
        let mut i: usize = 0;
        while i < n
            invariant
                dtype == 'A',
                i <= n,
                n == bytes@.len(),
                forall|j: int| 0 <= j < i ==> #[trigger] bytes@[j] < 128,
                s@ == bytes@.subrange(0, i as int).map_values(|b: u8| b as char),
            decreases n - i,
        {
            let b = bytes[i];
            if b >= 128 {
                return Err(FitsError::CellDecodeFailed);
            }
            push_char(&mut s, b as char);
            proof {
                assert(bytes@.subrange(0, i + 1).map_values(|bb: u8| bb as char) =~= bytes@.subrange(
                    0,
                    i as int,
                ).map_values(|bb: u8| bb as char).push(b as char));
            }
            i = i + 1;
        }
        proof {
            assert(bytes@.subrange(0, n as int) =~= bytes@);
        }
        Ok(CellValue::Text(s))
    } else {
        Err(FitsError::UnknownTForm)
    }
}

/// The raw data block of a table HDU: its shape (bytes per row, then row
/// count) and the bytes themselves.
pub struct FitsTableData {
    pub shape: Vec<usize>,
    pub data: Vec<u8>,
}

/// One column of a binary table: its position, header names, TFORM code and
/// derived element type, repeat count, cell width in bytes, and byte offset
/// within a row.
pub struct FitsColumn {
    pub index: usize,
    pub name: String,
    pub format: String,
    pub unit: Option<String>,
    pub datatype: char,
    pub count: u32,
    pub size: usize,
    pub offset: usize,
}

/// Walks one column of the raw data block row by row, yielding the cell
/// bytes of each row.
pub struct ColumnIter<'a> {
    pub row_size: usize,
    pub row: usize,
    pub column: [usize; 2],
    pub data: &'a [u8],
}

impl<'a> ColumnIter<'a> {
    /// The column window [offset, offset + width) fits inside a row.
    pub open spec fn wf(self) -> bool {
        &&& self.row_size > 0
        &&& self.column@[0] + self.column@[1] <= self.row_size
    }

    pub fn new(data: &'a [u8], row_size: usize, column: [usize; 2]) -> (r: ColumnIter<'a>)
        ensures
            r.data@ == data@,
            r.row_size == row_size,
            r.row == 0,
            r.column@ == column@,
    {
        ColumnIter { data, row_size, row: 0, column }
    }

    /// The cell bytes of the next row, or None past the last whole row.
    pub fn next(&mut self) -> (r: Option<&'a [u8]>)
        requires
            old(self).wf(),
        ensures
            final(self).wf(),
            final(self).data@ == old(self).data@,
            final(self).row_size == old(self).row_size,
            final(self).column@ == old(self).column@,
            r is Some <==> old(self).row < old(self).data@.len() as int / old(self).row_size as int,
            r is Some ==> final(self).row == old(self).row + 1,
            r is None ==> final(self).row == old(self).row,
            r matches Some(s) ==> s@ == old(self).data@.subrange(
                old(self).row * old(self).row_size + old(self).column@[0],
                old(self).row * old(self).row_size + old(self).column@[0] + old(self).column@[1],
            ),
    {
        let total_rows = self.data.len() / self.row_size;
        if self.row >= total_rows {
            return None;
        }
        proof {
            vstd::arithmetic::div_mod::lemma_fundamental_div_mod(
                self.data@.len() as int,
                self.row_size as int,
            );
            vstd::arithmetic::mul::lemma_mul_inequality(
                self.row + 1,
                self.data@.len() as int / self.row_size as int,
                self.row_size as int,
            );
            assert((self.data@.len() as int / self.row_size as int) * self.row_size
                <= self.data@.len()) by (nonlinear_arith)
                requires
                    self.row_size > 0,
                    self.data@.len() == self.row_size * (self.data@.len() as int
                        / self.row_size as int) + self.data@.len() as int % self.row_size as int,
                    self.data@.len() as int % self.row_size as int >= 0,
            ;
            assert((self.row + 1) * self.row_size == self.row * self.row_size + self.row_size)
                by (nonlinear_arith);
        }
        let offset = self.row * self.row_size + self.column[0];
        let end = offset + self.column[1];
        self.row = self.row + 1;
        Some(slice_subrange(self.data, offset, end))
    }
}

proof fn lemma_mul_guard(a: int, b: int, m: int)
    requires
        b > 0,
        m >= 0,
        a >= 0,
    ensures
        a <= m / b ==> a * b <= m,
        a > m / b ==> a * b > m,
{
    vstd::arithmetic::div_mod::lemma_fundamental_div_mod(m, b);
    assert((a <= m / b ==> a * b <= m) && (a > m / b ==> a * b > m)) by (nonlinear_arith)
        requires
            m == b * (m / b) + m % b,
            0 <= m % b < b,
            b > 0,
            a >= 0,
    ;
}

/// Whether chunk j of a cell (of element width es, starting at base within
/// the buffer) decodes under the given type code.
pub open spec fn chunk_ok(dtype: char, d: Seq<u8>, base: int, es: int, j: int) -> bool {
    let c = d.subrange(base + j * es, base + (j + 1) * es);
    if dtype == 'A' {
        all_ascii(c)
    } else {
        spec_cell(dtype, c) is Some
    }
}

impl FitsColumn {
    pub fn index(&self) -> (r: usize)
        ensures
            r == self.index,
    {
        self.index
    }

    pub fn name(&self) -> (r: &str)
        ensures
            r@ == self.name@,
    {
        self.name.as_str()
    }

    pub fn format(&self) -> (r: &str)
        ensures
            r@ == self.format@,
    {
        self.format.as_str()
    }

    pub fn unit(&self) -> (r: Option<&str>)
        ensures
            r is Some <==> self.unit is Some,
            r matches Some(u) ==> self.unit matches Some(su) && u@ == su@,
    {
        match &self.unit {
            Some(u) => Some(u.as_str()),
            None => None,
        }
    }

    /// The cell bytes of this column in each row.
    pub fn iter<'a>(&self, data: &'a FitsTableData) -> (r: ColumnIter<'a>)
        requires
            data.shape@.len() >= 1,
        ensures
            r.data@ == data.data@,
            r.row_size == data.shape@[0],
            r.row == 0,
            r.column@ == seq![self.offset, self.size],
    {
        ColumnIter::new(data.data.as_slice(), data.shape[0], [self.offset, self.size])
    }

    /// Decodes this column's cell in the given row. A single-element column
    /// (and the bit type X) decodes to one value; a repeat-count column
    /// decodes each whole element-width chunk of the cell. Fails when the
    /// cell lies outside the data block, the TFORM code is unknown, or the
    /// bytes do not decode.
    pub fn value(&self, data: &FitsTableData, row: usize) -> (r: Result<CellValue, FitsError>)
        ensures
            ({
                let start = row * data.shape@[0] + self.offset;
                let cell = data.data@.subrange(start, start + self.size);
                let ok_bounds = data.shape@.len() >= 1 && start + self.size <= data.data@.len();
                &&& ((self.count == 1 || self.datatype == 'X') && self.datatype != 'A') ==> {
                    &&& (r is Ok <==> ok_bounds && spec_cell(self.datatype, cell) is Some)
                    &&& (r matches Ok(c) ==> Some(c) == spec_cell(self.datatype, cell))
                }
                &&& ((self.count == 1 || self.datatype == 'X') && self.datatype == 'A') ==> {
                    &&& (r is Ok <==> ok_bounds && all_ascii(cell))
                    &&& (r matches Ok(c) ==> c matches CellValue::Text(t) && t@ == cell.map_values(
                        |b: u8| b as char,
                    ))
                }
                &&& (!(self.count == 1 || self.datatype == 'X')) ==> {
                    let es = spec_datatype_size(self.format@)->Some_0;
                    &&& (r is Ok <==> ok_bounds && spec_datatype_size(self.format@) is Some && es
                        > 0 && self.size as int % es == 0 && (forall|j: int|
                        0 <= j < self.size as int / es ==> chunk_ok(
                            self.datatype,
                            data.data@,
                            start,
                            es,
                            j,
                        )))
                    &&& (r matches Ok(c) ==> (c matches CellValue::List(vs) && vs@.len()
                        == self.size as int / es && (self.datatype != 'A' ==> forall|j: int|
                        0 <= j < vs@.len() ==> Some(#[trigger] vs@[j]) == spec_cell(
                            self.datatype,
                            data.data@.subrange(start + j * es, start + (j + 1) * es),
                        ))))
                }
            }),
    {
        if data.shape.len() < 1 {
            return Err(FitsError::CellDecodeFailed);
        }
        let row_size = data.shape[0];
        let dlen = data.data.len();
        let start0: usize = if row_size == 0 {
            0
        } else {
            proof {
                lemma_mul_guard(row as int, row_size as int, usize::MAX as int);
            }
            if row > usize::MAX / row_size {
                proof {
                    assert(row * row_size + self.offset + self.size > dlen);
                }
                return Err(FitsError::CellDecodeFailed);
            }
            row * row_size
        };
        if self.offset > usize::MAX - start0 {
            return Err(FitsError::CellDecodeFailed);
        }
        let start = start0 + self.offset;
        if self.size > dlen || start > dlen - self.size {
            return Err(FitsError::CellDecodeFailed);
        }
        let bytes = slice_subrange(data.data.as_slice(), start, start + self.size);
        if self.count == 1 || self.datatype == 'X' {
            return parse_bytes(self.datatype, bytes);
        }
        let es = match datatype_size(self.format.as_str()) {
            Ok(es) => es,
            Err(e) => {
                return Err(e);
            },
        };
        if es == 0 || self.size % es != 0 {
            return Err(FitsError::CellDecodeFailed);
        }
        let total = self.size / es;
        let mut vs: Vec<CellValue> = Vec::new();
        let mut j: usize = 0;
        while j < total
            invariant
                j <= total,
                es > 0,
                !(self.count == 1 || self.datatype == 'X'),
                Some(es as int) == spec_datatype_size(self.format@),
                data.shape@.len() >= 1,
                start == row * data.shape@[0] + self.offset,
                total == self.size as int / es as int,
                self.size as int % es as int == 0,
                start + self.size <= data.data@.len(),
                data.data@.len() <= usize::MAX,
                vs@.len() == j,
                forall|jj: int|
                    0 <= jj < j ==> chunk_ok(
                        self.datatype,
                        data.data@,
                        start as int,
                        es as int,
                        jj,
                    ),
                self.datatype != 'A' ==> forall|jj: int|
                    0 <= jj < j ==> Some(#[trigger] vs@[jj]) == spec_cell(
                        self.datatype,
                        data.data@.subrange(
                            start + jj * es,
                            start + (jj + 1) * es,
                        ),
                    ),
            decreases total - j,
        {
            proof {
                vstd::arithmetic::div_mod::lemma_fundamental_div_mod(
                    self.size as int,
                    es as int,
                );
                vstd::arithmetic::mul::lemma_mul_inequality(
                    j + 1,
                    self.size as int / es as int,
                    es as int,
                );
                assert((j + 1) * es == j * es + es) by (nonlinear_arith);
                assert((self.size as int / es as int) * es == self.size) by (nonlinear_arith)
                    requires
                        es > 0,
                        self.size as int % es as int == 0,
                        self.size == es * (self.size as int / es as int) + self.size as int
                            % es as int,
                ;
            }
            let chunk = slice_subrange(data.data.as_slice(), start + j * es, start + j * es + es);
            proof {
                assert(chunk@ =~= data.data@.subrange(
                    start + j * es,
                    start + (j + 1) * es,
                ));
            }
            match parse_bytes(self.datatype, chunk) {
                Ok(c) => {
                    vs.push(c);
                },
                Err(e) => {
                    assert(!chunk_ok(self.datatype, data.data@, start as int, es as int, j as int));
                    return Err(e);
                },
            }
            j = j + 1;
        }
        Ok(CellValue::List(vs))
    }
}

/// The header keyword naming column i's TFORM code.
pub open spec fn tform_key(i: int) -> Seq<char> {
    "TFORM"@ + udec_chars(i)
}

/// The header keyword naming column i's name.
pub open spec fn ttype_key(i: int) -> Seq<char> {
    "TTYPE"@ + udec_chars(i)
}

/// The header keyword naming column i's unit.
pub open spec fn tunit_key(i: int) -> Seq<char> {
    "TUNIT"@ + udec_chars(i)
}

/// The cell width of 1-based column i, when its TFORM is present and valid.
pub open spec fn col_size_at(h: fitrs::Hdu, i: int) -> Option<int> {
    match header_text(h, tform_key(i)) {
        Some(f) => spec_datatype_size(f),
        None => None,
    }
}

/// Total width of the first n columns: the byte offset at which column n+1
/// starts. None when any of the first n columns is unavailable.
pub open spec fn row_width(h: fitrs::Hdu, n: int) -> Option<int>
    decreases n,
{
    if n <= 0 {
        Some(0)
    } else {
        match (row_width(h, n - 1), col_size_at(h, n)) {
            (Some(a), Some(b)) => Some(a + b),
            _ => None,
        }
    }
}

proof fn lemma_row_width_mono(h: fitrs::Hdu, a: int, b: int)
    requires
        0 <= a <= b,
    ensures
        row_width(h, b) matches Some(w2) ==> row_width(h, a) matches Some(w1) && w1 <= w2,
    decreases b,
{
    if a < b {
        lemma_row_width_mono(h, a, b - 1);
    }
}

/// The number of columns TFIELDS declares (clamped at zero), when present.
pub open spec fn spec_nfields(h: fitrs::Hdu) -> int {
    match spec_header_lookup(h, "TFIELDS"@) {
        Some(HeaderItem::Int(n)) => if n >= 0 {
            n as int
        } else {
            0
        },
        _ => 0,
    }
}

/// Column i's name and width are both available in the header.
pub open spec fn col_ok(h: fitrs::Hdu, i: int) -> bool {
    col_size_at(h, i) is Some && header_text(h, ttype_key(i)) is Some
}

/// The parsed column list matches the header: one entry per declared field
/// in order, named and formatted by its TTYPE/TFORM cards, its width derived
/// from the TFORM code, at the cumulative offset of the columns before it.
pub open spec fn columns_match_header(h: fitrs::Hdu, cols: Seq<FitsColumn>) -> bool {
    &&& spec_header_lookup(h, "TFIELDS"@) matches Some(HeaderItem::Int(_))
    &&& cols.len() == spec_nfields(h)
    &&& forall|i: int|
        0 <= i < cols.len() ==> {
            let c = #[trigger] cols[i];
            &&& c.index == i
            &&& Some(c.format@) == header_text(h, tform_key(i + 1))
            &&& Some(c.name@) == header_text(h, ttype_key(i + 1))
            &&& Some(c.size as int) == spec_datatype_size(c.format@)
            &&& Some(c.offset as int) == row_width(h, i)
            &&& c.format@.len() >= 2
            &&& c.datatype == c.format@[1]
            &&& c.count == digit_value(c.format@[0])
            &&& (c.unit matches Some(u) ==> Some(u@) == header_text(h, tunit_key(i + 1)))
            &&& (c.unit is None <==> header_text(h, tunit_key(i + 1)) is None)
        }
}

/// Parses the column layout of a binary-table header: TFIELDS gives the
/// count, each column its TFORM code and TTYPE name (TUNIT optional), and
/// offsets accumulate left to right. Succeeds exactly when TFIELDS is an
/// integer, every declared column has a text TFORM with a known code and a
/// text TTYPE, and the accumulated row width is addressable.
pub fn get_columns(hdu: &fitrs::Hdu) -> (r: Result<Vec<FitsColumn>, FitsError>)
    ensures
        r is Ok <==> ((spec_header_lookup(*hdu, "TFIELDS"@) matches Some(HeaderItem::Int(_)))
            && (forall|i: int| 1 <= i <= spec_nfields(*hdu) ==> #[trigger] col_ok(*hdu, i)) && (
        row_width(*hdu, spec_nfields(*hdu)) matches Some(w) && w <= usize::MAX)),
        r matches Ok(cols) ==> columns_match_header(*hdu, cols@),
        r matches Err(e) ==> (e == FitsError::MissingHeaderKey || e
            == FitsError::UnexpectedValueType || e == FitsError::UnknownTForm),
{
    proof {
        reveal_strlit("TFIELDS");
        reveal_strlit("TFORM");
        reveal_strlit("TTYPE");
        reveal_strlit("TUNIT");
    }
    let nfields: i32 = match read_header(hdu, "TFIELDS") {
        Some(HeaderItem::Int(n)) => n,
        Some(_) => {
            return Err(FitsError::UnexpectedValueType);
        },
        None => {
            return Err(FitsError::MissingHeaderKey);
        },
    };
    let ghost nf = spec_nfields(*hdu);
    let mut cols: Vec<FitsColumn> = Vec::new();
    let mut offset: usize = 0;
    let mut i: i64 = 1;
    while nfields >= 1 && i <= nfields as i64
        invariant
            1 <= i,
            nfields >= 1 ==> i <= nfields + 1,
            nfields < 1 ==> i == 1,
            nf == spec_nfields(*hdu),
            nf == if nfields >= 0 { nfields as int } else { 0 },
            spec_header_lookup(*hdu, "TFIELDS"@) matches Some(HeaderItem::Int(_)),
            cols@.len() == i - 1,
            Some(offset as int) == row_width(*hdu, i - 1),
            forall|k: int| 1 <= k < i ==> #[trigger] col_ok(*hdu, k),
            columns_match_header(*hdu, cols@) || cols@.len() < nf,
            forall|k: int|
                0 <= k < cols@.len() ==> {
                    let c = #[trigger] cols@[k];
                    &&& c.index == k
                    &&& Some(c.format@) == header_text(*hdu, tform_key(k + 1))
                    &&& Some(c.name@) == header_text(*hdu, ttype_key(k + 1))
                    &&& Some(c.size as int) == spec_datatype_size(c.format@)
                    &&& Some(c.offset as int) == row_width(*hdu, k)
                    &&& c.format@.len() >= 2
                    &&& c.datatype == c.format@[1]
                    &&& c.count == digit_value(c.format@[0])
                    &&& (c.unit matches Some(u) ==> Some(u@) == header_text(*hdu, tunit_key(k + 1)))
                    &&& (c.unit is None <==> header_text(*hdu, tunit_key(k + 1)) is None)
                },
        decreases nfields + 1 - i,
    {
        let mut fkey = String::new();
        fkey.append("TFORM");
        push_udec(&mut fkey, i as u32);
        let mut nkey = String::new();
        nkey.append("TTYPE");
        push_udec(&mut nkey, i as u32);
        let mut ukey = String::new();
        ukey.append("TUNIT");
        push_udec(&mut ukey, i as u32);
        proof {
            assert(fkey@ =~= tform_key(i as int));
            assert(nkey@ =~= ttype_key(i as int));
            assert(ukey@ =~= tunit_key(i as int));
        }
        let format = match read_to_string(hdu, fkey.as_str()) {
            Ok(f) => f,
            Err(e) => {
                assert(!col_ok(*hdu, i as int));
                return Err(e);
            },
        };
        let name = match read_to_string(hdu, nkey.as_str()) {
            Ok(nm) => nm,
            Err(e) => {
                assert(!col_ok(*hdu, i as int));
                return Err(e);
            },
        };
        let unit = match read_to_string(hdu, ukey.as_str()) {
            Ok(u) => Some(u),
            Err(_) => None,
        };
        let size = match datatype_size(format.as_str()) {
            Ok(sz) => sz,
            Err(e) => {
                assert(!col_ok(*hdu, i as int));
                return Err(e);
            },
        };
        let count = char_digit(format.get_char(0));
        let datatype = format.get_char(1);
        if size > usize::MAX - offset {
            // a row this wide cannot be addressed, so no cell of it could
            // ever be decoded
            proof {
                lemma_row_width_mono(*hdu, i as int, nf);
            }
            return Err(FitsError::UnknownTForm);
        }
        let idx = cols.len();
        cols.push(FitsColumn { index: idx, name, format, unit, datatype, count: count as u32, size, offset });
        offset = offset + size;
        i = i + 1;
        proof {
            assert(col_ok(*hdu, i - 1));
        }
    }
    proof {
        if nf > 0 {
            lemma_row_width_mono(*hdu, nf, nf);
        }
    }
    Ok(cols)
}

/// An opened binary table: its HDU, the raw data block (bytes per row and
/// row count), and the parsed column layout.
pub struct FitsTable {
    pub hdu: fitrs::Hdu,
    pub data: FitsTableData,
    pub columns: Vec<FitsColumn>,
}

impl FitsTable {
    /// Assembles a table from an HDU whose raw data block the caller already
    /// read as bytes: the shape must be the two extents (bytes per row, row
    /// count); anything else is not a byte table. Succeeds exactly when the
    /// shape has two extents and the header declares a readable column
    /// layout.
    pub fn new(hdu: fitrs::Hdu, shape: Vec<usize>, bytes: Vec<u8>) -> (r: Result<
        FitsTable,
        FitsError,
    >)
        ensures
            r is Ok <==> shape@.len() == 2 && ((spec_header_lookup(hdu, "TFIELDS"@) matches Some(
                HeaderItem::Int(_),
            )) && (forall|i: int| 1 <= i <= spec_nfields(hdu) ==> #[trigger] col_ok(hdu, i)) && (
            row_width(hdu, spec_nfields(hdu)) matches Some(w) && w <= usize::MAX)),
            r matches Ok(t) ==> {
                &&& t.hdu == hdu
                &&& t.data.shape@ == shape@
                &&& t.data.data@ == bytes@
                &&& shape@.len() == 2
                &&& columns_match_header(t.hdu, t.columns@)
            },
            r matches Err(e) ==> (e == FitsError::NotByteData <==> shape@.len() != 2),
    {
        if shape.len() != 2 {
            return Err(FitsError::NotByteData);
        }
        let columns = match get_columns(&hdu) {
            Ok(c) => c,
            Err(e) => {
                return Err(e);
            },
        };
        Ok(FitsTable { hdu, data: FitsTableData { shape, data: bytes }, columns })
    }

    /// The underlying HDU.
    pub fn hdu(&self) -> (r: &fitrs::Hdu)
        ensures
            r == &self.hdu,
    {
        &self.hdu
    }

    /// The parsed columns, in declaration order.
    pub fn columns(&self) -> (r: &Vec<FitsColumn>)
        ensures
            r == &self.columns,
    {
        &self.columns
    }

    /// Number of rows.
    pub fn len(&self) -> (r: usize)
        ensures
            r == if self.data.shape@.len() >= 2 {
                self.data.shape@[1]
            } else {
                0
            },
    {
        if self.data.shape.len() >= 2 {
            self.data.shape[1]
        } else {
            0
        }
    }

    /// Whether the table has no rows.
    pub fn is_empty(&self) -> (r: bool)
        ensures
            r == (self.data.shape@.len() < 2 || self.data.shape@[1] == 0),
    {
        self.len() == 0
    }
}

} // verus!
