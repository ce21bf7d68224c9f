//! A bit-per-cell matrix, packed row-major with the high bit first within
//! each byte; the backing store holds the cell count rounded up to whole
//! bytes.

use vstd::prelude::*;

verus! {

/// Bit k of a byte, counting from the least significant bit.
pub open spec fn nth_bit(b: u8, k: u8) -> bool {
    (b >> k) & 1 == 1
}

/// Cell i of a packed bit buffer: within each byte the high bit comes first.
pub open spec fn bit_of(d: Seq<u8>, i: int) -> bool {
    nth_bit(d[i / 8], (7 - (i % 8)) as u8)
}

proof fn lemma_zero_bit(k: u8)
    ensures
        !nth_bit(0u8, k),
{
    assert((0u8 >> k) & 1 != 1) by (bit_vector);
}

proof fn lemma_test_bit(b: u8, k: u8)
    requires
        k < 8,
    ensures
        (b & (1u8 << k) != 0) == nth_bit(b, k),
{
    assert((b & (1u8 << k) != 0) == ((b >> k) & 1 == 1)) by (bit_vector)
        requires
            k < 8,
    ;
}

proof fn lemma_or_bit(b: u8, k: u8, j: u8)
    requires
        k < 8,
        j < 8,
    ensures
        nth_bit(b | (1u8 << k), j) == (j == k || nth_bit(b, j)),
{
    assert((((b | (1u8 << k)) >> j) & 1 == 1) == (j == k || ((b >> j) & 1 == 1))) by (bit_vector)
        requires
            k < 8,
            j < 8,
    ;
}

proof fn lemma_or_zero(b: u8)
    ensures
        b | 0u8 == b,
{
    assert(b | 0u8 == b) by (bit_vector);
}

/// A visited matrix of single bits over a width x height pixel grid.
pub struct BitMatrix {
    data: Vec<u8>,
    width: usize,
    height: usize,
}

impl View for BitMatrix {
    type V = Seq<bool>;

    /// The cells in row-major order.
    closed spec fn view(&self) -> Seq<bool> {
        Seq::new((self.width * self.height) as nat, |i: int| bit_of(self.data@, i))
    }
}

impl BitMatrix {
    /// The cell count fits the machine, the backing store holds exactly
    /// that count rounded up to bytes, and the padding bits of the last byte
    /// (positions at or past the cell count) stay clear.
    pub closed spec fn wf(self) -> bool {
        &&& self.width * self.height <= usize::MAX - 7
        &&& self.data@.len() == (self.width * self.height + 7) / 8
        &&& forall|j: int|
            self.width * self.height <= j < self.data@.len() * 8 ==> !bit_of(self.data@, j)
    }

    pub closed spec fn spec_width(self) -> usize {
        self.width
    }

    pub closed spec fn spec_height(self) -> usize {
        self.height
    }

    /// A matrix of the given dimensions with every cell clear.
    pub fn new(width: usize, height: usize) -> (r: BitMatrix)
        requires
            width * height <= usize::MAX - 7,
        ensures
            r.wf(),
            r.spec_width() == width,
            r.spec_height() == height,
            r@.len() == width * height,
            forall|i: int| 0 <= i < r@.len() ==> !(#[trigger] r@[i]),
    {
        let n = (width * height + 7) / 8;
        let mut data: Vec<u8> = Vec::new();
        let mut i: usize = 0;
        while i < n
            invariant
                i <= n,
                data@.len() == i,
                forall|j: int| 0 <= j < i ==> data@[j] == 0u8,
            decreases n - i,
        {
            data.push(0);
            i = i + 1;
        }
        let r = BitMatrix { data, width, height };
        proof {
            assert forall|i2: int| 0 <= i2 < r@.len() implies !(#[trigger] r@[i2]) by {
                lemma_zero_bit((7 - (i2 % 8)) as u8);
            }
            assert forall|j: int|
                width * height <= j < r.data@.len() * 8 implies !bit_of(r.data@, j) by {
                lemma_zero_bit((7 - (j % 8)) as u8);
            }
        }
        r
    }

    /// Reads the cell at (x, y).
    pub fn get(&self, x: usize, y: usize) -> (b: bool)
        requires
            self.wf(),
            x < self.spec_width(),
            y < self.spec_height(),
        ensures
            b == self@[y * self.spec_width() + x],
    {
        proof {
            assert(y * self.width + x < self.width * self.height) by (nonlinear_arith)
                requires
                    x < self.width,
                    y < self.height,
            ;
        }
        let offset = y * self.width + x;
        let byte = offset / 8;
        let bit: u8 = 7 - (offset % 8) as u8;
        let b = self.data[byte];
        proof {
            lemma_test_bit(b, bit);
        }
        b & (1u8 << bit) != 0
    }

    /// Sets the cell at (x, y); clearing a set cell is not supported (the
    /// stored byte is only ever or-ed), exactly as the visited map needs.
    pub fn set(&mut self, x: usize, y: usize, value: bool)
        requires
            old(self).wf(),
            x < old(self).spec_width(),
            y < old(self).spec_height(),
        ensures
            final(self).wf(),
            final(self).spec_width() == old(self).spec_width(),
            final(self).spec_height() == old(self).spec_height(),
            final(self)@ == if value {
                old(self)@.update((y * old(self).spec_width() + x) as int, true)
            } else {
                old(self)@
            },
    {
        proof {
            assert(y * self.width + x < self.width * self.height) by (nonlinear_arith)
                requires
                    x < self.width,
                    y < self.height,
            ;
        }
        let ghost olddata = self.data@;
        let offset = y * self.width + x;
        let byte = offset / 8;
        let bit: u8 = 7 - (offset % 8) as u8;
        let v: u8 = if value {
            1
        } else {
            0
        };
        let old_byte = self.data[byte];
        let nb = old_byte | (v << bit);
        self.data.set(byte, nb);
        proof {
            if value {
                assert(self@ =~= old(self)@.update(offset as int, true)) by {
                    assert forall|i: int| 0 <= i < self@.len() implies self@[i] == old(self)@.update(
                        offset as int,
                        true,
                    )[i] by {
                        if i / 8 == byte as int {
                            lemma_or_bit(old_byte, bit, (7 - (i % 8)) as u8);
                        }
                    }
                }
                assert forall|j: int|
                    self.width * self.height <= j < self.data@.len() * 8 implies !bit_of(
                    self.data@,
                    j,
                ) by {
                    assert(!bit_of(olddata, j));
                    if j / 8 == byte as int {
                        vstd::arithmetic::div_mod::lemma_fundamental_div_mod(j, 8);
                        vstd::arithmetic::div_mod::lemma_fundamental_div_mod(offset as int, 8);
                        assert(j % 8 != offset as int % 8);
                        lemma_or_bit(old_byte, bit, (7 - (j % 8)) as u8);
                    }
                }
            } else {
                assert(v << bit == 0) by (bit_vector)
                    requires
                        v == 0u8,
                ;
                lemma_or_zero(old_byte);
                assert(self.data@ =~= olddata);
            }
        }
    }

    /// A well-formed matrix holds exactly width times height cells.
    pub proof fn lemma_len(self)
        requires
            self.wf(),
        ensures
            self@.len() == self.spec_width() * self.spec_height(),
    {
    }

    /// The packed backing bytes: one bit per cell in row-major order, high
    /// bit first, with the padding bits of the last byte clear.
    pub fn data(&self) -> (r: &[u8])
        requires
            self.wf(),
        ensures
            r@.len() == (self.spec_width() * self.spec_height() + 7) / 8,
            forall|i: int| 0 <= i < self@.len() ==> #[trigger] bit_of(r@, i) == self@[i],
            forall|j: int|
                self.spec_width() * self.spec_height() <= j < r@.len() * 8 ==> !(#[trigger] bit_of(
                    r@,
                    j,
                )),
    {
        self.data.as_slice()
    }
}

} // verus!
