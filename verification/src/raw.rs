use crate::cell::{valid_path, CellIndex, InvalidCellIndex, Path};
use vstd::prelude::*;

verus! {

/// The eight bits above the resolution: the cell mode between two reserved
/// fields that are zero.
pub const CELL_HEAD: u64 = 8;

/// `raw` without its `n` lowest octal digits.
pub open spec fn raw_shift(raw: int, n: int) -> int
    decreases n,
{
    if n <= 0 {
        raw
    } else {
        raw_shift(raw, n - 1) / 8
    }
}

/// The three bits of the slot at position `i`, the slot of resolution
/// `i + 1`.
pub open spec fn raw_digit(raw: u64, i: int) -> u8 {
    (raw_shift(raw as int, 14 - i) % 8) as u8
}

/// The seven bits of the base cell.
pub open spec fn raw_base_cell(raw: u64) -> int {
    raw_shift(raw as int, 15) % 128
}

/// The four bits of the resolution.
pub open spec fn raw_resolution(raw: u64) -> int {
    (raw_shift(raw as int, 15) / 128) % 16
}

/// The eight highest bits: reserved bit, mode, reserved bits.
pub open spec fn raw_head(raw: u64) -> int {
    raw_shift(raw as int, 15) / 2048
}

/// The fields of `raw` read as a cell.
pub open spec fn raw_path(raw: u64) -> Path {
    Path {
        resolution: raw_resolution(raw),
        base_cell: raw_base_cell(raw),
        digits: Seq::new(15, |i: int| raw_digit(raw, i)),
    }
}

/// Whether `raw` is the index of a cell.
pub open spec fn raw_is_cell(raw: u64) -> bool {
    raw_head(raw) == 8 && valid_path(raw_path(raw))
}

/// The number whose octal digits are those of `head` followed by the first
/// `n` of `digits`.
pub open spec fn horner(head: int, digits: Seq<u8>, n: int) -> int
    decreases n,
{
    if n <= 0 {
        head
    } else {
        horner(head, digits, n - 1) * 8 + digits[n - 1]
    }
}

/// The 64-bit index of a cell: head, resolution and base cell, then the
/// fifteen slots from resolution 1 down to 15.
pub open spec fn encode(c: Path) -> int {
    horner((8 * 16 + c.resolution) * 128 + c.base_cell, c.digits, 15)
}

/// 8 to the power `n`.
pub open spec fn pow8(n: int) -> int
    decreases n,
{
    if n <= 0 {
        1
    } else {
        8 * pow8(n - 1)
    }
}

/// The powers of 8 up to the fifteenth.
proof fn lemma_pow8_bound(n: int)
    requires
        0 <= n <= 15,
    ensures
        1 <= pow8(n) <= 35184372088832,
    decreases 15 - n,
{
    lemma_pow8_positive(n);
    if n < 15 {
        lemma_pow8_bound(n + 1);
    } else {
        reveal_with_fuel(pow8, 17);
        assert(pow8(15) == 35184372088832);
    }
}

/// A power of 8 is at least 1.
proof fn lemma_pow8_positive(n: int)
    ensures
        1 <= pow8(n),
    decreases n,
{
    if n > 0 {
        lemma_pow8_positive(n - 1);
    }
}

/// A number of `n` octal digits over a head of 15 bits has 15 bits more
/// than its digits take.
proof fn lemma_horner_bound(head: int, digits: Seq<u8>, n: int)
    requires
        0 <= head < 32768,
        0 <= n <= 15,
        digits.len() == 15,
        forall|i: int| 0 <= i < 15 ==> #[trigger] digits[i] <= 7,
    ensures
        0 <= horner(head, digits, n) < 32768 * pow8(n),
    decreases n,
{
    if n > 0 {
        lemma_horner_bound(head, digits, n - 1);
        assert(digits[n - 1] <= 7);
    }
}

/// Dropping `k` octal digits from a number built of `n` digits leaves the
/// number built of the first `n - k`.
proof fn lemma_shift_horner(head: int, digits: Seq<u8>, n: int, k: int)
    requires
        0 <= k <= n <= 15,
        0 <= head,
        digits.len() == 15,
        forall|i: int| 0 <= i < 15 ==> #[trigger] digits[i] <= 7,
    ensures
        raw_shift(horner(head, digits, n), k) == horner(head, digits, n - k),
        k < n ==> raw_shift(horner(head, digits, n), k) % 8 == digits[n - k - 1],
    decreases k,
{
    if k > 0 {
        lemma_shift_horner(head, digits, n, k - 1);
        assert(digits[n - k] <= 7);
    }
    if k < n {
        assert(digits[n - k - 1] <= 7);
    }
}

/// Numbers built over equal prefixes are equal.
pub proof fn lemma_horner_prefix(head: int, a: Seq<u8>, b: Seq<u8>, n: int)
    requires
        0 <= n <= a.len(),
        n <= b.len(),
        forall|i: int| 0 <= i < n ==> #[trigger] a[i] == b[i],
    ensures
        horner(head, a, n) == horner(head, b, n),
    decreases n,
{
    if n > 0 {
        lemma_horner_prefix(head, a, b, n - 1);
        assert(a[n - 1] == b[n - 1]);
    }
}

/// Once one number is below another, digits appended to both keep it
/// below.
pub proof fn lemma_horner_order(h1: int, a: Seq<u8>, h2: int, b: Seq<u8>, m: int, n: int)
    requires
        0 <= m <= n <= 15,
        a.len() == 15,
        b.len() == 15,
        forall|i: int| 0 <= i < 15 ==> #[trigger] a[i] <= 7,
        forall|i: int| 0 <= i < 15 ==> #[trigger] b[i] <= 7,
        horner(h1, a, m) < horner(h2, b, m),
    ensures
        horner(h1, a, n) < horner(h2, b, n),
    decreases n - m,
{
    if m < n {
        lemma_horner_order(h1, a, h2, b, m, n - 1);
        assert(a[n - 1] <= 7);
        assert(b[n - 1] <= 7);
    }
}

/// The index of a valid cell fits in 64 bits.
pub proof fn lemma_encode_fits(c: Path)
    requires
        valid_path(c),
    ensures
        0 <= encode(c) <= u64::MAX,
{
    let head = (8 * 16 + c.resolution) * 128 + c.base_cell;
    assert forall|i: int| 0 <= i < 15 implies #[trigger] c.digits[i] <= 7 by {
        if i < c.resolution {
            assert(c.digits[i] <= 6);
        } else {
            assert(c.digits[i] == 7);
        }
    }
    lemma_horner_bound(head, c.digits, 15);
    lemma_pow8_bound(15);
}

/// Reading the fields of a valid cell's index gives the cell back.
pub proof fn lemma_decode_encode(c: Path, raw: u64)
    requires
        valid_path(c),
        raw as int == encode(c),
    ensures
        raw_is_cell(raw),
        raw_path(raw) == c,
{
    let head = (8 * 16 + c.resolution) * 128 + c.base_cell;
    assert forall|i: int| 0 <= i < 15 implies #[trigger] c.digits[i] <= 7 by {
        if i < c.resolution {
            assert(c.digits[i] <= 6);
        } else {
            assert(c.digits[i] == 7);
        }
    }
    lemma_shift_horner(head, c.digits, 15, 15);
    assert(horner(head, c.digits, 0) == head);
    assert forall|i: int| 0 <= i < 15 implies raw_digit(raw, i) == #[trigger] c.digits[i] by {
        lemma_shift_horner(head, c.digits, 15, 14 - i);
    }
    assert(raw_path(raw).digits =~= c.digits);
}

impl CellIndex {
    /// The cell whose index is `raw`, or the error that carries `raw` where
    /// it is the index of no cell.
    pub fn try_from(raw: u64) -> (out: Result<CellIndex, InvalidCellIndex>)
        ensures
            out.is_ok() <==> raw_is_cell(raw),
            out.is_ok() ==> out.unwrap().wf() && out.unwrap()@ == raw_path(raw),
            out.is_err() ==> out.unwrap_err().value == Some(raw),
    {
        let mut digits: [u8; 15] = [7u8; 15];
        let mut rest: u64 = raw;
        let mut n: usize = 0;
        while n < 15
            invariant
                n <= 15,
                rest as int == raw_shift(raw as int, n as int),
                digits@.len() == 15,
                forall|i: int| 15 - n <= i < 15 ==> #[trigger] digits@[i] == raw_digit(raw, i),
            decreases 15 - n,
        {
            digits[14 - n] = (rest % 8) as u8;
            rest = rest / 8;
            n = n + 1;
        }
        assert(digits@ =~= raw_path(raw).digits);
        let base: u8 = (rest % 128) as u8;
        let res: u8 = ((rest / 128) % 16) as u8;
        let head: u64 = rest / 2048;
        if head != CELL_HEAD {
            return Err(InvalidCellIndex { value: Some(raw) });
        }
        let cell = CellIndex::assemble(res, base, digits);
        if cell.is_valid() {
            Ok(cell)
        } else {
            Err(InvalidCellIndex { value: Some(raw) })
        }
    }

    /// The cell's 64-bit index.
    pub fn to_u64(self) -> (raw: u64)
        requires
            self.wf(),
        ensures
            raw as int == encode(self@),
            raw_is_cell(raw),
            raw_path(raw) == self@,
    {
        let digits: [u8; 15] = self.raw_digits();
        let res: u64 = self.raw_resolution() as u64;
        let base: u64 = self.raw_base_cell() as u64;
        let head: u64 = (8 * 16 + res) * 128 + base;
        let mut acc: u64 = head;
        let mut n: usize = 0;
        proof {
            assert forall|i: int| 0 <= i < 15 implies #[trigger] digits@[i] <= 7 by {
                if i < self@.resolution {
                    assert(self@.digits[i] <= 6);
                } else {
                    assert(self@.digits[i] == 7);
                }
            }
        }
        while n < 15
            invariant
                n <= 15,
                head < 32768,
                digits@.len() == 15,
                forall|i: int| 0 <= i < 15 ==> #[trigger] digits@[i] <= 7,
                acc as int == horner(head as int, digits@, n as int),
            decreases 15 - n,
        {
            proof {
                lemma_horner_bound(head as int, digits@, n as int);
                lemma_pow8_bound(n as int);
                assert(32768 * pow8(n as int) <= 32768 * 35184372088832);
            }
            acc = acc * 8 + digits[n] as u64;
            n = n + 1;
        }
        proof {
            lemma_decode_encode(self@, acc);
        }
        acc
    }
}

} // verus!
