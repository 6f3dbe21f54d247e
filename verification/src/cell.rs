use crate::direction::Direction;
use crate::resolution::Resolution;
use vstd::prelude::*;

verus! {

/// Greatest base cell number.
pub const MAX_BASE_CELL: u8 = 121;

/// Whether the base cell with this number is one of the twelve pentagons.
pub open spec fn is_pentagon_base(base: int) -> bool {
    base == 4 || base == 14 || base == 24 || base == 38 || base == 49 || base == 58 || base == 63
        || base == 72 || base == 83 || base == 97 || base == 107 || base == 117
}

/// Whether the first `k` digits are all the centre direction.
pub open spec fn zeros_before(digits: Seq<u8>, k: int) -> bool {
    forall|j: int| 0 <= j < k ==> #[trigger] digits[j] == 0
}

/// Whether the first non-zero digit among the first `res` is the direction
/// that a pentagon lacks.
pub open spec fn leading_k(digits: Seq<u8>, res: int) -> bool {
    exists|k: int| 0 <= k < res && #[trigger] digits[k] == 1 && zeros_before(digits, k)
}

/// A cell as a mathematical value: its resolution, its base cell and its
/// fifteen digit slots, the slot of resolution `r` at position `r - 1`.
pub struct Path {
    pub resolution: int,
    pub base_cell: int,
    pub digits: Seq<u8>,
}

/// The structural invariants of a cell.
pub open spec fn valid_path(c: Path) -> bool {
    &&& 0 <= c.resolution <= 15
    &&& 0 <= c.base_cell <= 121
    &&& c.digits.len() == 15
    &&& forall|i: int| 0 <= i < c.resolution ==> #[trigger] c.digits[i] <= 6
    &&& forall|i: int| c.resolution <= i < 15 ==> #[trigger] c.digits[i] == 7
    &&& is_pentagon_base(c.base_cell) ==> !leading_k(c.digits, c.resolution)
}

/// Whether a cell is a pentagon: it descends from a pentagon base cell through
/// centre children only.
pub open spec fn path_is_pentagon(c: Path) -> bool {
    is_pentagon_base(c.base_cell) && zeros_before(c.digits, c.resolution)
}

/// A slot sequence: the first `keep` slots of `src`, then `fill` up to
/// `res`, then the unused marker.
pub open spec fn slots(src: Seq<u8>, keep: int, fill: u8, res: int) -> Seq<u8> {
    Seq::new(
        15,
        |i: int|
            if i < keep {
                src[i]
            } else if i < res {
                fill
            } else {
                7u8
            },
    )
}

/// One cell of the grid: a base cell and one direction for each resolution
/// down to its own.
#[derive(Clone, Copy, Debug, PartialEq, Eq, PartialOrd, Ord, Hash)]
pub struct CellIndex {
    pub(crate) resolution: u8,
    pub(crate) base_cell: u8,
    pub(crate) digits: [u8; 15],
}

/// A 64-bit value that is no cell index.
#[derive(Clone, Copy, Debug, PartialEq, Eq, Structural)]
pub struct InvalidCellIndex {
    /// The offending value; none where a string wrote no 64-bit number.
    pub value: Option<u64>,
}

impl View for CellIndex {
    type V = Path;

    closed spec fn view(&self) -> Path {
        Path {
            resolution: self.resolution as int,
            base_cell: self.base_cell as int,
            digits: self.digits@,
        }
    }
}

/// Whether the base cell with this number is a pentagon.
pub fn base_is_pentagon(base: u8) -> (r: bool)
    ensures
        r == is_pentagon_base(base as int),
{
    base == 4 || base == 14 || base == 24 || base == 38 || base == 49 || base == 58 || base == 63
        || base == 72 || base == 83 || base == 97 || base == 107 || base == 117
}

/// Builds the slots `slots(src, keep, fill, res)`.
pub(crate) fn make_slots(src: &[u8; 15], keep: usize, fill: u8, res: usize) -> (out: [u8; 15])
    requires
        keep <= res <= 15,
    ensures
        out@ == slots(src@, keep as int, fill, res as int),
{
    let mut out: [u8; 15] = [7u8; 15];
    let mut i: usize = 0;
    while i < res
        invariant
            i <= res <= 15,
            keep <= res,
            out@.len() == 15,
            forall|j: int| 0 <= j < i ==> #[trigger] out@[j] == slots(src@, keep as int, fill, res as int)[j],
            forall|j: int| i <= j < 15 ==> #[trigger] out@[j] == 7,
        decreases res - i,
    {
        if i < keep {
            out[i] = src[i];
        } else {
            out[i] = fill;
        }
        i = i + 1;
    }
    assert(out@ =~= slots(src@, keep as int, fill, res as int));
    out
}

/// Whether the first `k` slots all hold the centre direction.
pub(crate) fn all_zero_before(digits: &[u8; 15], k: usize) -> (r: bool)
    requires
        k <= 15,
    ensures
        r == zeros_before(digits@, k as int),
{
    let mut i: usize = 0;
    while i < k
        invariant
            i <= k <= 15,
            zeros_before(digits@, i as int),
        decreases k - i,
    {
        if digits[i] != 0 {
            return false;
        }
        i = i + 1;
    }
    true
}

impl CellIndex {
    /// Whether the value meets the structural invariants of a cell.
    pub open spec fn wf(&self) -> bool {
        valid_path(self@)
    }

    /// Whether the value meets the structural invariants of a cell.
    pub fn is_valid(&self) -> (r: bool)
        ensures
            r == self.wf(),
    {
        if self.resolution > 15 || self.base_cell > 121 {
            return false;
        }
        let r: usize = self.resolution as usize;
        let base: u8 = self.base_cell;
        let digits: &[u8; 15] = &self.digits;
        let mut i: usize = 0;
        let mut leading: bool = base_is_pentagon(base);
        while i < 15
            invariant
                i <= 15,
                r <= 15,
                base <= 121,
                r as int == self@.resolution,
                base as int == self@.base_cell,
                digits@ == self@.digits,
                forall|j: int| 0 <= j < i && j < r ==> #[trigger] digits@[j] <= 6,
                forall|j: int| r <= j < i ==> #[trigger] digits@[j] == 7,
                leading == (is_pentagon_base(base as int) && zeros_before(
                    digits@,
                    if i < r { i as int } else { r as int },
                )),
                is_pentagon_base(base as int) ==> !leading_k(
                    digits@,
                    if i < r { i as int } else { r as int },
                ),
            decreases 15 - i,
        {
            let d: u8 = digits[i];
            if i < r {
                if d > 6 {
                    return false;
                }
                if leading && d == 1 {
                    proof {
                        assert(leading_k(digits@, r as int));
                    }
                    return false;
                }
                proof {
                    let m = i as int + 1;
                    if is_pentagon_base(base as int) && leading_k(digits@, m) {
                        let k = choose|k: int|
                            0 <= k < m && #[trigger] digits@[k] == 1 && zeros_before(digits@, k);
                        if k < i {
                            assert(leading_k(digits@, i as int));
                        }
                        assert(false);
                    }
                    if zeros_before(digits@, m) {
                        assert(digits@[i as int] == 0);
                        assert(zeros_before(digits@, i as int));
                    }
                }
                if d != 0 {
                    leading = false;
                }
            } else if d != 7 {
                return false;
            }
            i = i + 1;
        }
        true
    }

    /// The cell with the given resolution, base cell and slots.
    pub(crate) fn assemble(resolution: u8, base_cell: u8, digits: [u8; 15]) -> (out: CellIndex)
        ensures
            out@ == (Path {
                resolution: resolution as int,
                base_cell: base_cell as int,
                digits: digits@,
            }),
    {
        CellIndex { resolution, base_cell, digits }
    }

    /// The cell's resolution as a number, without its validity.
    pub(crate) fn raw_resolution(&self) -> (r: u8)
        ensures
            r as int == self@.resolution,
    {
        self.resolution
    }

    /// The cell's base cell, without its validity.
    pub(crate) fn raw_base_cell(&self) -> (b: u8)
        ensures
            b as int == self@.base_cell,
    {
        self.base_cell
    }

    /// The cell's fifteen slots.
    pub(crate) fn raw_digits(&self) -> (d: [u8; 15])
        ensures
            d@ == self@.digits,
    {
        self.digits
    }

    /// Two cells with the same mathematical value are the same cell.
    pub proof fn lemma_view_injective(a: CellIndex, b: CellIndex)
        requires
            a@ == b@,
        ensures
            a == b,
    {
        assert(a.digits@ =~= b.digits@);
        assert(a.digits == b.digits);
    }

    /// The cell's resolution.
    pub fn resolution(self) -> (r: Resolution)
        requires
            self.wf(),
        ensures
            r.level() == self@.resolution,
    {
        Resolution::from_value(self.resolution).unwrap()
    }

    /// The number of the cell's base cell.
    pub fn base_cell(self) -> (b: u8)
        requires
            self.wf(),
        ensures
            b as int == self@.base_cell,
            b <= MAX_BASE_CELL,
    {
        self.base_cell
    }

    /// The direction taken at resolution `level` on the way from the base
    /// cell; none at resolution 0 and below the cell's own resolution.
    pub fn direction_at(self, level: Resolution) -> (d: Option<Direction>)
        requires
            self.wf(),
        ensures
            d.is_some() <==> 1 <= level.level() <= self@.resolution,
            d.is_some() ==> d.unwrap().digit() == self@.digits[level.level() - 1] as int,
    {
        let l: u8 = level.value();
        if l >= 1 && l <= self.resolution {
            assert(self@.digits[l - 1] <= 6);
            Direction::from_value(self.digits[(l - 1) as usize])
        } else {
            None
        }
    }

    /// Whether the cell is a pentagon.
    pub fn is_pentagon(self) -> (r: bool)
        requires
            self.wf(),
        ensures
            r == path_is_pentagon(self@),
    {
        base_is_pentagon(self.base_cell) && all_zero_before(&self.digits, self.resolution as usize)
    }

    /// The ancestor at resolution `target`: the same path cut after `target`
    /// digits. None where `target` is finer than the cell.
    pub fn parent(self, target: Resolution) -> (out: Option<CellIndex>)
        requires
            self.wf(),
        ensures
            out.is_some() <==> target.level() <= self@.resolution,
            out.is_some() ==> out.unwrap().wf() && out.unwrap()@ == (Path {
                resolution: target.level(),
                base_cell: self@.base_cell,
                digits: slots(self@.digits, target.level(), 7u8, target.level()),
            }),
    {
        let t: u8 = target.value();
        if t > self.resolution {
            return None;
        }
        let digits = make_slots(&self.digits, t as usize, 7u8, t as usize);
        let out = CellIndex { resolution: t, base_cell: self.base_cell, digits };
        proof {
            if is_pentagon_base(out@.base_cell) && leading_k(out@.digits, out@.resolution) {
                let k = choose|k: int|
                    0 <= k < out@.resolution && #[trigger] out@.digits[k] == 1 && zeros_before(
                        out@.digits,
                        k,
                    );
                assert(self@.digits[k] == 1);
                assert(zeros_before(self@.digits, k)) by {
                    assert forall|j: int| 0 <= j < k implies #[trigger] self@.digits[j] == 0 by {
                        assert(out@.digits[j] == 0);
                    }
                }
                assert(leading_k(self@.digits, self@.resolution));
            }
        }
        Some(out)
    }
}

} // verus!
