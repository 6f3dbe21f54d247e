use crate::cell::{
    all_zero_before, base_is_pentagon, is_pentagon_base, leading_k, make_slots, slots, valid_path,
    zeros_before, CellIndex, Path,
};
use crate::raw::{encode, horner, lemma_horner_order, lemma_horner_prefix};
use crate::resolution::Resolution;
use vstd::prelude::*;

verus! {

/// The greatest position below `r` whose digit differs from `v`, or -1 where
/// the first `r` digits all equal `v`.
pub open spec fn pivot(digits: Seq<u8>, r: int, v: u8) -> int
    decreases r,
{
    if r <= 0 {
        -1
    } else if digits[r - 1] != v {
        r - 1
    } else {
        pivot(digits, r - 1, v)
    }
}

/// What `pivot` finds: a position whose digit differs from `v`, followed by
/// digits equal to `v` only.
pub proof fn lemma_pivot(digits: Seq<u8>, r: int, v: u8)
    requires
        0 <= r,
    ensures
        -1 <= pivot(digits, r, v) < r,
        pivot(digits, r, v) >= 0 ==> digits[pivot(digits, r, v)] != v,
        forall|i: int| pivot(digits, r, v) < i < r ==> #[trigger] digits[i] == v,
    decreases r,
{
    if r > 0 && digits[r - 1] == v {
        lemma_pivot(digits, r - 1, v);
    }
}

/// A position with the properties of the pivot is the pivot.
pub proof fn lemma_pivot_unique(digits: Seq<u8>, r: int, v: u8, p: int)
    requires
        -1 <= p < r,
        p >= 0 ==> digits[p] != v,
        forall|i: int| p < i < r ==> #[trigger] digits[i] == v,
    ensures
        pivot(digits, r, v) == p,
    decreases r,
{
    if r > 0 && digits[r - 1] == v {
        lemma_pivot_unique(digits, r - 1, v, p);
    }
}

/// The digit that follows `d` at position `p`: the next one, but 2 where 1
/// would stand as the first non-zero digit under a pentagon.
pub open spec fn bump_up(c: Path, p: int) -> u8 {
    if is_pentagon_base(c.base_cell) && c.digits[p] == 0 && zeros_before(c.digits, p) {
        2u8
    } else {
        (c.digits[p] + 1) as u8
    }
}

/// The digit that precedes `d` at position `p`: the one before, but 0 where
/// 1 would stand as the first non-zero digit under a pentagon.
pub open spec fn bump_down(c: Path, p: int) -> u8 {
    if is_pentagon_base(c.base_cell) && c.digits[p] == 2 && zeros_before(c.digits, p) {
        0u8
    } else {
        (c.digits[p] - 1) as u8
    }
}

/// The next cell of the same resolution in index order. The deepest digit
/// below 6 goes up by one (past the direction a pentagon lacks) and the
/// digits after it fall back to 0; where every digit is 6 the base cell goes
/// up by one, and after base cell 121 there is no next cell.
pub open spec fn succ_path(c: Path) -> Option<Path> {
    let p = pivot(c.digits, c.resolution, 6);
    if p < 0 {
        if c.base_cell >= 121 {
            None
        } else {
            Some(
                Path {
                    resolution: c.resolution,
                    base_cell: c.base_cell + 1,
                    digits: slots(c.digits, 0, 0u8, c.resolution),
                },
            )
        }
    } else {
        Some(
            Path {
                resolution: c.resolution,
                base_cell: c.base_cell,
                digits: slots(c.digits, p, 0u8, c.resolution).update(p, bump_up(c, p)),
            },
        )
    }
}

/// The previous cell of the same resolution in index order: the mirror of
/// `succ_path`, with 6 and 0 exchanged and the base cell going down.
pub open spec fn pred_path(c: Path) -> Option<Path> {
    let p = pivot(c.digits, c.resolution, 0);
    if p < 0 {
        if c.base_cell <= 0 {
            None
        } else {
            Some(
                Path {
                    resolution: c.resolution,
                    base_cell: c.base_cell - 1,
                    digits: slots(c.digits, 0, 6u8, c.resolution),
                },
            )
        }
    } else {
        Some(
            Path {
                resolution: c.resolution,
                base_cell: c.base_cell,
                digits: slots(c.digits, p, 6u8, c.resolution).update(p, bump_down(c, p)),
            },
        )
    }
}

/// The first cell of a resolution: base cell 0, every digit 0.
pub open spec fn first_path(res: int) -> Path {
    Path { resolution: res, base_cell: 0, digits: slots(Seq::<u8>::empty(), 0, 0u8, res) }
}

/// The last cell of a resolution: base cell 121, every digit 6.
pub open spec fn last_path(res: int) -> Path {
    Path { resolution: res, base_cell: 121, digits: slots(Seq::<u8>::empty(), 0, 6u8, res) }
}

/// The successor of a valid cell is a valid cell.
pub proof fn lemma_succ_valid(c: Path)
    requires
        valid_path(c),
        succ_path(c).is_some(),
    ensures
        valid_path(succ_path(c).unwrap()),
{
    let n = succ_path(c).unwrap();
    let p = pivot(c.digits, c.resolution, 6);
    lemma_pivot(c.digits, c.resolution, 6);
    if is_pentagon_base(n.base_cell) && leading_k(n.digits, n.resolution) {
        let k = choose|k: int|
            0 <= k < n.resolution && #[trigger] n.digits[k] == 1 && zeros_before(n.digits, k);
        if p >= 0 {
            assert(k <= p);
            assert(zeros_before(c.digits, k)) by {
                assert forall|j: int| 0 <= j < k implies #[trigger] c.digits[j] == 0 by {
                    assert(n.digits[j] == 0);
                }
            }
            if k < p {
                assert(c.digits[k] == 1);
                assert(leading_k(c.digits, c.resolution));
            }
        }
        assert(false);
    }
}

/// The predecessor of a valid cell is a valid cell.
pub proof fn lemma_pred_valid(c: Path)
    requires
        valid_path(c),
        pred_path(c).is_some(),
    ensures
        valid_path(pred_path(c).unwrap()),
{
    let n = pred_path(c).unwrap();
    let p = pivot(c.digits, c.resolution, 0);
    lemma_pivot(c.digits, c.resolution, 0);
    if is_pentagon_base(n.base_cell) && leading_k(n.digits, n.resolution) {
        let k = choose|k: int|
            0 <= k < n.resolution && #[trigger] n.digits[k] == 1 && zeros_before(n.digits, k);
        if p >= 0 {
            assert(zeros_before(c.digits, if k < p { k } else { p })) by {
                assert forall|j: int| 0 <= j < (if k < p { k } else { p }) implies #[trigger] c.digits[j] == 0 by {
                    assert(n.digits[j] == 0);
                }
            }
            if k < p {
                assert(c.digits[k] == 1);
                assert(leading_k(c.digits, c.resolution));
            } else if k == p {
                assert(c.digits[p] == 2);
            } else {
                assert(n.digits[k] == 6);
            }
        } else {
            assert(n.digits[k] == 6);
        }
        assert(false);
    }
}

/// Index order among the cells of one resolution: by base cell, then by the
/// first digit in which the two paths differ.
pub open spec fn path_lt(a: Path, b: Path) -> bool {
    a.base_cell < b.base_cell || (a.base_cell == b.base_cell && exists|k: int|
        0 <= k < a.resolution && #[trigger] a.digits[k] < b.digits[k] && forall|j: int|
            0 <= j < k ==> #[trigger] a.digits[j] == b.digits[j])
}

/// The successor is the next valid cell in index order: it comes after the
/// cell, and no valid cell of the resolution lies between the two.
pub proof fn lemma_succ_is_next(c: Path, x: Path)
    requires
        valid_path(c),
        valid_path(x),
        x.resolution == c.resolution,
        succ_path(c).is_some(),
    ensures
        path_lt(c, succ_path(c).unwrap()),
        !(path_lt(c, x) && path_lt(x, succ_path(c).unwrap())),
{
    let n = succ_path(c).unwrap();
    let p = pivot(c.digits, c.resolution, 6);
    lemma_pivot(c.digits, c.resolution, 6);
    if p >= 0 {
        assert(c.digits[p] <= 6);
        assert(c.digits[p] < n.digits[p]);
        assert forall|j: int| 0 <= j < p implies #[trigger] c.digits[j] == n.digits[j] by {}
        assert(path_lt(c, n));
    }
    if path_lt(c, x) && path_lt(x, n) {
        if p < 0 {
            if x.base_cell == c.base_cell {
                let k1 = choose|k: int|
                    0 <= k < c.resolution && #[trigger] c.digits[k] < x.digits[k] && forall|j: int|
                        0 <= j < k ==> #[trigger] c.digits[j] == x.digits[j];
                assert(c.digits[k1] == 6);
                assert(x.digits[k1] <= 6);
                assert(false);
            } else {
                assert(x.base_cell == n.base_cell);
                let k2 = choose|k: int|
                    0 <= k < x.resolution && #[trigger] x.digits[k] < n.digits[k] && forall|j: int|
                        0 <= j < k ==> #[trigger] x.digits[j] == n.digits[j];
                assert(n.digits[k2] == 0);
                assert(false);
            }
        } else {
            assert(x.base_cell == c.base_cell);
            let k1 = choose|k: int|
                0 <= k < c.resolution && #[trigger] c.digits[k] < x.digits[k] && forall|j: int|
                    0 <= j < k ==> #[trigger] c.digits[j] == x.digits[j];
            let k2 = choose|k: int|
                0 <= k < x.resolution && #[trigger] x.digits[k] < n.digits[k] && forall|j: int|
                    0 <= j < k ==> #[trigger] x.digits[j] == n.digits[j];
            assert(x.digits[k1] <= 6);
            if k1 > p {
                assert(c.digits[k1] == 6);
                assert(false);
            } else if k1 < p {
                assert(n.digits[k1] == c.digits[k1]);
                if k2 < k1 {
                    assert(c.digits[k2] == x.digits[k2]);
                    assert(n.digits[k2] == c.digits[k2]);
                } else if k2 > k1 {
                    assert(x.digits[k1] == n.digits[k1]);
                }
                assert(false);
            } else {
                if k2 < p {
                    assert(c.digits[k2] == x.digits[k2]);
                    assert(n.digits[k2] == c.digits[k2]);
                    assert(false);
                } else if k2 > p {
                    assert(x.digits[p] == n.digits[p]);
                    assert(n.digits[k2] == 0);
                    assert(false);
                } else {
                    assert(n.digits[p] == 2 && c.digits[p] == 0 && x.digits[p] == 1);
                    assert(zeros_before(x.digits, p)) by {
                        assert forall|j: int| 0 <= j < p implies #[trigger] x.digits[j] == 0 by {
                            assert(c.digits[j] == x.digits[j]);
                            assert(c.digits[j] == 0);
                        }
                    }
                    assert(leading_k(x.digits, x.resolution));
                    assert(false);
                }
            }
        }
    }
}

/// The predecessor is the previous valid cell in index order: it comes
/// before the cell, and no valid cell of the resolution lies between the two.
pub proof fn lemma_pred_is_previous(c: Path, x: Path)
    requires
        valid_path(c),
        valid_path(x),
        x.resolution == c.resolution,
        pred_path(c).is_some(),
    ensures
        path_lt(pred_path(c).unwrap(), c),
        !(path_lt(pred_path(c).unwrap(), x) && path_lt(x, c)),
{
    let b = pred_path(c).unwrap();
    lemma_pred_valid(c);
    lemma_pred_then_succ(c);
    lemma_succ_is_next(b, x);
}

/// Index order is the order of the 64-bit indexes.
pub proof fn lemma_order_is_numeric(a: Path, b: Path)
    requires
        valid_path(a),
        valid_path(b),
        a.resolution == b.resolution,
        path_lt(a, b),
    ensures
        encode(a) < encode(b),
{
    let ha = (8 * 16 + a.resolution) * 128 + a.base_cell;
    let hb = (8 * 16 + b.resolution) * 128 + b.base_cell;
    assert forall|i: int| 0 <= i < 15 implies #[trigger] a.digits[i] <= 7 by {
        if i < a.resolution {
            assert(a.digits[i] <= 6);
        } else {
            assert(a.digits[i] == 7);
        }
    }
    assert forall|i: int| 0 <= i < 15 implies #[trigger] b.digits[i] <= 7 by {
        if i < b.resolution {
            assert(b.digits[i] <= 6);
        } else {
            assert(b.digits[i] == 7);
        }
    }
    if a.base_cell < b.base_cell {
        assert(horner(ha, a.digits, 0) < horner(hb, b.digits, 0));
        lemma_horner_order(ha, a.digits, hb, b.digits, 0, 15);
    } else {
        let k = choose|k: int|
            0 <= k < a.resolution && #[trigger] a.digits[k] < b.digits[k] && forall|j: int|
                0 <= j < k ==> #[trigger] a.digits[j] == b.digits[j];
        lemma_horner_prefix(ha, a.digits, b.digits, k);
        assert(horner(ha, a.digits, k + 1) < horner(hb, b.digits, k + 1));
        lemma_horner_order(ha, a.digits, hb, b.digits, k + 1, 15);
    }
}

/// A cell without a successor is the last cell of its resolution, and a
/// cell without a predecessor is the first.
pub proof fn lemma_ends_only(c: Path)
    requires
        valid_path(c),
    ensures
        succ_path(c).is_none() ==> c == last_path(c.resolution),
        pred_path(c).is_none() ==> c == first_path(c.resolution),
{
    lemma_pivot(c.digits, c.resolution, 6);
    lemma_pivot(c.digits, c.resolution, 0);
    if succ_path(c).is_none() {
        assert(c.digits =~= last_path(c.resolution).digits);
    }
    if pred_path(c).is_none() {
        assert(c.digits =~= first_path(c.resolution).digits);
    }
}

/// Stepping forward and then back returns to the same cell.
pub proof fn lemma_succ_then_pred(c: Path)
    requires
        valid_path(c),
        succ_path(c).is_some(),
    ensures
        pred_path(succ_path(c).unwrap()) == Some(c),
{
    let n = succ_path(c).unwrap();
    let p = pivot(c.digits, c.resolution, 6);
    lemma_pivot(c.digits, c.resolution, 6);
    lemma_pivot_unique(n.digits, n.resolution, 0, p);
    let b = pred_path(n).unwrap();
    if p >= 0 {
        assert(zeros_before(n.digits, p) == zeros_before(c.digits, p)) by {
            if zeros_before(c.digits, p) {
                assert forall|j: int| 0 <= j < p implies #[trigger] n.digits[j] == 0 by {
                    assert(c.digits[j] == 0);
                }
            }
            if zeros_before(n.digits, p) {
                assert forall|j: int| 0 <= j < p implies #[trigger] c.digits[j] == 0 by {
                    assert(n.digits[j] == 0);
                }
            }
        }
        if is_pentagon_base(c.base_cell) && zeros_before(c.digits, p) && c.digits[p] == 1 {
            assert(leading_k(c.digits, c.resolution));
        }
        assert(b.digits[p] == c.digits[p]);
    }
    assert(b.digits =~= c.digits);
}

/// Stepping back and then forward returns to the same cell.
pub proof fn lemma_pred_then_succ(c: Path)
    requires
        valid_path(c),
        pred_path(c).is_some(),
    ensures
        succ_path(pred_path(c).unwrap()) == Some(c),
{
    let n = pred_path(c).unwrap();
    let p = pivot(c.digits, c.resolution, 0);
    lemma_pivot(c.digits, c.resolution, 0);
    lemma_pivot_unique(n.digits, n.resolution, 6, p);
    let b = succ_path(n).unwrap();
    if p >= 0 {
        assert(zeros_before(n.digits, p) == zeros_before(c.digits, p)) by {
            if zeros_before(c.digits, p) {
                assert forall|j: int| 0 <= j < p implies #[trigger] n.digits[j] == 0 by {
                    assert(c.digits[j] == 0);
                }
            }
            if zeros_before(n.digits, p) {
                assert forall|j: int| 0 <= j < p implies #[trigger] c.digits[j] == 0 by {
                    assert(n.digits[j] == 0);
                }
            }
        }
        if is_pentagon_base(c.base_cell) && zeros_before(c.digits, p) && c.digits[p] == 1 {
            assert(leading_k(c.digits, c.resolution));
        }
        assert(b.digits[p] == c.digits[p]);
    }
    assert(b.digits =~= c.digits);
}

/// Nothing precedes the first cell of a resolution, and nothing follows the
/// last one.
pub proof fn lemma_ends(res: int)
    requires
        0 <= res <= 15,
    ensures
        valid_path(first_path(res)),
        valid_path(last_path(res)),
        pred_path(first_path(res)).is_none(),
        succ_path(last_path(res)).is_none(),
{
    lemma_pivot_unique(first_path(res).digits, res, 0, -1);
    lemma_pivot_unique(last_path(res).digits, res, 6, -1);
}

impl CellIndex {
    /// The first cell of `resolution` in index order.
    pub fn first(resolution: Resolution) -> (out: CellIndex)
        ensures
            out.wf(),
            out@ == first_path(resolution.level()),
            pred_path(out@).is_none(),
    {
        let r: u8 = resolution.value();
        let blank: [u8; 15] = [7u8; 15];
        let digits = make_slots(&blank, 0, 0u8, r as usize);
        proof {
            lemma_ends(r as int);
            assert(digits@ =~= first_path(r as int).digits);
        }
        CellIndex::assemble(r, 0, digits)
    }

    /// The last cell of `resolution` in index order.
    pub fn last(resolution: Resolution) -> (out: CellIndex)
        ensures
            out.wf(),
            out@ == last_path(resolution.level()),
            succ_path(out@).is_none(),
    {
        let r: u8 = resolution.value();
        let blank: [u8; 15] = [7u8; 15];
        let digits = make_slots(&blank, 0, 6u8, r as usize);
        proof {
            lemma_ends(r as int);
            assert(digits@ =~= last_path(r as int).digits);
        }
        CellIndex::assemble(r, 121, digits)
    }

    /// The next cell of the same resolution in index order, none after the
    /// last one.
    pub fn succ(self) -> (out: Option<CellIndex>)
        requires
            self.wf(),
        ensures
            out.is_some() <==> succ_path(self@).is_some(),
            out.is_some() ==> out.unwrap().wf() && out.unwrap()@ == succ_path(self@).unwrap(),
            out.is_some() ==> encode(self@) < encode(out.unwrap()@),
            out.is_none() ==> self@ == last_path(self@.resolution),
    {
        let r: usize = self.raw_resolution() as usize;
        let src: [u8; 15] = self.raw_digits();
        let base: u8 = self.raw_base_cell();
        let mut i: usize = r;
        while i > 0 && src[i - 1] == 6
            invariant
                i <= r <= 15,
                src@.len() == 15,
                pivot(src@, r as int, 6) == pivot(src@, i as int, 6),
            decreases i,
        {
            i = i - 1;
        }
        proof {
            lemma_pivot(src@, r as int, 6);
            lemma_ends_only(self@);
            if succ_path(self@).is_some() {
                lemma_succ_valid(self@);
                lemma_succ_is_next(self@, self@);
                lemma_order_is_numeric(self@, succ_path(self@).unwrap());
            }
        }
        if i == 0 {
            if base >= 121 {
                return None;
            }
            let digits = make_slots(&src, 0, 0u8, r);
            return Some(CellIndex::assemble(r as u8, base + 1, digits));
        }
        let p: usize = i - 1;
        let d: u8 = src[p];
        let skip: bool = base_is_pentagon(base) && d == 0 && all_zero_before(&src, p);
        let mut digits = make_slots(&src, p, 0u8, r);
        if skip {
            digits[p] = 2;
        } else {
            digits[p] = d + 1;
        }
        Some(CellIndex::assemble(r as u8, base, digits))
    }

    /// The previous cell of the same resolution in index order, none before
    /// the first one.
    pub fn pred(self) -> (out: Option<CellIndex>)
        requires
            self.wf(),
        ensures
            out.is_some() <==> pred_path(self@).is_some(),
            out.is_some() ==> out.unwrap().wf() && out.unwrap()@ == pred_path(self@).unwrap(),
            out.is_some() ==> encode(out.unwrap()@) < encode(self@),
            out.is_none() ==> self@ == first_path(self@.resolution),
    {
        let r: usize = self.raw_resolution() as usize;
        let src: [u8; 15] = self.raw_digits();
        let base: u8 = self.raw_base_cell();
        let mut i: usize = r;
        while i > 0 && src[i - 1] == 0
            invariant
                i <= r <= 15,
                src@.len() == 15,
                pivot(src@, r as int, 0) == pivot(src@, i as int, 0),
            decreases i,
        {
            i = i - 1;
        }
        proof {
            lemma_pivot(src@, r as int, 0);
            lemma_ends_only(self@);
            if pred_path(self@).is_some() {
                lemma_pred_valid(self@);
                lemma_pred_is_previous(self@, self@);
                lemma_order_is_numeric(pred_path(self@).unwrap(), self@);
            }
        }
        if i == 0 {
            if base == 0 {
                return None;
            }
            let digits = make_slots(&src, 0, 6u8, r);
            return Some(CellIndex::assemble(r as u8, base - 1, digits));
        }
        let p: usize = i - 1;
        let d: u8 = src[p];
        let skip: bool = base_is_pentagon(base) && d == 2 && all_zero_before(&src, p);
        let mut digits = make_slots(&src, p, 6u8, r);
        if skip {
            digits[p] = 0;
        } else {
            digits[p] = d - 1;
        }
        Some(CellIndex::assemble(r as u8, base, digits))
    }

    /// A cell that is the predecessor of the successor of `c` is `c`.
    pub proof fn lemma_succ_pred_roundtrip(c: CellIndex, next: CellIndex, back: CellIndex)
        requires
            c.wf(),
            succ_path(c@) == Some(next@),
            pred_path(next@) == Some(back@),
        ensures
            back == c,
    {
        lemma_succ_then_pred(c@);
        CellIndex::lemma_view_injective(back, c);
    }

    /// `succ` and `pred` undo each other: the predecessor of a cell's
    /// successor, and the successor of its predecessor, is the cell itself.
    pub proof fn lemma_succ_pred_inverse(c: CellIndex)
        requires
            c.wf(),
        ensures
            succ_path(c@).is_some() ==> pred_path(succ_path(c@).unwrap()) == Some(c@),
            pred_path(c@).is_some() ==> succ_path(pred_path(c@).unwrap()) == Some(c@),
    {
        if succ_path(c@).is_some() {
            lemma_succ_then_pred(c@);
        }
        if pred_path(c@).is_some() {
            lemma_pred_then_succ(c@);
        }
    }
}

} // verus!

