use crate::cell::{
    base_is_pentagon, is_pentagon_base, leading_k, path_is_pentagon, slots, valid_path,
    zeros_before, CellIndex, Path,
};
use crate::resolution::Resolution;
use crate::step::path_lt;
use vstd::prelude::*;

verus! {

/// 7 to the power `n`: the number of cells that descend from a hexagon `n`
/// resolutions below it.
pub open spec fn pow7(n: int) -> int
    decreases n,
{
    if n <= 0 {
        1
    } else {
        7 * pow7(n - 1)
    }
}

/// The number of cells that descend from a pentagon `n` resolutions below
/// it: those of its centre child, a pentagon, and of its five other
/// children, hexagons.
pub open spec fn pentagon_children(n: int) -> int
    decreases n,
{
    if n <= 0 {
        1
    } else {
        pentagon_children(n - 1) + 5 * pow7(n - 1)
    }
}

/// The number of cells that descend from a cell `n` resolutions below it.
pub open spec fn children_count(pentagon: bool, n: int) -> int {
    if pentagon {
        pentagon_children(n)
    } else {
        pow7(n)
    }
}

/// Whether the ancestor of `c` at resolution `k` is a pentagon.
pub open spec fn pentagon_at(c: Path, k: int) -> bool {
    is_pentagon_base(c.base_cell) && zeros_before(c.digits, k)
}

/// The number of cells at the resolution of `c` that descend from the
/// ancestor of `c` at resolution `k - 1` through a child that comes before
/// the one on the path of `c`.
pub open spec fn cells_before(c: Path, k: int) -> int {
    let d = c.digits[k - 1] as int;
    let depth = c.resolution - k;
    if pentagon_at(c, k - 1) {
        if d == 0 {
            0
        } else {
            pentagon_children(depth) + (d - 2) * pow7(depth)
        }
    } else {
        d * pow7(depth)
    }
}

/// The rank of `c` among the cells of its resolution that descend from its
/// ancestor at resolution `a`, in index order, counted from 0.
pub open spec fn position_of(c: Path, a: int) -> int
    decreases c.resolution - a,
{
    if a >= c.resolution {
        0
    } else {
        cells_before(c, a + 1) + position_of(c, a + 1)
    }
}

/// Whether `c` descends from `p` (or is `p`).
pub open spec fn descends_from(c: Path, p: Path) -> bool {
    &&& p.resolution <= c.resolution
    &&& c.base_cell == p.base_cell
    &&& forall|i: int| 0 <= i < p.resolution ==> #[trigger] c.digits[i] == p.digits[i]
}

/// The ancestor of `c` at resolution `a`.
pub open spec fn parent_path(c: Path, a: int) -> Path {
    Path { resolution: a, base_cell: c.base_cell, digits: slots(c.digits, a, 7u8, a) }
}

/// A cell has at least one descendant, and a pentagon has no more
/// descendants than a hexagon.
pub proof fn lemma_pow7_positive(n: int)
    ensures
        1 <= pow7(n),
        1 <= pentagon_children(n) <= pow7(n),
    decreases n,
{
    if n > 0 {
        lemma_pow7_positive(n - 1);
    }
}

/// Down to the finest resolution the number of descendants stays below
/// 7 to the power 15.
pub proof fn lemma_pow7_bound(n: int)
    requires
        0 <= n <= 15,
    ensures
        1 <= pentagon_children(n) <= pow7(n) <= 4747561509943,
    decreases 15 - n,
{
    lemma_pow7_positive(n);
    if n < 15 {
        lemma_pow7_bound(n + 1);
    } else {
        reveal_with_fuel(pow7, 17);
        assert(pow7(15) == 4747561509943);
    }
}

/// A product grows with its first factor.
proof fn lemma_scale(d: int, limit: int, p: int)
    requires
        0 <= d <= limit,
        0 <= p,
    ensures
        0 <= d * p <= limit * p,
{
    assert(0 <= d * p <= limit * p) by (nonlinear_arith)
        requires
            0 <= d <= limit,
            0 <= p,
    ;
}

/// The cells before a child and those under it are among the cells under its
/// parent.
pub proof fn lemma_cells_before_bound(c: Path, k: int)
    requires
        valid_path(c),
        1 <= k <= c.resolution,
    ensures
        0 <= cells_before(c, k),
        cells_before(c, k) + children_count(pentagon_at(c, k), c.resolution - k) <= children_count(
            pentagon_at(c, k - 1),
            c.resolution - k + 1,
        ),
{
    let d = c.digits[k - 1] as int;
    let depth = c.resolution - k;
    let p = pow7(depth);
    lemma_pow7_positive(depth);
    assert(c.digits[k - 1] <= 6);
    if pentagon_at(c, k - 1) {
        if d == 0 {
            assert(zeros_before(c.digits, k));
        } else {
            if d == 1 {
                assert(leading_k(c.digits, c.resolution));
            }
            assert(!zeros_before(c.digits, k));
            lemma_scale(d - 2, 4, p);
            assert((d - 2) * p + p <= 5 * p);
        }
    } else {
        assert(!pentagon_at(c, k)) by {
            if zeros_before(c.digits, k) {
                assert forall|j: int| 0 <= j < k - 1 implies #[trigger] c.digits[j] == 0 by {}
            }
        }
        lemma_scale(d, 6, p);
        assert(d * p + p <= 7 * p);
    }
}

/// A position is below the number of cells under the ancestor.
pub proof fn lemma_position_bound(c: Path, a: int)
    requires
        valid_path(c),
        0 <= a <= c.resolution,
    ensures
        0 <= position_of(c, a) < children_count(pentagon_at(c, a), c.resolution - a),
    decreases c.resolution - a,
{
    if a < c.resolution {
        lemma_position_bound(c, a + 1);
        lemma_cells_before_bound(c, a + 1);
    }
}

/// A number has one quotient and one remainder.
proof fn lemma_same_quotient(d1: int, r1: int, d2: int, r2: int, p: int)
    requires
        0 <= r1 < p,
        0 <= r2 < p,
        d1 * p + r1 == d2 * p + r2,
    ensures
        d1 == d2,
        r1 == r2,
{
    assert(d1 == d2) by (nonlinear_arith)
        requires
            0 <= r1 < p,
            0 <= r2 < p,
            d1 * p + r1 == d2 * p + r2,
    ;
}

/// Two cells under one ancestor that have the same position are the same
/// cell.
pub proof fn lemma_position_injective(c1: Path, c2: Path, a: int)
    requires
        valid_path(c1),
        valid_path(c2),
        c1.resolution == c2.resolution,
        c1.base_cell == c2.base_cell,
        0 <= a <= c1.resolution,
        forall|i: int| 0 <= i < a ==> #[trigger] c1.digits[i] == c2.digits[i],
        position_of(c1, a) == position_of(c2, a),
    ensures
        c1 == c2,
    decreases c1.resolution - a,
{
    if a >= c1.resolution {
        assert(c1.digits =~= c2.digits);
    } else {
        let depth = c1.resolution - a - 1;
        let p = pow7(depth);
        let pc = pentagon_children(depth);
        lemma_pow7_positive(depth);
        lemma_position_bound(c1, a + 1);
        lemma_position_bound(c2, a + 1);
        lemma_cells_before_bound(c1, a + 1);
        lemma_cells_before_bound(c2, a + 1);
        let d1 = c1.digits[a] as int;
        let d2 = c2.digits[a] as int;
        let r1 = position_of(c1, a + 1);
        let r2 = position_of(c2, a + 1);
        assert(c1.digits[a] <= 6 && c2.digits[a] <= 6);
        assert(zeros_before(c1.digits, a) == zeros_before(c2.digits, a)) by {
            if zeros_before(c1.digits, a) {
                assert forall|j: int| 0 <= j < a implies #[trigger] c2.digits[j] == 0 by {
                    assert(c1.digits[j] == 0);
                }
            }
            if zeros_before(c2.digits, a) {
                assert forall|j: int| 0 <= j < a implies #[trigger] c1.digits[j] == 0 by {
                    assert(c2.digits[j] == 0);
                }
            }
        }
        if pentagon_at(c1, a) {
            if d1 == 1 {
                assert(leading_k(c1.digits, c1.resolution));
            }
            if d2 == 1 {
                assert(leading_k(c2.digits, c2.resolution));
            }
            if d1 == 0 {
                assert(zeros_before(c1.digits, a + 1));
            } else {
                assert(!zeros_before(c1.digits, a + 1));
                lemma_scale(0, d1 - 2, p);
            }
            if d2 == 0 {
                assert(zeros_before(c2.digits, a + 1));
            } else {
                assert(!zeros_before(c2.digits, a + 1));
                lemma_scale(0, d2 - 2, p);
            }
            if d1 != 0 && d2 != 0 {
                lemma_same_quotient(d1 - 2, r1, d2 - 2, r2, p);
            }
            assert(d1 == d2);
        } else {
            assert(!pentagon_at(c1, a + 1)) by {
                if zeros_before(c1.digits, a + 1) {
                    assert forall|j: int| 0 <= j < a implies #[trigger] c1.digits[j] == 0 by {}
                }
            }
            assert(!pentagon_at(c2, a + 1)) by {
                if zeros_before(c2.digits, a + 1) {
                    assert forall|j: int| 0 <= j < a implies #[trigger] c2.digits[j] == 0 by {}
                }
            }
            lemma_same_quotient(d1, r1, d2, r2, p);
        }
        assert forall|i: int| 0 <= i < a + 1 implies #[trigger] c1.digits[i] == c2.digits[i] by {}
        lemma_position_injective(c1, c2, a + 1);
    }
}

/// Positions follow index order: of two cells under one ancestor, the one
/// that comes first in index order has the smaller position.
pub proof fn lemma_position_ordered(c1: Path, c2: Path, a: int)
    requires
        valid_path(c1),
        valid_path(c2),
        c1.resolution == c2.resolution,
        c1.base_cell == c2.base_cell,
        0 <= a <= c1.resolution,
        forall|i: int| 0 <= i < a ==> #[trigger] c1.digits[i] == c2.digits[i],
        path_lt(c1, c2),
    ensures
        position_of(c1, a) < position_of(c2, a),
    decreases c1.resolution - a,
{
    let k = choose|k: int|
        0 <= k < c1.resolution && #[trigger] c1.digits[k] < c2.digits[k] && forall|j: int|
            0 <= j < k ==> #[trigger] c1.digits[j] == c2.digits[j];
    if k < a {
        assert(c1.digits[k] == c2.digits[k]);
        assert(false);
    }
    let depth = c1.resolution - a - 1;
    let p = pow7(depth);
    lemma_pow7_positive(depth);
    lemma_position_bound(c1, a + 1);
    lemma_position_bound(c2, a + 1);
    lemma_cells_before_bound(c1, a + 1);
    lemma_cells_before_bound(c2, a + 1);
    let d1 = c1.digits[a] as int;
    let d2 = c2.digits[a] as int;
    assert(c1.digits[a] <= 6 && c2.digits[a] <= 6);
    assert(zeros_before(c1.digits, a) == zeros_before(c2.digits, a)) by {
        if zeros_before(c1.digits, a) {
            assert forall|j: int| 0 <= j < a implies #[trigger] c2.digits[j] == 0 by {
                assert(c1.digits[j] == 0);
            }
        }
        if zeros_before(c2.digits, a) {
            assert forall|j: int| 0 <= j < a implies #[trigger] c1.digits[j] == 0 by {
                assert(c2.digits[j] == 0);
            }
        }
    }
    if k > a {
        assert(c1.digits[a] == c2.digits[a]);
        assert forall|i: int| 0 <= i < a + 1 implies #[trigger] c1.digits[i] == c2.digits[i] by {}
        lemma_position_ordered(c1, c2, a + 1);
    } else {
        assert(d1 < d2);
        if pentagon_at(c1, a) {
            if d1 == 1 {
                assert(leading_k(c1.digits, c1.resolution));
            }
            if d2 == 1 {
                assert(leading_k(c2.digits, c2.resolution));
            }
            if d1 == 0 {
                assert(zeros_before(c1.digits, a + 1));
                lemma_scale(0, d2 - 2, p);
            } else {
                assert(!zeros_before(c1.digits, a + 1));
                lemma_scale(d1 - 1, d2 - 2, p);
                assert((d1 - 1) * p == (d1 - 2) * p + p) by (nonlinear_arith);
            }
        } else {
            assert(!pentagon_at(c1, a + 1)) by {
                if zeros_before(c1.digits, a + 1) {
                    assert forall|j: int| 0 <= j < a implies #[trigger] c1.digits[j] == 0 by {}
                }
            }
            lemma_scale(d1 + 1, d2, p);
            assert((d1 + 1) * p == d1 * p + p) by (nonlinear_arith);
        }
    }
}

/// The cell at the position of `c` under the ancestor of `c` is `c`: of the
/// descendants of that ancestor at the resolution of `c`, only `c` has its
/// position, and the position is below their number.
pub proof fn lemma_child_position_roundtrip(c: Path, a: int, found: Path)
    requires
        valid_path(c),
        0 <= a <= c.resolution,
        valid_path(found),
        found.resolution == c.resolution,
        descends_from(found, parent_path(c, a)),
        position_of(found, a) == position_of(c, a),
    ensures
        found == c,
        position_of(c, a) < children_count(path_is_pentagon(parent_path(c, a)), c.resolution - a),
{
    lemma_position_injective(found, c, a);
    lemma_position_bound(c, a);
    let p = parent_path(c, a);
    assert(zeros_before(p.digits, a) == zeros_before(c.digits, a)) by {
        if zeros_before(c.digits, a) {
            assert forall|j: int| 0 <= j < a implies #[trigger] p.digits[j] == 0 by {
                assert(c.digits[j] == 0);
            }
        }
        if zeros_before(p.digits, a) {
            assert forall|j: int| 0 <= j < a implies #[trigger] c.digits[j] == 0 by {
                assert(p.digits[j] == 0);
            }
        }
    }
}

/// 7 to the power `n`.
pub fn hexagon_children_count(n: u8) -> (out: u64)
    requires
        n <= 15,
    ensures
        out as int == pow7(n as int),
{
    let mut p: u64 = 1;
    let mut i: u8 = 0;
    while i < n
        invariant
            i <= n <= 15,
            p as int == pow7(i as int),
        decreases n - i,
    {
        proof {
            lemma_pow7_bound(i as int + 1);
        }
        p = p * 7;
        i = i + 1;
    }
    p
}

/// The number of cells under a pentagon, `n` resolutions below it.
pub fn pentagon_children_count(n: u8) -> (out: u64)
    requires
        n <= 15,
    ensures
        out as int == pentagon_children(n as int),
{
    let mut pc: u64 = 1;
    let mut p: u64 = 1;
    let mut i: u8 = 0;
    while i < n
        invariant
            i <= n <= 15,
            p as int == pow7(i as int),
            pc as int == pentagon_children(i as int),
        decreases n - i,
    {
        proof {
            lemma_pow7_bound(i as int);
            lemma_pow7_bound(i as int + 1);
        }
        pc = pc + 5 * p;
        p = p * 7;
        i = i + 1;
    }
    pc
}

/// Writes into the slots from `a` on the path to the cell at `position`
/// under the cell that the first `a` slots give.
fn descend(
    base: u8,
    digits: [u8; 15],
    a: u8,
    target: u8,
    position: u64,
    pentagon: bool,
) -> (out: [u8; 15])
    requires
        a <= target <= 15,
        base <= 121,
        pentagon == (is_pentagon_base(base as int) && zeros_before(digits@, a as int)),
        (position as int) < children_count(pentagon, target - a),
    ensures
        forall|i: int| 0 <= i < a ==> #[trigger] out@[i] == digits@[i],
        forall|i: int| a <= i < target ==> #[trigger] out@[i] <= 6,
        forall|i: int| target <= i < 15 ==> #[trigger] out@[i] == 7,
        position_of(
            Path { resolution: target as int, base_cell: base as int, digits: out@ },
            a as int,
        ) == position as int,
        is_pentagon_base(base as int) && !leading_k(digits@, a as int) ==> !leading_k(
            out@,
            target as int,
        ),
    decreases target - a,
{
    if a == target {
        let out = crate::cell::make_slots(&digits, a as usize, 7u8, a as usize);
        proof {
            if is_pentagon_base(base as int) && leading_k(out@, target as int) {
                let k = choose|k: int|
                    0 <= k < target && #[trigger] out@[k] == 1 && zeros_before(out@, k);
                assert(digits@[k] == 1);
                assert forall|j: int| 0 <= j < k implies #[trigger] digits@[j] == 0 by {
                    assert(out@[j] == 0);
                }
                assert(leading_k(digits@, a as int));
            }
        }
        return out;
    }
    let depth: u8 = target - a - 1;
    let p: u64 = hexagon_children_count(depth);
    let pc: u64 = pentagon_children_count(depth);
    proof {
        lemma_pow7_bound(depth as int);
        lemma_pow7_bound(depth as int + 1);
    }
    let mut next = digits;
    let d: u8;
    let rest: u64;
    let below: bool;
    if pentagon {
        if position < pc {
            d = 0;
            rest = position;
            below = true;
        } else {
            let q: u64 = (position - pc) / p;
            proof {
                assert(q < 5 && (position - pc) % (p as int) < p && q * p + (position - pc) % (
                p as int) == position - pc) by (nonlinear_arith)
                    requires
                        q as int == (position - pc) / (p as int),
                        0 <= position - pc < 5 * p,
                        p > 0,
                ;
            }
            d = 2 + q as u8;
            rest = (position - pc) % p;
            below = false;
        }
    } else {
        let q: u64 = position / p;
        proof {
            assert(q < 7 && position % p < p && q * p + position % p == position)
                by (nonlinear_arith)
                requires
                    q == position / p,
                    0 <= position < 7 * p,
                    p > 0,
            ;
        }
        d = q as u8;
        rest = position % p;
        below = false;
    }
    next[a as usize] = d;
    proof {
        assert(zeros_before(next@, a as int) == zeros_before(digits@, a as int)) by {
            if zeros_before(digits@, a as int) {
                assert forall|j: int| 0 <= j < a implies #[trigger] next@[j] == 0 by {
                    assert(digits@[j] == 0);
                }
            }
            if zeros_before(next@, a as int) {
                assert forall|j: int| 0 <= j < a implies #[trigger] digits@[j] == 0 by {
                    assert(next@[j] == 0);
                }
            }
        }
        if zeros_before(next@, a as int + 1) {
            assert(next@[a as int] == 0);
            assert forall|j: int| 0 <= j < a implies #[trigger] next@[j] == 0 by {}
        }
        if d == 0 && zeros_before(next@, a as int) {
            assert forall|j: int| 0 <= j < a + 1 implies #[trigger] next@[j] == 0 by {
                if j < a {
                    assert(next@[j] == 0);
                }
            }
        }
        if is_pentagon_base(base as int) && !leading_k(digits@, a as int) && leading_k(
            next@,
            a as int + 1,
        ) {
            let k = choose|k: int|
                0 <= k < a + 1 && #[trigger] next@[k] == 1 && zeros_before(next@, k);
            if k < a {
                assert(digits@[k] == 1);
                assert forall|j: int| 0 <= j < k implies #[trigger] digits@[j] == 0 by {
                    assert(next@[j] == 0);
                }
                assert(leading_k(digits@, a as int));
            }
            assert(false);
        }
    }
    let out = descend(base, next, a + 1, target, rest, below);
    proof {
        let c = Path { resolution: target as int, base_cell: base as int, digits: out@ };
        assert(out@[a as int] == next@[a as int]);
        assert(zeros_before(out@, a as int) == zeros_before(digits@, a as int)) by {
            if zeros_before(digits@, a as int) {
                assert forall|j: int| 0 <= j < a implies #[trigger] out@[j] == 0 by {
                    assert(next@[j] == 0);
                    assert(digits@[j] == 0);
                }
            }
            if zeros_before(out@, a as int) {
                assert forall|j: int| 0 <= j < a implies #[trigger] digits@[j] == 0 by {
                    assert(out@[j] == 0);
                    assert(next@[j] == 0);
                }
            }
        }
        assert(pentagon_at(c, a as int) == pentagon);
        assert(cells_before(c, a as int + 1) + rest == position);
        assert forall|i: int| 0 <= i < a implies #[trigger] out@[i] == digits@[i] by {
            assert(out@[i] == next@[i]);
        }
    }
    out
}

impl CellIndex {
    /// The number of cells that descend from this one at resolution
    /// `target`; 0 where `target` is coarser than the cell.
    pub fn children_count(self, target: Resolution) -> (out: u64)
        requires
            self.wf(),
        ensures
            out as int == if target.level() < self@.resolution {
                0
            } else {
                children_count(path_is_pentagon(self@), target.level() - self@.resolution)
            },
    {
        let t: u8 = target.value();
        let r: u8 = self.raw_resolution();
        if t < r {
            0
        } else if self.is_pentagon() {
            pentagon_children_count(t - r)
        } else {
            hexagon_children_count(t - r)
        }
    }

    /// The position of the cell among the cells of its resolution that
    /// descend from its ancestor at resolution `ancestor`, in index order.
    /// None where `ancestor` is finer than the cell.
    pub fn child_position(self, ancestor: Resolution) -> (out: Option<u64>)
        requires
            self.wf(),
        ensures
            out.is_some() <==> ancestor.level() <= self@.resolution,
            out.is_some() ==> out.unwrap() as int == position_of(self@, ancestor.level()),
            out.is_some() ==> (out.unwrap() as int) < children_count(
                pentagon_at(self@, ancestor.level()),
                self@.resolution - ancestor.level(),
            ),
    {
        let a: usize = ancestor.value() as usize;
        let r: usize = self.raw_resolution() as usize;
        if a > r {
            return None;
        }
        let digits: [u8; 15] = self.raw_digits();
        let pentagon_base: bool = base_is_pentagon(self.raw_base_cell());
        let mut z: usize = 0;
        while z < r && digits[z] == 0
            invariant
                z <= r <= 15,
                digits@.len() == 15,
                zeros_before(digits@, z as int),
            decreases r - z,
        {
            z = z + 1;
        }
        let mut k: usize = r;
        let mut acc: u64 = 0;
        let mut p: u64 = 1;
        let mut pc: u64 = 1;
        while k > a
            invariant
                a <= k <= r <= 15,
                z <= r,
                self.wf(),
                digits@ == self@.digits,
                r as int == self@.resolution,
                pentagon_base == is_pentagon_base(self@.base_cell),
                zeros_before(digits@, z as int),
                z < r ==> digits@[z as int] != 0,
                p as int == pow7(r - k),
                pc as int == pentagon_children(r - k),
                acc as int == position_of(self@, k as int),
            decreases k,
        {
            let d: u8 = digits[k - 1];
            let pentagon_here: bool = pentagon_base && k - 1 <= z;
            proof {
                lemma_pow7_bound(r - k);
                lemma_pow7_bound(r - k + 1);
                lemma_position_bound(self@, k as int);
                lemma_position_bound(self@, k as int - 1);
                lemma_cells_before_bound(self@, k as int);
                assert(digits@[k - 1] <= 6);
                assert(zeros_before(digits@, k - 1) == (k - 1 <= z)) by {
                    if k - 1 <= z {
                        assert forall|j: int| 0 <= j < k - 1 implies #[trigger] digits@[j] == 0 by {}
                    }
                }
                if pentagon_here && d == 1 {
                    assert(leading_k(digits@, r as int));
                }
                lemma_scale(d as int, 6, p as int);
                if d >= 2 {
                    lemma_scale(d as int - 2, 4, p as int);
                }
            }
            let before: u64 = if pentagon_here {
                if d == 0 {
                    0
                } else {
                    pc + (d - 2) as u64 * p
                }
            } else {
                d as u64 * p
            };
            acc = acc + before;
            pc = pc + 5 * p;
            p = p * 7;
            k = k - 1;
        }
        proof {
            lemma_position_bound(self@, a as int);
        }
        Some(acc)
    }

    /// The descendant at resolution `target` that has the given position
    /// among the descendants of this cell at that resolution, in index
    /// order. None where `target` is coarser than the cell or the position is
    /// not below the number of those descendants.
    pub fn child_at(self, position: u64, target: Resolution) -> (out: Option<CellIndex>)
        requires
            self.wf(),
        ensures
            out.is_some() <==> self@.resolution <= target.level() && (position as int)
                < children_count(path_is_pentagon(self@), target.level() - self@.resolution),
            out.is_some() ==> {
                &&& out.unwrap().wf()
                &&& out.unwrap()@.resolution == target.level()
                &&& descends_from(out.unwrap()@, self@)
                &&& position_of(out.unwrap()@, self@.resolution) == position as int
            },
    {
        let t: u8 = target.value();
        let r: u8 = self.raw_resolution();
        if t < r {
            return None;
        }
        let pentagon: bool = self.is_pentagon();
        let count: u64 = if pentagon {
            pentagon_children_count(t - r)
        } else {
            hexagon_children_count(t - r)
        };
        if position >= count {
            return None;
        }
        let base: u8 = self.raw_base_cell();
        let src: [u8; 15] = self.raw_digits();
        let digits = descend(base, src, r, t, position, pentagon);
        let out = CellIndex::assemble(t, base, digits);
        proof {
            assert forall|i: int| 0 <= i < t implies #[trigger] out@.digits[i] <= 6 by {
                if i < r {
                    assert(src@[i] <= 6);
                }
            }
        }
        Some(out)
    }

    /// A cell is found again from its ancestor and its position: where
    /// `found` is what `child_at` gives for the ancestor of `c` at resolution
    /// `a`, the position of `c` under it and the resolution of `c`, `found`
    /// is `c`.
    pub proof fn lemma_child_at_child_position(c: CellIndex, a: int, found: CellIndex)
        requires
            c.wf(),
            0 <= a <= c@.resolution,
            found.wf(),
            found@.resolution == c@.resolution,
            descends_from(found@, parent_path(c@, a)),
            position_of(found@, a) == position_of(c@, a),
        ensures
            found == c,
            position_of(c@, a) < children_count(
                path_is_pentagon(parent_path(c@, a)),
                c@.resolution - a,
            ),
    {
        lemma_child_position_roundtrip(c@, a, found@);
        CellIndex::lemma_view_injective(found, c);
    }
}

} // verus!
