use crate::cell::CellIndex;
use crate::raw::encode;
use vstd::prelude::*;

verus! {

/// Equal-resolution operands were required.
#[derive(Clone, Copy, Debug, PartialEq, Eq, Structural)]
pub struct ResolutionMismatch {
}

/// Whether `b` shares an edge with `a`, where `ring` holds the cells that
/// share an edge with `a`: an error where the resolutions differ, and no
/// cell is its own neighbor.
pub open spec fn neighbor_result(a: CellIndex, b: CellIndex, ring: Seq<CellIndex>) -> Result<
    bool,
    ResolutionMismatch,
> {
    if a@.resolution != b@.resolution {
        Err(ResolutionMismatch {  })
    } else {
        Ok(a != b && ring.contains(b))
    }
}

/// Being neighbors is symmetric: where the cells around `a` hold `b` exactly
/// when the cells around `b` hold `a`, asking either way gives the same
/// answer; and cells of two resolutions give the error either way.
pub proof fn lemma_neighbor_symmetric(
    a: CellIndex,
    b: CellIndex,
    around_a: Seq<CellIndex>,
    around_b: Seq<CellIndex>,
)
    requires
        around_a.contains(b) == around_b.contains(a),
    ensures
        neighbor_result(a, b, around_a) == neighbor_result(b, a, around_b),
        a@.resolution != b@.resolution ==> neighbor_result(a, b, around_a) == Err::<
            bool,
            ResolutionMismatch,
        >(ResolutionMismatch {  }),
{
}

/// The sum of the counts.
pub open spec fn total(counts: Seq<usize>) -> int
    decreases counts.len(),
{
    if counts.len() == 0 {
        0
    } else {
        total(counts.drop_last()) + counts.last()
    }
}

/// The cells of every part, one part after the other, nothing removed.
pub open spec fn concat(parts: Seq<Vec<CellIndex>>) -> Seq<CellIndex>
    decreases parts.len(),
{
    if parts.len() == 0 {
        Seq::empty()
    } else {
        concat(parts.drop_last()) + parts.last()@
    }
}

/// The sum of the counts is never negative.
pub proof fn lemma_total_nonnegative(counts: Seq<usize>)
    ensures
        0 <= total(counts),
    decreases counts.len(),
{
    if counts.len() > 0 {
        lemma_total_nonnegative(counts.drop_last());
    }
}

/// Where no member yields more cells than its own bound, the members
/// together yield no more than the sum of the bounds.
pub proof fn lemma_bound_covers(parts: Seq<Vec<CellIndex>>, counts: Seq<usize>)
    requires
        parts.len() == counts.len(),
        forall|i: int| 0 <= i < parts.len() ==> (#[trigger] parts[i])@.len() <= counts[i],
    ensures
        concat(parts).len() <= total(counts),
    decreases parts.len(),
{
    if parts.len() > 0 {
        assert(parts.last()@.len() <= counts[parts.len() - 1]);
        assert forall|i: int| 0 <= i < parts.drop_last().len() implies (
        #[trigger] parts.drop_last()[i])@.len() <= counts.drop_last()[i] by {
            assert(parts[i]@.len() <= counts[i]);
        }
        lemma_bound_covers(parts.drop_last(), counts.drop_last());
    }
}

/// The bound of a collection: the sum of its members' bounds, held at the
/// greatest `usize` where the sum is above it.
pub fn max_cells_count(counts: &Vec<usize>) -> (out: usize)
    ensures
        out as int == if total(counts@) <= usize::MAX {
            total(counts@)
        } else {
            usize::MAX as int
        },
{
    let mut sum: usize = 0;
    let mut i: usize = 0;
    while i < counts.len()
        invariant
            i <= counts@.len(),
            sum as int == if total(counts@.take(i as int)) <= usize::MAX {
                total(counts@.take(i as int))
            } else {
                usize::MAX as int
            },
        decreases counts@.len() - i,
    {
        proof {
            assert(counts@.take(i as int + 1).drop_last() =~= counts@.take(i as int));
            lemma_total_nonnegative(counts@.take(i as int));
        }
        let c: usize = counts[i];
        if c > usize::MAX - sum {
            sum = usize::MAX;
        } else {
            sum = sum + c;
        }
        i = i + 1;
    }
    proof {
        assert(counts@.take(i as int) =~= counts@);
    }
    sum
}

/// The cells of a collection: those of its members in order. A cell that
/// two members yield comes out twice.
pub fn to_cells(parts: &Vec<Vec<CellIndex>>) -> (out: Vec<CellIndex>)
    ensures
        out@ == concat(parts@),
{
    let mut out: Vec<CellIndex> = Vec::new();
    let mut i: usize = 0;
    while i < parts.len()
        invariant
            i <= parts@.len(),
            out@ == concat(parts@.take(i as int)),
        decreases parts@.len() - i,
    {
        let part: &Vec<CellIndex> = &parts[i];
        let ghost before = out@;
        let mut j: usize = 0;
        while j < part.len()
            invariant
                j <= part@.len(),
                out@ == before + part@.take(j as int),
            decreases part@.len() - j,
        {
            out.push(part[j]);
            proof {
                assert(part@.take(j as int + 1) =~= part@.take(j as int).push(part@[j as int]));
                assert(out@ =~= before + part@.take(j as int + 1));
            }
            j = j + 1;
        }
        proof {
            assert(part@.take(j as int) =~= part@);
            assert(parts@.take(i as int + 1).drop_last() =~= parts@.take(i as int));
            assert(parts@.take(i as int + 1).last() == parts@[i as int]);
        }
        i = i + 1;
    }
    proof {
        assert(parts@.take(i as int) =~= parts@);
    }
    out
}

/// Whether the sequence holds the index of the cell.
pub open spec fn holds(indexes: Seq<u64>, cell: CellIndex) -> bool {
    exists|i: int| 0 <= i < indexes.len() && #[trigger] indexes[i] as int == encode(cell@)
}

/// The state of the growth of a covering from a seed cell: the cells taken
/// so far, those among them whose neighbors are still to be examined, and
/// the indexes of all cells examined so far.
pub struct Fill {
    pub frontier: Vec<CellIndex>,
    pub accepted: Vec<CellIndex>,
    pub seen: Vec<u64>,
}

/// Whether the vector holds the index.
fn contains_index(indexes: &Vec<u64>, raw: u64) -> (r: bool)
    ensures
        r == exists|i: int| 0 <= i < indexes@.len() && #[trigger] indexes@[i] == raw,
{
    let mut i: usize = 0;
    while i < indexes.len()
        invariant
            i <= indexes@.len(),
            forall|j: int| 0 <= j < i ==> #[trigger] indexes@[j] != raw,
        decreases indexes@.len() - i,
    {
        if indexes[i] == raw {
            return true;
        }
        i = i + 1;
    }
    false
}

impl Fill {
    /// Every taken cell is valid and was examined, no cell was taken twice,
    /// and the cells still to expand are valid.
    pub open spec fn wf(&self) -> bool {
        &&& forall|i: int| 0 <= i < self.accepted@.len() ==> (#[trigger] self.accepted@[i]).wf()
        &&& forall|i: int|
            0 <= i < self.accepted@.len() ==> holds(self.seen@, #[trigger] self.accepted@[i])
        &&& forall|i: int, j: int|
            0 <= i < j < self.accepted@.len() ==> encode((#[trigger] self.accepted@[i])@) != encode(
                (#[trigger] self.accepted@[j])@,
            )
        &&& forall|i: int| 0 <= i < self.frontier@.len() ==> (#[trigger] self.frontier@[i]).wf()
    }

    /// The growth that starts at `seed`, a cell known to lie inside.
    pub fn new(seed: CellIndex) -> (out: Fill)
        requires
            seed.wf(),
        ensures
            out.wf(),
            out.accepted@ == seq![seed],
            out.frontier@ == seq![seed],
            out.seen@ == seq![encode(seed@) as u64],
    {
        let raw: u64 = seed.to_u64();
        let mut frontier: Vec<CellIndex> = Vec::new();
        frontier.push(seed);
        let mut accepted: Vec<CellIndex> = Vec::new();
        accepted.push(seed);
        let mut seen: Vec<u64> = Vec::new();
        seen.push(raw);
        let out = Fill { frontier, accepted, seen };
        proof {
            assert(out.seen@[0] as int == encode(seed@));
            assert(out.accepted@ =~= seq![seed]);
            assert(out.frontier@ =~= seq![seed]);
            assert(out.seen@ =~= seq![encode(seed@) as u64]);
        }
        out
    }

    /// Takes the cell whose neighbors are to be examined next: the one that
    /// was taken last. None where the growth is complete.
    pub fn next(&mut self) -> (out: Option<CellIndex>)
        requires
            old(self).wf(),
        ensures
            final(self).wf(),
            final(self).accepted@ == old(self).accepted@,
            final(self).seen@ == old(self).seen@,
            out.is_some() <==> old(self).frontier@.len() > 0,
            out.is_some() ==> out.unwrap() == old(self).frontier@.last() && out.unwrap().wf()
                && final(self).frontier@ == old(self).frontier@.drop_last(),
            out.is_none() ==> final(self).frontier@ == old(self).frontier@,
    {
        let out = self.frontier.pop();
        proof {
            if out.is_some() {
                assert(old(self).frontier@[old(self).frontier@.len() - 1].wf());
            }
        }
        out
    }

    /// Records the examination of a neighbor. A cell examined before changes
    /// nothing. A new cell is marked as examined, and where its representative
    /// point lies inside it is taken and will be expanded in its turn. Returns
    /// whether the cell was taken.
    pub fn classify(&mut self, cell: CellIndex, inside: bool) -> (taken: bool)
        requires
            old(self).wf(),
            cell.wf(),
        ensures
            final(self).wf(),
            taken == (inside && !holds(old(self).seen@, cell)),
            holds(old(self).seen@, cell) ==> *final(self) == *old(self),
            !holds(old(self).seen@, cell) ==> final(self).seen@ == old(self).seen@.push(
                encode(cell@) as u64,
            ),
            taken ==> final(self).accepted@ == old(self).accepted@.push(cell) && final(self).frontier@ == old(self).frontier@.push(cell),
            !taken ==> final(self).accepted@ == old(self).accepted@ && final(self).frontier@ == old(self).frontier@,
    {
        let raw: u64 = cell.to_u64();
        if contains_index(&self.seen, raw) {
            return false;
        }
        self.seen.push(raw);
        proof {
            assert forall|i: int| 0 <= i < self.accepted@.len() implies holds(
                self.seen@,
                #[trigger] self.accepted@[i],
            ) by {
                let c = old(self).accepted@[i];
                assert(holds(old(self).seen@, c));
                let k = choose|k: int|
                    0 <= k < old(self).seen@.len() && #[trigger] old(self).seen@[k] as int
                        == encode(c@);
                assert(self.seen@[k] as int == encode(c@));
            }
        }
        if !inside {
            return false;
        }
        proof {
            assert forall|i: int| 0 <= i < self.accepted@.len() implies encode(
                (#[trigger] self.accepted@[i])@,
            ) != encode(cell@) by {
                assert(holds(old(self).seen@, old(self).accepted@[i]));
            }
            assert(self.seen@[self.seen@.len() - 1] as int == encode(cell@));
        }
        self.accepted.push(cell);
        self.frontier.push(cell);
        true
    }

    /// The cells taken, in the order in which they were taken.
    pub fn into_cells(self) -> (out: Vec<CellIndex>)
        ensures
            out@ == self.accepted@,
    {
        self.accepted
    }
}

impl CellIndex {
    /// Whether two cells are the same cell.
    pub fn same(self, other: CellIndex) -> (r: bool)
        requires
            self.wf(),
            other.wf(),
        ensures
            r == (self == other),
    {
        let a: u64 = self.to_u64();
        let b: u64 = other.to_u64();
        proof {
            if a == b {
                CellIndex::lemma_view_injective(self, other);
            }
        }
        a == b
    }

    /// Whether `other` shares an edge with this cell, given the cells that
    /// share an edge with this cell. Fails where the two resolutions differ;
    /// a cell is no neighbor of itself.
    pub fn is_neighbor_with(self, other: CellIndex, neighbors: &Vec<CellIndex>) -> (out: Result<
        bool,
        ResolutionMismatch,
    >)
        requires
            self.wf(),
            other.wf(),
            forall|i: int| 0 <= i < neighbors@.len() ==> (#[trigger] neighbors@[i]).wf(),
        ensures
            out == neighbor_result(self, other, neighbors@),
    {
        if self.raw_resolution() != other.raw_resolution() {
            return Err(ResolutionMismatch {  });
        }
        if self.same(other) {
            return Ok(false);
        }
        let mut i: usize = 0;
        while i < neighbors.len()
            invariant
                i <= neighbors@.len(),
                other.wf(),
                self@.resolution == other@.resolution,
                self != other,
                forall|j: int| 0 <= j < neighbors@.len() ==> (#[trigger] neighbors@[j]).wf(),
                forall|j: int| 0 <= j < i ==> #[trigger] neighbors@[j] != other,
            decreases neighbors@.len() - i,
        {
            if neighbors[i].same(other) {
                proof {
                    assert(neighbors@[i as int] == other);
                }
                return Ok(true);
            }
            i = i + 1;
        }
        Ok(false)
    }
}

} // verus!
