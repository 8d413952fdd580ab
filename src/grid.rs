//! Sparse spatial hash: particles are grouped into square grid cells keyed by
//! their integer grid coordinate. Cells hold particle indices only.
use vstd::prelude::*;

verus! {

/// One occupied grid cell: its coordinate and the indices of the particles
/// bucketed into it, in the order they were added.
pub struct Chunk {
    pub x: i32,
    pub y: i32,
    pub indices: Vec<usize>,
}

/// Mathematical model of a cell.
pub struct CellModel {
    pub x: i32,
    pub y: i32,
    pub members: Seq<usize>,
}

impl View for Chunk {
    type V = CellModel;

    open spec fn view(&self) -> CellModel {
        CellModel { x: self.x, y: self.y, members: self.indices@ }
    }
}

/// Whether cell `c` has the grid coordinate `(x, y)`.
pub open spec fn key_is(c: CellModel, x: int, y: int) -> bool {
    c.x as int == x && c.y as int == y
}

/// Whether some cell of `cells` has the grid coordinate `(x, y)`.
pub open spec fn has_key(cells: Seq<CellModel>, x: int, y: int) -> bool {
    exists|k: int| 0 <= k < cells.len() && key_is(#[trigger] cells[k], x, y)
}

/// The position of the cell with coordinate `(x, y)`; meaningful when
/// `has_key(cells, x, y)`.
pub open spec fn cell_index(cells: Seq<CellModel>, x: int, y: int) -> int {
    choose|k: int| 0 <= k < cells.len() && key_is(#[trigger] cells[k], x, y)
}

/// No two cells share a grid coordinate.
pub open spec fn keys_distinct(cells: Seq<CellModel>) -> bool {
    forall|a: int, b: int|
        0 <= a < cells.len() && 0 <= b < cells.len() && a != b ==> !key_is(
            #[trigger] cells[a],
            (#[trigger] cells[b]).x as int,
            cells[b].y as int,
        )
}

/// Bucketing one particle: append its index to the cell with its coordinate,
/// creating that cell at the end when none exists yet.
pub open spec fn add_member(cells: Seq<CellModel>, key: (i32, i32), i: usize) -> Seq<CellModel> {
    if has_key(cells, key.0 as int, key.1 as int) {
        let k = cell_index(cells, key.0 as int, key.1 as int);
        cells.update(k, CellModel { x: cells[k].x, y: cells[k].y, members: cells[k].members.push(i) })
    } else {
        cells.push(CellModel { x: key.0, y: key.1, members: seq![i] })
    }
}

/// The cells obtained by bucketing particles `0, 1, ...` in order, particle
/// `i` having grid coordinate `coords[i]`.
pub open spec fn bucketed(coords: Seq<(i32, i32)>) -> Seq<CellModel>
    decreases coords.len(),
{
    if coords.len() == 0 {
        Seq::empty()
    } else {
        add_member(bucketed(coords.drop_last()), coords.last(), (coords.len() - 1) as usize)
    }
}

/// `cells` partitions the particles `0 .. coords.len()` by grid coordinate:
/// coordinates are distinct, every cell is occupied, every member of a cell
/// has that cell's coordinate, members are listed in increasing order, and
/// every particle is a member of the cell with its coordinate.
pub open spec fn partitions(cells: Seq<CellModel>, coords: Seq<(i32, i32)>) -> bool {
    &&& keys_distinct(cells)
    &&& forall|k: int| 0 <= k < cells.len() ==> (#[trigger] cells[k]).members.len() > 0
    &&& forall|k: int, m: int|
        0 <= k < cells.len() && 0 <= m < cells[k].members.len() ==> {
            let i = (#[trigger] cells[k].members[m]) as int;
            &&& i < coords.len()
            &&& coords[i] == (cells[k].x, cells[k].y)
        }
    &&& forall|k: int, m1: int, m2: int|
        0 <= k < cells.len() && 0 <= m1 < m2 < cells[k].members.len() ==> (
        #[trigger] cells[k].members[m1]) < (#[trigger] cells[k].members[m2])
    &&& forall|i: int|
        0 <= i < coords.len() ==> {
            let (x, y) = #[trigger] coords[i];
            &&& has_key(cells, x as int, y as int)
            &&& cells[cell_index(cells, x as int, y as int)].members.contains(i as usize)
        }
}

/// With distinct coordinates, the cell found by `cell_index` is the only one
/// with that coordinate.
pub proof fn lemma_cell_index_unique(cells: Seq<CellModel>, k: int, x: int, y: int)
    requires
        keys_distinct(cells),
        0 <= k < cells.len(),
        key_is(cells[k], x, y),
    ensures
        has_key(cells, x, y),
        cell_index(cells, x, y) == k,
{
    assert(has_key(cells, x, y));
    let c = cell_index(cells, x, y);
    if c != k {
        assert(!key_is(cells[c], cells[k].x as int, cells[k].y as int));
    }
}

/// Bucketing particles in order yields a partition of them by coordinate.
pub proof fn lemma_bucketed_partitions(coords: Seq<(i32, i32)>)
    requires
        coords.len() <= usize::MAX,
    ensures
        partitions(bucketed(coords), coords),
    decreases coords.len(),
{
    if coords.len() > 0 {
        let p = coords.drop_last();
        let n = (coords.len() - 1) as int;
        let key = coords.last();
        let c0 = bucketed(p);
        lemma_bucketed_partitions(p);
        let c1 = bucketed(coords);
        assert(c1 == add_member(c0, key, n as usize));
        assert forall|i: int| 0 <= i < n implies #[trigger] coords[i] == p[i] by {}
        if has_key(c0, key.0 as int, key.1 as int) {
            let k = cell_index(c0, key.0 as int, key.1 as int);
            assert(c1.len() == c0.len());
            assert forall|j: int| 0 <= j < c1.len() implies #[trigger] c1[j].x == c0[j].x && c1[j].y
                == c0[j].y by {}
            assert forall|a: int, b: int|
                0 <= a < c1.len() && 0 <= b < c1.len() && a != b implies !key_is(
                    #[trigger] c1[a],
                    (#[trigger] c1[b]).x as int,
                    c1[b].y as int,
                ) by {
                assert(!key_is(c0[a], c0[b].x as int, c0[b].y as int));
            }
            assert forall|j: int, m: int|
                0 <= j < c1.len() && 0 <= m < c1[j].members.len() implies {
                    let i = (#[trigger] c1[j].members[m]) as int;
                    &&& i < coords.len()
                    &&& coords[i] == (c1[j].x, c1[j].y)
                } by {
                if j != k || m < c0[j].members.len() {
                    let i = c0[j].members[m] as int;
                    assert(i < p.len() && p[i] == (c0[j].x, c0[j].y));
                }
            }
            assert forall|j: int, m1: int, m2: int|
                0 <= j < c1.len() && 0 <= m1 < m2 < c1[j].members.len() implies (
                #[trigger] c1[j].members[m1]) < (#[trigger] c1[j].members[m2]) by {
                let a = c0[j].members[m1];
                assert(a < p.len());
                if j != k || m2 < c0[j].members.len() {
                    assert(c0[j].members[m1] < c0[j].members[m2]);
                }
            }
            assert forall|i: int| 0 <= i < coords.len() implies {
                let (x, y) = #[trigger] coords[i];
                &&& has_key(c1, x as int, y as int)
                &&& c1[cell_index(c1, x as int, y as int)].members.contains(i as usize)
            } by {
                let (x, y) = coords[i];
                if i < n {
                    assert(p[i] == coords[i]);
                    let ci = cell_index(c0, x as int, y as int);
                    assert(has_key(c0, x as int, y as int));
                    assert(0 <= ci < c0.len() && key_is(c0[ci], x as int, y as int));
                    lemma_cell_index_unique(c1, ci, x as int, y as int);
                    let m = choose|m: int| 0 <= m < c0[ci].members.len() && c0[ci].members[m] == i as usize;
                    assert(c1[ci].members[m] == i as usize);
                } else {
                    assert(0 <= k < c0.len() && key_is(c0[k], x as int, y as int));
                    lemma_cell_index_unique(c1, k, x as int, y as int);
                    assert(c1[k].members.last() == i as usize);
                }
            }
        } else {
            let k = c0.len() as int;
            assert(c1 == c0.push(CellModel { x: key.0, y: key.1, members: seq![n as usize] }));
            assert forall|a: int, b: int|
                0 <= a < c1.len() && 0 <= b < c1.len() && a != b implies !key_is(
                    #[trigger] c1[a],
                    (#[trigger] c1[b]).x as int,
                    c1[b].y as int,
                ) by {
                if a < k && b < k {
                    assert(!key_is(c0[a], c0[b].x as int, c0[b].y as int));
                } else if a == k {
                    assert(!key_is(c0[b], key.0 as int, key.1 as int));
                } else {
                    assert(!key_is(c0[a], key.0 as int, key.1 as int));
                }
            }
            assert forall|j: int, m: int|
                0 <= j < c1.len() && 0 <= m < c1[j].members.len() implies {
                    let i = (#[trigger] c1[j].members[m]) as int;
                    &&& i < coords.len()
                    &&& coords[i] == (c1[j].x, c1[j].y)
                } by {
                if j < k {
                    let i = c0[j].members[m] as int;
                    assert(i < p.len() && p[i] == (c0[j].x, c0[j].y));
                }
            }
            assert forall|j: int, m1: int, m2: int|
                0 <= j < c1.len() && 0 <= m1 < m2 < c1[j].members.len() implies (
                #[trigger] c1[j].members[m1]) < (#[trigger] c1[j].members[m2]) by {
                if j < k {
                    assert(c0[j].members[m1] < c0[j].members[m2]);
                }
            }
            assert forall|i: int| 0 <= i < coords.len() implies {
                let (x, y) = #[trigger] coords[i];
                &&& has_key(c1, x as int, y as int)
                &&& c1[cell_index(c1, x as int, y as int)].members.contains(i as usize)
            } by {
                let (x, y) = coords[i];
                if i < n {
                    assert(p[i] == coords[i]);
                    let ci = cell_index(c0, x as int, y as int);
                    assert(has_key(c0, x as int, y as int));
                    assert(0 <= ci < c0.len() && key_is(c0[ci], x as int, y as int));
                    lemma_cell_index_unique(c1, ci, x as int, y as int);
                    let m = choose|m: int| 0 <= m < c0[ci].members.len() && c0[ci].members[m] == i as usize;
                    assert(c1[ci].members[m] == i as usize);
                } else {
                    assert(key_is(c1[k], x as int, y as int));
                    lemma_cell_index_unique(c1, k, x as int, y as int);
                    assert(c1[k].members[0] == i as usize);
                }
            }
        }
    }
}

/// Members of the cell with coordinate `(x, y)`, or none when that cell is
/// not occupied.
pub open spec fn members_at(cells: Seq<CellModel>, x: int, y: int) -> Seq<usize> {
    if has_key(cells, x, y) {
        cells[cell_index(cells, x, y)].members
    } else {
        Seq::empty()
    }
}

/// `acc` followed by the elements of `s` that are not already present, each
/// taken once, in the order of `s`.
pub open spec fn append_new(acc: Seq<usize>, s: Seq<usize>) -> Seq<usize>
    decreases s.len(),
{
    if s.len() == 0 {
        acc
    } else {
        let a = append_new(acc, s.drop_last());
        if a.contains(s.last()) {
            a
        } else {
            a.push(s.last())
        }
    }
}

/// Collision candidates of the cell at `(x, y)`: the members of that cell and
/// of its four edge neighbours, in the order left, right, below, above, each
/// particle once.
pub open spec fn neighbourhood(cells: Seq<CellModel>, x: int, y: int) -> Seq<usize> {
    let a0 = append_new(Seq::empty(), members_at(cells, x, y));
    let a1 = append_new(a0, members_at(cells, x - 1, y));
    let a2 = append_new(a1, members_at(cells, x + 1, y));
    let a3 = append_new(a2, members_at(cells, x, y - 1));
    append_new(a3, members_at(cells, x, y + 1))
}

/// Whether particle `v` is in the cell at `(x, y)` or one of its four edge
/// neighbours.
pub open spec fn in_neighbourhood(cells: Seq<CellModel>, x: int, y: int, v: usize) -> bool {
    ||| members_at(cells, x, y).contains(v)
    ||| members_at(cells, x - 1, y).contains(v)
    ||| members_at(cells, x + 1, y).contains(v)
    ||| members_at(cells, x, y - 1).contains(v)
    ||| members_at(cells, x, y + 1).contains(v)
}

/// The pairs `(s[i], s[j])` for `j` from `i + 1` to the end.
pub open spec fn pair_row(s: Seq<usize>, i: int) -> Seq<(usize, usize)> {
    Seq::new((s.len() - i - 1) as nat, |k: int| (s[i], s[i + 1 + k]))
}

/// The rows of pairs that start at the first `i` elements of `s`.
pub open spec fn pairs_upto(s: Seq<usize>, i: int) -> Seq<(usize, usize)>
    decreases i,
{
    if i <= 0 {
        Seq::empty()
    } else {
        pairs_upto(s, i - 1) + pair_row(s, i - 1)
    }
}

/// Every unordered pair of positions `i < j` of `s`, as `(s[i], s[j])`,
/// ordered by `i` and then by `j`.
pub open spec fn unordered_pairs(s: Seq<usize>) -> Seq<(usize, usize)> {
    pairs_upto(s, s.len() as int)
}

/// Appending new elements keeps a sequence free of duplicates, and yields
/// exactly the elements of both.
pub proof fn lemma_append_new(acc: Seq<usize>, s: Seq<usize>)
    requires
        acc.no_duplicates(),
    ensures
        append_new(acc, s).no_duplicates(),
        forall|v: usize| #[trigger]
            append_new(acc, s).contains(v) <==> acc.contains(v) || s.contains(v),
    decreases s.len(),
{
    if s.len() > 0 {
        let p = s.drop_last();
        lemma_append_new(acc, p);
        let a = append_new(acc, p);
        assert forall|v: usize| s.contains(v) <==> p.contains(v) || v == s.last() by {
            if s.contains(v) {
                let k = choose|k: int| 0 <= k < s.len() && s[k] == v;
                if k < p.len() {
                    assert(p[k] == v);
                }
            }
            if p.contains(v) {
                let k = choose|k: int| 0 <= k < p.len() && p[k] == v;
                assert(s[k] == v);
            }
            if v == s.last() {
                assert(s[s.len() - 1] == v);
            }
        }
        if !a.contains(s.last()) {
            let b = a.push(s.last());
            assert forall|v: usize| b.contains(v) <==> a.contains(v) || v == s.last() by {
                if b.contains(v) {
                    let k = choose|k: int| 0 <= k < b.len() && b[k] == v;
                    if k < a.len() {
                        assert(a[k] == v);
                    }
                }
                if a.contains(v) {
                    let k = choose|k: int| 0 <= k < a.len() && a[k] == v;
                    assert(b[k] == v);
                }
                if v == s.last() {
                    assert(b[b.len() - 1] == v);
                }
            }
        }
    }
}

/// Each pair of `pairs_upto(s, i)` is `(s[a], s[b])` for positions `a < b`.
pub proof fn lemma_pairs_positions(s: Seq<usize>, i: int)
    requires
        0 <= i <= s.len(),
    ensures
        forall|k: int|
            0 <= k < pairs_upto(s, i).len() ==> exists|a: int, b: int|
                0 <= a < b < s.len() && #[trigger] pairs_upto(s, i)[k] == (s[a], s[b]),
    decreases i,
{
    if i > 0 {
        lemma_pairs_positions(s, i - 1);
        let prev = pairs_upto(s, i - 1);
        let row = pair_row(s, i - 1);
        assert forall|k: int| 0 <= k < pairs_upto(s, i).len() implies exists|a: int, b: int|
            0 <= a < b < s.len() && #[trigger] pairs_upto(s, i)[k] == (s[a], s[b]) by {
            if k < prev.len() {
                assert(pairs_upto(s, i)[k] == prev[k]);
            } else {
                let j = k - prev.len();
                assert(pairs_upto(s, i)[k] == row[j]);
                assert(row[j] == (s[i - 1], s[i + j]));
            }
        }
    }
}

/// Appending the five neighbourhood member lists yields each particle of the
/// neighbourhood exactly once.
pub proof fn lemma_neighbourhood(cells: Seq<CellModel>, x: int, y: int)
    ensures
        neighbourhood(cells, x, y).no_duplicates(),
        forall|v: usize| #[trigger]
            neighbourhood(cells, x, y).contains(v) <==> in_neighbourhood(cells, x, y, v),
{
    let a0 = append_new(Seq::empty(), members_at(cells, x, y));
    let a1 = append_new(a0, members_at(cells, x - 1, y));
    let a2 = append_new(a1, members_at(cells, x + 1, y));
    let a3 = append_new(a2, members_at(cells, x, y - 1));
    lemma_append_new(Seq::empty(), members_at(cells, x, y));
    lemma_append_new(a0, members_at(cells, x - 1, y));
    lemma_append_new(a1, members_at(cells, x + 1, y));
    lemma_append_new(a2, members_at(cells, x, y - 1));
    lemma_append_new(a3, members_at(cells, x, y + 1));
}

/// For positions `a < b` of `s`, the pair `(s[a], s[b])` is among the rows
/// of pairs that start at the first `t` elements, once `t > a`.
pub proof fn lemma_pairs_complete(s: Seq<usize>, a: int, b: int, t: int)
    requires
        0 <= a < b < s.len(),
        a < t <= s.len(),
    ensures
        pairs_upto(s, t).contains((s[a], s[b])),
    decreases t,
{
    if t == a + 1 {
        let prev = pairs_upto(s, a);
        let row = pair_row(s, a);
        let k = prev.len() + (b - a - 1);
        assert(pairs_upto(s, t) == prev + row);
        assert(pairs_upto(s, t)[k] == row[b - a - 1]);
    } else {
        lemma_pairs_complete(s, a, b, t - 1);
        let prev = pairs_upto(s, t - 1);
        let k = choose|k: int| 0 <= k < prev.len() && prev[k] == (s[a], s[b]);
        assert(pairs_upto(s, t)[k] == prev[k]);
    }
}

/// Whether grid coordinates `a` and `b` name the same cell or two cells that
/// share an edge.
pub open spec fn same_or_edge_adjacent(a: (i32, i32), b: (i32, i32)) -> bool {
    let (ax, ay) = (a.0 as int, a.1 as int);
    let (bx, by) = (b.0 as int, b.1 as int);
    ||| ax == bx && ay == by
    ||| ay == by && (bx == ax - 1 || bx == ax + 1)
    ||| ax == bx && (by == ay - 1 || by == ay + 1)
}

/// The broad phase misses no close pair: two distinct particles whose cells
/// are the same or share an edge are a candidate pair, in one order or the
/// other, of the collision pass over the first particle's cell.
pub proof fn lemma_adjacent_particles_are_candidates(coords: Seq<(i32, i32)>, i: int, j: int)
    requires
        coords.len() <= usize::MAX,
        0 <= i < coords.len(),
        0 <= j < coords.len(),
        i != j,
        same_or_edge_adjacent(coords[i], coords[j]),
    ensures
        ({
            let cells = bucketed(coords);
            let (x, y) = (coords[i].0 as int, coords[i].1 as int);
            let ps = unordered_pairs(neighbourhood(cells, x, y));
            &&& has_key(cells, x, y)
            &&& ps.contains((i as usize, j as usize)) || ps.contains((j as usize, i as usize))
        }),
{
    let cells = bucketed(coords);
    lemma_bucketed_partitions(coords);
    let (x, y) = (coords[i].0 as int, coords[i].1 as int);
    let (xj, yj) = (coords[j].0 as int, coords[j].1 as int);
    assert(coords[i] == (coords[i].0, coords[i].1));
    assert(coords[j] == (coords[j].0, coords[j].1));
    assert(members_at(cells, x, y).contains(i as usize));
    assert(members_at(cells, xj, yj).contains(j as usize));
    assert(in_neighbourhood(cells, x, y, j as usize));
    assert(in_neighbourhood(cells, x, y, i as usize));
    lemma_neighbourhood(cells, x, y);
    let nb = neighbourhood(cells, x, y);
    assert(nb.contains(i as usize));
    assert(nb.contains(j as usize));
    let a = choose|a: int| 0 <= a < nb.len() && nb[a] == i as usize;
    let b = choose|b: int| 0 <= b < nb.len() && nb[b] == j as usize;
    if a < b {
        lemma_pairs_complete(nb, a, b, nb.len() as int);
    } else {
        lemma_pairs_complete(nb, b, a, nb.len() as int);
    }
}

/// Whether the two particles of every pair differ.
pub open spec fn pairs_distinct(ps: Seq<(usize, usize)>) -> bool {
    forall|k: int| 0 <= k < ps.len() ==> (#[trigger] ps[k]).0 != ps[k].1
}

/// Whether `v` holds `x`.
fn holds(v: &Vec<usize>, x: usize) -> (r: bool)
    ensures
        r == v@.contains(x),
{
    for k in 0..v.len()
        invariant
            forall|j: int| 0 <= j < k ==> v@[j] != x,
    {
        if v[k] == x {
            return true;
        }
    }
    false
}

/// Append to `acc` each element of `s` that it does not hold yet.
fn push_new(acc: &mut Vec<usize>, s: &Vec<usize>)
    ensures
        final(acc)@ == append_new(old(acc)@, s@),
{
    for j in 0..s.len()
        invariant
            acc@ == append_new(old(acc)@, s@.take(j as int)),
    {
        proof {
            assert(s@.take(j + 1).drop_last() =~= s@.take(j as int));
        }
        if !holds(acc, s[j]) {
            acc.push(s[j]);
        }
    }
    proof {
        assert(s@.take(s@.len() as int) =~= s@);
    }
}

/// Every unordered pair of distinct positions of `s`: `(s[i], s[j])` for
/// `i < j`, ordered by `i` and then by `j`. When `s` holds no index twice,
/// the two indices of every pair differ.
pub fn index_pairs(s: &Vec<usize>) -> (r: Vec<(usize, usize)>)
    ensures
        r@ == unordered_pairs(s@),
        s@.no_duplicates() ==> pairs_distinct(r@),
{
    let n = s.len();
    let mut r: Vec<(usize, usize)> = Vec::new();
    for i in 0..n
        invariant
            n == s@.len(),
            r@ == pairs_upto(s@, i as int),
    {
        let ghost base = r@;
        for j in i + 1..n
            invariant
                n == s@.len(),
                i < n,
                r@ == base + pair_row(s@, i as int).take(j - i - 1),
        {
            r.push((s[i], s[j]));
            proof {
                assert(r@ =~= base + pair_row(s@, i as int).take(j - i));
            }
        }
        proof {
            assert(pair_row(s@, i as int).take(n - i - 1) =~= pair_row(s@, i as int));
        }
    }
    proof {
        lemma_pairs_positions(s@, n as int);
        if s@.no_duplicates() {
            assert forall|k: int| 0 <= k < r@.len() implies (#[trigger] r@[k]).0 != r@[k].1 by {
                let (a, b) = choose|a: int, b: int| 0 <= a < b < s@.len() && r@[k] == (s@[a], s@[b]);
            }
        }
    }
    r
}

/// Coordinates are distinct and the members of every cell are listed in
/// strictly increasing order (so no particle appears twice in one cell).
pub open spec fn well_formed(cells: Seq<CellModel>) -> bool {
    &&& keys_distinct(cells)
    &&& forall|k: int, m1: int, m2: int|
        0 <= k < cells.len() && 0 <= m1 < m2 < cells[k].members.len() ==> (
        #[trigger] cells[k].members[m1]) < (#[trigger] cells[k].members[m2])
}

/// Position `k` of the sequence `0 .. n` with `skipped` taken out.
pub open spec fn skip_index(skipped: int, k: int) -> int {
    if k < skipped {
        k
    } else {
        k + 1
    }
}

/// Every ordered pair `(a, b)` of distinct cell positions below `n`, ordered
/// by `a` and then by `b`.
pub open spec fn ordered_pairs_upto(n: int, a: int) -> Seq<(usize, usize)>
    decreases a,
{
    if a <= 0 {
        Seq::empty()
    } else {
        ordered_pairs_upto(n, a - 1) + Seq::new(
            (n - 1) as nat,
            |k: int| ((a - 1) as usize, skip_index(a - 1, k) as usize),
        )
    }
}

/// The grid coordinate of each particle `0 .. n` as `cells` records it: the
/// coordinate of a cell that holds the particle.
pub open spec fn coords_of_cells(cells: Seq<CellModel>, n: nat) -> Seq<(i32, i32)> {
    Seq::new(
        n,
        |i: int|
            {
                let k = choose|k: int| 0 <= k < cells.len() && (#[trigger] cells[k]).members.contains(i as usize);
                (cells[k].x, cells[k].y)
            },
    )
}

/// Re-bucketing is idempotent: bucketing the particles once more by the
/// coordinates that the bucketed cells give them, with no position changed in
/// between, yields exactly the same cells and memberships.
pub proof fn lemma_rebucket_idempotent(coords: Seq<(i32, i32)>)
    requires
        coords.len() <= usize::MAX,
    ensures
        bucketed(coords_of_cells(bucketed(coords), coords.len())) == bucketed(coords),
{
    let cells = bucketed(coords);
    lemma_bucketed_partitions(coords);
    let again = coords_of_cells(cells, coords.len());
    assert forall|i: int| 0 <= i < coords.len() implies #[trigger] again[i] == coords[i] by {
        let (x, y) = coords[i];
        let c = cell_index(cells, x as int, y as int);
        assert(0 <= c < cells.len() && cells[c].members.contains(i as usize));
        let k = choose|k: int| 0 <= k < cells.len() && (#[trigger] cells[k]).members.contains(i as usize);
        let m = choose|m: int| 0 <= m < cells[k].members.len() && cells[k].members[m] == i as usize;
        assert(coords[cells[k].members[m] as int] == (cells[k].x, cells[k].y));
    }
    assert(again =~= coords);
}

/// The set of occupied cells, rebuilt from particle grid coordinates.
pub struct ChunkGrid {
    chunks: Vec<Chunk>,
}

impl View for ChunkGrid {
    type V = Seq<CellModel>;

    closed spec fn view(&self) -> Seq<CellModel> {
        self.chunks@.map_values(|c: Chunk| c@)
    }
}

impl ChunkGrid {
    /// A grid with no occupied cell.
    pub fn new() -> (g: ChunkGrid)
        ensures
            g@ == Seq::<CellModel>::empty(),
            well_formed(g@),
    {
        ChunkGrid { chunks: Vec::new() }
    }

    /// The occupied cells, in order of creation.
    pub fn chunks(&self) -> (r: &Vec<Chunk>)
        ensures
            r@.map_values(|c: Chunk| c@) == self@,
    {
        &self.chunks
    }

    /// Number of occupied cells.
    pub fn len(&self) -> (r: usize)
        ensures
            r == self@.len(),
    {
        self.chunks.len()
    }

    /// Position of the cell with grid coordinate `(x, y)`, if it is occupied.
    pub fn find(&self, x: i32, y: i32) -> (r: Option<usize>)
        requires
            keys_distinct(self@),
        ensures
            r is Some <==> has_key(self@, x as int, y as int),
            r matches Some(k) ==> k == cell_index(self@, x as int, y as int) && k < self@.len(),
    {
        let mut k: usize = 0;
        while k < self.chunks.len()
            invariant
                k <= self@.len(),
                self@.len() == self.chunks@.len(),
                keys_distinct(self@),
                forall|j: int| 0 <= j < k ==> !key_is(#[trigger] self@[j], x as int, y as int),
            decreases self.chunks@.len() - k,
        {
            if self.chunks[k].x == x && self.chunks[k].y == y {
                assert(key_is(self@[k as int], x as int, y as int));
                assert(has_key(self@, x as int, y as int));
                let ghost c = cell_index(self@, x as int, y as int);
                assert(0 <= c < self@.len() && key_is(self@[c], x as int, y as int));
                assert(c == k) by {
                    if c != k {
                        assert(!key_is(self@[c], self@[k as int].x as int, self@[k as int].y as int));
                    }
                }
                return Some(k);
            }
            k = k + 1;
        }
        None
    }

    /// Bucket particle `i` at grid coordinate `(x, y)`: append it to that
    /// cell, or open the cell at the end when it is not occupied yet.
    pub fn insert(&mut self, i: usize, x: i32, y: i32)
        requires
            keys_distinct(old(self)@),
        ensures
            final(self)@ == add_member(old(self)@, (x, y), i),
            keys_distinct(final(self)@),
    {
        match self.find(x, y) {
            Some(k) => {
                self.chunks[k].indices.push(i);
                proof {
                    let old_cells = old(self)@;
                    let e = CellModel { x: old_cells[k as int].x, y: old_cells[k as int].y, members: old_cells[k as int].members.push(i) };
                    assert(self@ =~= old_cells.update(k as int, e));
                    assert forall|a: int, b: int|
                        0 <= a < self@.len() && 0 <= b < self@.len() && a != b implies !key_is(
                            #[trigger] self@[a], (#[trigger] self@[b]).x as int, self@[b].y as int)
                    by {
                        assert(old_cells[a].x == self@[a].x && old_cells[a].y == self@[a].y);
                        assert(old_cells[b].x == self@[b].x && old_cells[b].y == self@[b].y);
                    }
                }
            },
            None => {
                let mut indices: Vec<usize> = Vec::new();
                indices.push(i);
                self.chunks.push(Chunk { x, y, indices });
                proof {
                    let old_cells = old(self)@;
                    assert(self@ =~= old_cells.push(CellModel { x, y, members: seq![i] }));
                }
            },
        }
    }
    /// Clear the grid and bucket every particle again, particle `i` having
    /// grid coordinate `coords[i]`. The result depends on `coords` alone.
    pub fn rebuild(&mut self, coords: &Vec<(i32, i32)>)
        ensures
            final(self)@ == bucketed(coords@),
            partitions(final(self)@, coords@),
            well_formed(final(self)@),
    {
        self.chunks.clear();
        proof {
            assert(self@ =~= bucketed(coords@.take(0)));
        }
        for i in 0..coords.len()
            invariant
                self@ == bucketed(coords@.take(i as int)),
                keys_distinct(self@),
        {
            let (x, y) = coords[i];
            self.insert(i, x, y);
            proof {
                assert(coords@.take(i + 1).drop_last() =~= coords@.take(i as int));
            }
        }
        proof {
            assert(coords@.take(coords@.len() as int) =~= coords@);
            lemma_bucketed_partitions(coords@);
        }
    }

    /// A grid holding the cells of particles with grid coordinates `coords`.
    pub fn from_coords(coords: &Vec<(i32, i32)>) -> (g: ChunkGrid)
        ensures
            g@ == bucketed(coords@),
            partitions(g@, coords@),
            well_formed(g@),
    {
        let mut g = ChunkGrid::new();
        g.rebuild(coords);
        g
    }
    /// Append to `acc` the members of the cell at `(x, y)` that it does not
    /// hold yet; coordinates out of the `i32` range name no cell.
    fn push_members_at(&self, acc: &mut Vec<usize>, x: i64, y: i64)
        requires
            keys_distinct(self@),
        ensures
            final(acc)@ == append_new(old(acc)@, members_at(self@, x as int, y as int)),
    {
        if i32::MIN as i64 <= x && x <= i32::MAX as i64 && i32::MIN as i64 <= y && y <= i32::MAX as i64 {
            match self.find(x as i32, y as i32) {
                Some(k) => {
                    proof {
                        assert(self.chunks@[k as int]@ == self@[k as int]);
                    }
                    push_new(acc, &self.chunks[k].indices);
                },
                None => {
                    assert(append_new(old(acc)@, Seq::<usize>::empty()) == old(acc)@);
                },
            }
        } else {
            assert(!has_key(self@, x as int, y as int));
            assert(append_new(old(acc)@, Seq::<usize>::empty()) == old(acc)@);
        }
    }

    /// Collision candidates of cell `c`: the members of `c` and of the cells
    /// left, right, below and above it, each particle once.
    pub fn neighbourhood(&self, c: usize) -> (r: Vec<usize>)
        requires
            c < self@.len(),
            keys_distinct(self@),
        ensures
            r@ == neighbourhood(self@, self@[c as int].x as int, self@[c as int].y as int),
            r@.no_duplicates(),
            forall|v: usize| #[trigger]
                r@.contains(v) <==> in_neighbourhood(
                    self@,
                    self@[c as int].x as int,
                    self@[c as int].y as int,
                    v,
                ),
    {
        let x = self.chunks[c].x as i64;
        let y = self.chunks[c].y as i64;
        proof {
            assert(self.chunks@[c as int]@ == self@[c as int]);
        }
        let mut r: Vec<usize> = Vec::new();
        self.push_members_at(&mut r, x, y);
        self.push_members_at(&mut r, x - 1, y);
        self.push_members_at(&mut r, x + 1, y);
        self.push_members_at(&mut r, x, y - 1);
        self.push_members_at(&mut r, x, y + 1);
        proof {
            lemma_neighbourhood(self@, x as int, y as int);
        }
        r
    }

    /// The candidate pairs that the collision pass tests for cell `c`: every
    /// unordered pair of its neighbourhood, two distinct particles each.
    pub fn collision_pairs(&self, c: usize) -> (r: Vec<(usize, usize)>)
        requires
            c < self@.len(),
            keys_distinct(self@),
        ensures
            r@ == unordered_pairs(
                neighbourhood(self@, self@[c as int].x as int, self@[c as int].y as int),
            ),
            pairs_distinct(r@),
    {
        let nb = self.neighbourhood(c);
        index_pairs(&nb)
    }

    /// The pairs that the gravity pass resolves directly inside cell `c`:
    /// every unordered pair of its members, two distinct particles each.
    pub fn member_pairs(&self, c: usize) -> (r: Vec<(usize, usize)>)
        requires
            c < self@.len(),
            well_formed(self@),
        ensures
            r@ == unordered_pairs(self@[c as int].members),
            pairs_distinct(r@),
    {
        proof {
            assert(self.chunks@[c as int]@ == self@[c as int]);
            let m = self@[c as int].members;
            assert forall|a: int, b: int| 0 <= a < m.len() && 0 <= b < m.len() && a != b implies m[a]
                != m[b] by {
                if a < b {
                    assert(self@[c as int].members[a] < self@[c as int].members[b]);
                } else {
                    assert(self@[c as int].members[b] < self@[c as int].members[a]);
                }
            }
        }
        index_pairs(&self.chunks[c].indices)
    }

    /// The pairs that the gravity pass resolves between cells: every ordered
    /// pair `(a, b)` of distinct cell positions, where the aggregate of `b`
    /// acts on each member of `a`.
    pub fn cell_pairs(&self) -> (r: Vec<(usize, usize)>)
        ensures
            r@ == ordered_pairs_upto(self@.len() as int, self@.len() as int),
            pairs_distinct(r@),
    {
        let n = self.chunks.len();
        let mut r: Vec<(usize, usize)> = Vec::new();
        for a in 0..n
            invariant
                n == self@.len(),
                r@ == ordered_pairs_upto(n as int, a as int),
                pairs_distinct(r@),
        {
            let ghost base = r@;
            let ghost row = Seq::new(
                (n - 1) as nat,
                |k: int| (a as usize, skip_index(a as int, k) as usize),
            );
            for b in 0..n
                invariant
                    n == self@.len(),
                    a < n,
                    row == Seq::new(
                        (n - 1) as nat,
                        |k: int| (a as usize, skip_index(a as int, k) as usize),
                    ),
                    r@ == base + row.take(if b <= a { b as int } else { b - 1 }),
                    pairs_distinct(r@),
            {
                if b != a {
                    r.push((a, b));
                    proof {
                        let t = if b < a { b as int } else { b - 1 };
                        assert(row[t] == (a, b));
                        assert(r@ =~= base + row.take(t + 1));
                    }
                }
            }
            proof {
                assert(row.take(n - 1) =~= row);
            }
        }
        r
    }
}

} // verus!
