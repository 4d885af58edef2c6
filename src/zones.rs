use vstd::prelude::*;

verus! {

/// Number of cells of the grid.
pub const CELLS: usize = 81;

/// Number of constraint zones: 9 rows, 9 columns, 9 regions.
pub const ZONES: usize = 27;

/// Cells are numbered row-major: cell `p` sits at row `p / 9`, column `p % 9`.
pub open spec fn row_of(p: int) -> int {
    p / 9
}

pub open spec fn col_of(p: int) -> int {
    p % 9
}

/// The 3x3 region of a cell, numbered row-major from the top-left region.
pub open spec fn region_of(p: int) -> int {
    (row_of(p) / 3) * 3 + col_of(p) / 3
}

/// Zone `z` is row `z` for `z < 9`, column `z - 9` for `9 <= z < 18`, and
/// region `z - 18` for `18 <= z < 27`.
pub open spec fn in_zone(z: int, p: int) -> bool {
    if z < 9 {
        row_of(p) == z
    } else if z < 18 {
        col_of(p) == z - 9
    } else {
        region_of(p) == z - 18
    }
}

/// Two distinct cells that share a row, a column or a region.
pub open spec fn is_neighbor(p: int, q: int) -> bool {
    &&& p != q
    &&& (row_of(p) == row_of(q) || col_of(p) == col_of(q) || region_of(p) == region_of(q))
}

/// The `k`-th cell of zone `z`.
pub open spec fn zone_pos(z: int, k: int) -> int {
    if z < 9 {
        z * 9 + k
    } else if z < 18 {
        k * 9 + (z - 9)
    } else {
        ((z - 18) / 3) * 27 + ((z - 18) % 3) * 3 + (k / 3) * 9 + k % 3
    }
}

/// Where cell `p` stands in zone `z`.
pub open spec fn zone_slot(z: int, p: int) -> int {
    if z < 9 {
        col_of(p)
    } else if z < 18 {
        row_of(p)
    } else {
        (row_of(p) % 3) * 3 + col_of(p) % 3
    }
}

/// The `k`-th cell of a zone lies in that zone, at slot `k`.
pub proof fn lemma_zone_pos(z: int, k: int)
    requires
        0 <= z < 27,
        0 <= k < 9,
    ensures
        0 <= zone_pos(z, k) < 81,
        in_zone(z, zone_pos(z, k)),
        zone_slot(z, zone_pos(z, k)) == k,
{
    if z >= 18 {
        let b = z - 18;
        let p = zone_pos(z, k);
        assert(p == (b / 3) * 27 + (b % 3) * 3 + (k / 3) * 9 + k % 3);
        assert(row_of(p) == (b / 3) * 3 + k / 3);
        assert(col_of(p) == (b % 3) * 3 + k % 3);
    }
}

/// Every cell of a zone is found at its slot.
pub proof fn lemma_zone_slot(z: int, p: int)
    requires
        0 <= z < 27,
        0 <= p < 81,
        in_zone(z, p),
    ensures
        0 <= zone_slot(z, p) < 9,
        zone_pos(z, zone_slot(z, p)) == p,
{
    if z >= 18 {
        let r = row_of(p);
        let c = col_of(p);
        assert(p == r * 9 + c);
        let k = zone_slot(z, p);
        assert(k / 3 == r % 3);
        assert(k % 3 == c % 3);
        assert(z - 18 == (r / 3) * 3 + c / 3);
    }
}

/// The zones and the neighbour lists of every cell, computed once and then
/// only read.
pub struct ZoneIndex {
    zones: Vec<Vec<usize>>,
    neighbors: Vec<Vec<usize>>,
}

impl ZoneIndex {
    /// Zone `z` lists its cells in slot order, and the neighbour list of `p`
    /// holds exactly the neighbours of `p`, each once.
    pub closed spec fn wf(&self) -> bool {
        &&& self.zones@.len() == 27
        &&& forall|z: int|
            0 <= z < 27 ==> {
                &&& #[trigger] self.zones@[z]@.len() == 9
                &&& forall|k: int| 0 <= k < 9 ==> #[trigger] self.zones@[z]@[k] == zone_pos(z, k)
            }
        &&& self.neighbors@.len() == 81
        &&& forall|p: int| 0 <= p < 81 ==> #[trigger] neighbor_list(p, self.neighbors@[p]@)
    }

    pub fn new() -> (r: ZoneIndex)
        ensures
            r.wf(),
    {
        let mut zones: Vec<Vec<usize>> = Vec::new();
        let mut z: usize = 0;
        while z < ZONES
            invariant
                z <= 27,
                zones@.len() == z,
                forall|y: int|
                    0 <= y < z ==> {
                        &&& #[trigger] zones@[y]@.len() == 9
                        &&& forall|k: int| 0 <= k < 9 ==> #[trigger] zones@[y]@[k] == zone_pos(y, k)
                    },
            decreases 27 - z,
        {
            let mut zone: Vec<usize> = Vec::new();
            let mut k: usize = 0;
            while k < 9
                invariant
                    z < 27,
                    k <= 9,
                    zone@.len() == k,
                    forall|j: int| 0 <= j < k ==> #[trigger] zone@[j] == zone_pos(z as int, j),
                decreases 9 - k,
            {
                let p: usize = if z < 9 {
                    z * 9 + k
                } else if z < 18 {
                    k * 9 + (z - 9)
                } else {
                    ((z - 18) / 3) * 27 + ((z - 18) % 3) * 3 + (k / 3) * 9 + k % 3
                };
                zone.push(p);
                k += 1;
            }
            zones.push(zone);
            z += 1;
        }
        let mut neighbors: Vec<Vec<usize>> = Vec::new();
        let mut p: usize = 0;
        while p < CELLS
            invariant
                p <= 81,
                neighbors@.len() == p,
                forall|o: int| 0 <= o < p ==> #[trigger] neighbor_list(o, neighbors@[o]@),
            decreases 81 - p,
        {
            let list = cell_neighbors(p);
            neighbors.push(list);
            p += 1;
        }
        ZoneIndex { zones, neighbors }
    }

    /// The `k`-th cell of zone `z`.
    pub fn zone_cell(&self, z: usize, k: usize) -> (r: usize)
        requires
            self.wf(),
            z < 27,
            k < 9,
        ensures
            r as int == zone_pos(z as int, k as int),
    {
        self.zones[z][k]
    }

    /// The neighbours of cell `p`.
    pub fn neighbors_of(&self, p: usize) -> (r: &Vec<usize>)
        requires
            self.wf(),
            p < 81,
        ensures
            r@ == self.neighbors_of_spec(p as int),
            neighbor_list(p as int, r@),
    {
        &self.neighbors[p]
    }

    /// How many neighbours cell `p` has.
    pub fn neighbor_count(&self, p: usize) -> (r: usize)
        requires
            self.wf(),
            p < 81,
        ensures
            r == 20,
            r == self.neighbors_of_spec(p as int).len(),
            neighbor_list(p as int, self.neighbors_of_spec(p as int)),
    {
        assert(neighbor_list(p as int, self.neighbors@[p as int]@));
        self.neighbors[p].len()
    }

    /// The neighbour list of cell `p`.
    pub closed spec fn neighbors_of_spec(&self, p: int) -> Seq<usize> {
        self.neighbors@[p]@
    }
}

/// `list` holds exactly the neighbours of `p`, each once: the other eight
/// cells of its row, the other eight of its column, and the four cells of its
/// region that share neither, twenty in all.
pub open spec fn neighbor_list(p: int, list: Seq<usize>) -> bool {
    &&& forall|i: int| 0 <= i < list.len() ==> is_neighbor(p, #[trigger] list[i] as int)
    &&& list.no_duplicates()
    &&& forall|i: int| 0 <= i < list.len() ==> list[i] < 81
    &&& forall|q: int| 0 <= q < 81 && is_neighbor(p, q) ==> list.contains(q as usize)
    &&& list.len() == 20
}

proof fn lemma_push_new(s: Seq<usize>, q: usize)
    requires
        s.no_duplicates(),
        !s.contains(q),
    ensures
        s.push(q).no_duplicates(),
        forall|x: usize| #[trigger] s.push(q).contains(x) <==> (s.contains(x) || x == q),
{
    let t = s.push(q);
    assert forall|x: usize| #[trigger] t.contains(x) <==> (s.contains(x) || x == q) by {
        if t.contains(x) && x != q {
            let i = choose|i: int| 0 <= i < t.len() && t[i] == x;
            assert(s[i] == x);
        }
        if s.contains(x) {
            let i = choose|i: int| 0 <= i < s.len() && s[i] == x;
            assert(t[i] == x);
        }
        if x == q {
            assert(t[s.len() as int] == x);
        }
    }
    assert forall|i: int, j: int| 0 <= i < t.len() && 0 <= j < t.len() && i != j implies t[i]
        != t[j] by {
        if i == s.len() {
            assert(s.contains(t[j]));
        } else if j == s.len() {
            assert(s.contains(t[i]));
        }
    }
}

/// The neighbours of cell `p`: its row, then its column, then the rest of its
/// region.
fn cell_neighbors(p: usize) -> (list: Vec<usize>)
    requires
        p < 81,
    ensures
        neighbor_list(p as int, list@),
{
    let r = p / 9;
    let c = p % 9;
    let mut list: Vec<usize> = Vec::new();
    let mut k: usize = 0;
    while k < 9
        invariant
            p < 81,
            r == row_of(p as int),
            c == col_of(p as int),
            k <= 9,
            list@.len() == if k > c { k - 1 } else { k as int },
            list@.no_duplicates(),
            forall|i: int|
                0 <= i < list@.len() ==> {
                    &&& #[trigger] list@[i] < 81
                    &&& is_neighbor(p as int, list@[i] as int)
                    &&& row_of(list@[i] as int) == r
                    &&& col_of(list@[i] as int) < k
                },
            forall|x: usize|
                x < 81 && x != p && row_of(x as int) == r && col_of(x as int) < k
                    ==> #[trigger] list@.contains(x),
        decreases 9 - k,
    {
        if k != c {
            let q = r * 9 + k;
            proof {
                lemma_push_new(list@, q);
            }
            list.push(q);
        }
        k += 1;
    }
    let mut k: usize = 0;
    while k < 9
        invariant
            p < 81,
            r == row_of(p as int),
            c == col_of(p as int),
            k <= 9,
            list@.len() == 8 + if k > r { k - 1 } else { k as int },
            list@.no_duplicates(),
            forall|i: int|
                0 <= i < list@.len() ==> {
                    &&& #[trigger] list@[i] < 81
                    &&& is_neighbor(p as int, list@[i] as int)
                    &&& (row_of(list@[i] as int) == r || (col_of(list@[i] as int) == c && row_of(
                        list@[i] as int,
                    ) < k))
                },
            forall|x: usize|
                x < 81 && x != p && (row_of(x as int) == r || (col_of(x as int) == c && row_of(
                    x as int,
                ) < k)) ==> #[trigger] list@.contains(x),
        decreases 9 - k,
    {
        if k != r {
            let q = k * 9 + c;
            proof {
                lemma_push_new(list@, q);
            }
            list.push(q);
        }
        k += 1;
    }
    let br = (r / 3) * 3;
    let bc = (c / 3) * 3;
    let mut i: usize = 0;
    while i < 3
        invariant
            p < 81,
            r == row_of(p as int),
            c == col_of(p as int),
            br == (r / 3) * 3,
            bc == (c / 3) * 3,
            i <= 3,
            list@.len() == 16 + 2 * (if i > r - br { i - 1 } else { i as int }),
            list@.no_duplicates(),
            forall|e: int|
                0 <= e < list@.len() ==> {
                    &&& #[trigger] list@[e] < 81
                    &&& is_neighbor(p as int, list@[e] as int)
                    &&& (row_of(list@[e] as int) == r || col_of(list@[e] as int) == c || (
                    region_of(list@[e] as int) == region_of(p as int) && row_of(list@[e] as int)
                        < br + i))
                },
            forall|x: usize|
                x < 81 && x != p && (row_of(x as int) == r || col_of(x as int) == c || (region_of(
                    x as int,
                ) == region_of(p as int) && row_of(x as int) < br + i))
                    ==> #[trigger] list@.contains(x),
        decreases 3 - i,
    {
        if br + i != r {
            let mut j: usize = 0;
            while j < 3
                invariant
                    p < 81,
                    r == row_of(p as int),
                    c == col_of(p as int),
                    br == (r / 3) * 3,
                    bc == (c / 3) * 3,
                    i < 3,
                    br + i != r,
                    j <= 3,
                    list@.len() == 16 + 2 * (if i > r - br { i - 1 } else { i as int }) + (if j
                        > c - bc {
                        j - 1
                    } else {
                        j as int
                    }),
                    list@.no_duplicates(),
                    forall|e: int|
                        0 <= e < list@.len() ==> {
                            &&& #[trigger] list@[e] < 81
                            &&& is_neighbor(p as int, list@[e] as int)
                            &&& (row_of(list@[e] as int) == r || col_of(list@[e] as int) == c || (
                            region_of(list@[e] as int) == region_of(p as int) && (row_of(
                                list@[e] as int,
                            ) < br + i || (row_of(list@[e] as int) == br + i && col_of(
                                list@[e] as int,
                            ) < bc + j))))
                        },
                    forall|x: usize|
                        x < 81 && x != p && (row_of(x as int) == r || col_of(x as int) == c || (
                        region_of(x as int) == region_of(p as int) && (row_of(x as int) < br + i
                            || (row_of(x as int) == br + i && col_of(x as int) < bc + j))))
                            ==> #[trigger] list@.contains(x),
                decreases 3 - j,
            {
                if bc + j != c {
                    let q = (br + i) * 9 + bc + j;
                    proof {
                        lemma_push_new(list@, q);
                    }
                    list.push(q);
                }
                j += 1;
            }
        }
        i += 1;
    }
    list
}

} // verus!
