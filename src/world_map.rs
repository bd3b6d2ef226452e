use vstd::prelude::*;

verus! {

use crate::dto::MapPositionDto;
use crate::models::MapTile;

/// The smallest and largest grid coordinates of the world map.
pub struct MapMinMax {
    pub x_min: i16,
    pub x_max: i16,
    pub y_min: i16,
    pub y_max: i16,
}

impl MapMinMax {
    pub fn new(x_min: i16, x_max: i16, y_min: i16, y_max: i16) -> (r: MapMinMax)
        ensures
            r == (MapMinMax { x_min, x_max, y_min, y_max }),
    {
        MapMinMax { x_min, x_max, y_min, y_max }
    }

    /// The bounds of a set of tiles; none for no tiles.
    pub fn of_tiles(tiles: &Vec<MapTile>) -> (r: Option<MapMinMax>)
        ensures
            tiles@.len() == 0 <==> r is None,
            r matches Some(b) ==> {
                &&& forall|i: int| 0 <= i < tiles@.len() ==> b.x_min <= #[trigger] tiles@[i].x <= b.x_max
                &&& forall|i: int| 0 <= i < tiles@.len() ==> b.y_min <= #[trigger] tiles@[i].y <= b.y_max
                &&& exists|i: int| 0 <= i < tiles@.len() && #[trigger] tiles@[i].x == b.x_min
                &&& exists|i: int| 0 <= i < tiles@.len() && #[trigger] tiles@[i].x == b.x_max
                &&& exists|i: int| 0 <= i < tiles@.len() && #[trigger] tiles@[i].y == b.y_min
                &&& exists|i: int| 0 <= i < tiles@.len() && #[trigger] tiles@[i].y == b.y_max
            },
    {
        if tiles.len() == 0 {
            return None;
        }
        let mut b = MapMinMax { x_min: tiles[0].x, x_max: tiles[0].x, y_min: tiles[0].y, y_max: tiles[0].y };
        let ghost mut wx_min: int = 0;
        let ghost mut wx_max: int = 0;
        let ghost mut wy_min: int = 0;
        let ghost mut wy_max: int = 0;
        let mut k: usize = 1;
        while k < tiles.len()
            invariant
                1 <= k <= tiles@.len(),
                forall|i: int| 0 <= i < k ==> b.x_min <= #[trigger] tiles@[i].x <= b.x_max,
                forall|i: int| 0 <= i < k ==> b.y_min <= #[trigger] tiles@[i].y <= b.y_max,
                0 <= wx_min < k && tiles@[wx_min].x == b.x_min,
                0 <= wx_max < k && tiles@[wx_max].x == b.x_max,
                0 <= wy_min < k && tiles@[wy_min].y == b.y_min,
                0 <= wy_max < k && tiles@[wy_max].y == b.y_max,
            decreases tiles@.len() - k,
        {
            let x = tiles[k].x;
            let y = tiles[k].y;
            if x < b.x_min {
                b.x_min = x;
                proof { wx_min = k as int; }
            }
            if x > b.x_max {
                b.x_max = x;
                proof { wx_max = k as int; }
            }
            if y < b.y_min {
                b.y_min = y;
                proof { wy_min = k as int; }
            }
            if y > b.y_max {
                b.y_max = y;
                proof { wy_max = k as int; }
            }
            k += 1;
        }
        Some(b)
    }
}

/// Positions below `k` in `ts` that hold `id`, in increasing order.
pub open spec fn positions_of(ts: Seq<i32>, id: i32, k: int) -> Seq<usize>
    decreases k,
{
    if k <= 0 || k > ts.len() {
        Seq::empty()
    } else if ts[k - 1] == id {
        positions_of(ts, id, k - 1).push((k - 1) as usize)
    } else {
        positions_of(ts, id, k - 1)
    }
}

/// For each of the first `m` sub-areas that has a tile, in order: its
/// position and the positions of its tiles.
pub open spec fn groups(ids: Seq<i32>, ts: Seq<i32>, m: int) -> Seq<(usize, Seq<usize>)>
    decreases m,
{
    if m <= 0 || m > ids.len() {
        Seq::empty()
    } else if positions_of(ts, ids[m - 1], ts.len() as int).len() > 0 {
        groups(ids, ts, m - 1).push(((m - 1) as usize, positions_of(ts, ids[m - 1], ts.len() as int)))
    } else {
        groups(ids, ts, m - 1)
    }
}

pub open spec fn groups_view(v: Seq<(usize, Vec<usize>)>) -> Seq<(usize, Seq<usize>)> {
    v.map_values(|e: (usize, Vec<usize>)| (e.0, e.1@))
}

/// Groups map tiles by sub-area: `sub_area_ids` are the ids of the
/// sub-areas, `tile_sub_areas` the sub-area id of each tile. Returns, for
/// each sub-area that has a tile, in order, its position and the positions
/// of its tiles; sub-areas without a tile are left out.
pub fn group_tiles(sub_area_ids: &Vec<i32>, tile_sub_areas: &Vec<i32>) -> (r: Vec<(usize, Vec<usize>)>)
    ensures
        groups_view(r@) == groups(sub_area_ids@, tile_sub_areas@, sub_area_ids@.len() as int),
{
    let mut out: Vec<(usize, Vec<usize>)> = Vec::new();
    let mut i: usize = 0;
    while i < sub_area_ids.len()
        invariant
            i <= sub_area_ids@.len(),
            groups_view(out@) == groups(sub_area_ids@, tile_sub_areas@, i as int),
        decreases sub_area_ids@.len() - i,
    {
        let id = sub_area_ids[i];
        let mut own: Vec<usize> = Vec::new();
        let mut j: usize = 0;
        while j < tile_sub_areas.len()
            invariant
                j <= tile_sub_areas@.len(),
                own@ == positions_of(tile_sub_areas@, id, j as int),
            decreases tile_sub_areas@.len() - j,
        {
            if tile_sub_areas[j] == id {
                own.push(j);
            }
            j += 1;
        }
        let ghost before = out@;
        if own.len() > 0 {
            out.push((i, own));
            proof {
                assert(groups_view(out@) =~= groups_view(before).push((i, positions_of(tile_sub_areas@, id, tile_sub_areas@.len() as int))));
            }
        }
        i += 1;
    }
    out
}

/// The positions of `s` that are not at (x, y), in order.
pub open spec fn without_pos(s: Seq<MapPositionDto>, x: i16, y: i16) -> Seq<MapPositionDto>
    decreases s.len(),
{
    if s.len() == 0 {
        s
    } else if s.last().x == x && s.last().y == y {
        without_pos(s.drop_last(), x, y)
    } else {
        without_pos(s.drop_last(), x, y).push(s.last())
    }
}

/// Some position of `s` is at (x, y).
pub open spec fn occupied(s: Seq<MapPositionDto>, x: i16, y: i16) -> bool {
    exists|i: int| 0 <= i < s.len() && #[trigger] s[i].x == x && s[i].y == y
}

/// Places `p` on the map: a position with priority replaces whatever is at
/// its coordinates; one without priority is kept only on a free spot.
pub open spec fn place(s: Seq<MapPositionDto>, p: MapPositionDto) -> Seq<MapPositionDto> {
    if p.has_priority {
        without_pos(s, p.x, p.y).push(p)
    } else if occupied(s, p.x, p.y) {
        s
    } else {
        s.push(p)
    }
}

/// Places the first `k` positions of `page`, in order.
pub open spec fn place_all(s: Seq<MapPositionDto>, page: Seq<MapPositionDto>, k: int) -> Seq<MapPositionDto>
    decreases k,
{
    if k <= 0 || k > page.len() {
        s
    } else {
        place(place_all(s, page, k - 1), page[k - 1])
    }
}

/// No two positions of `s` share their coordinates.
pub open spec fn distinct_spots(s: Seq<MapPositionDto>) -> bool {
    forall|i: int, j: int| 0 <= i < j < s.len() ==> !(s[i].x == s[j].x && s[i].y == s[j].y)
}

proof fn lemma_without_pos(s: Seq<MapPositionDto>, x: i16, y: i16)
    ensures
        forall|i: int| 0 <= i < without_pos(s, x, y).len() ==> #[trigger] s.contains(without_pos(s, x, y)[i]),
        !occupied(without_pos(s, x, y), x, y),
        distinct_spots(s) ==> distinct_spots(without_pos(s, x, y)),
    decreases s.len(),
{
    if s.len() > 0 {
        let t = s.drop_last();
        lemma_without_pos(t, x, y);
        let w = without_pos(t, x, y);
        assert forall|i: int| 0 <= i < w.len() implies #[trigger] s.contains(w[i]) by {
            assert(t.contains(w[i]));
            let j = choose|j: int| 0 <= j < t.len() && t[j] == w[i];
            assert(s[j] == w[i]);
        }
        if !(s.last().x == x && s.last().y == y) {
            let v = w.push(s.last());
            assert forall|i: int| 0 <= i < v.len() implies #[trigger] s.contains(v[i]) by {
                if i < w.len() {
                    assert(v[i] == w[i]);
                } else {
                    assert(s[s.len() - 1] == v[i]);
                }
            }
            if distinct_spots(s) {
                assert forall|i: int, j: int| 0 <= i < j < v.len() implies !(v[i].x == v[j].x && v[i].y == v[j].y) by {
                    if j == v.len() - 1 {
                        assert(t.contains(w[i]));
                        let k = choose|k: int| 0 <= k < t.len() && t[k] == w[i];
                        assert(s[k] == v[i]);
                        assert(v[j] == s[s.len() - 1]);
                    } else {
                        assert(distinct_spots(t));
                        assert(v[i] == w[i] && v[j] == w[j]);
                    }
                }
            }
        } else {
            if distinct_spots(s) {
                assert(distinct_spots(t));
            }
        }
    }
}

/// Places one position.
fn place_one(placed: &mut Vec<MapPositionDto>, p: MapPositionDto)
    ensures
        final(placed)@ == place(old(placed)@, p),
        distinct_spots(old(placed)@) ==> distinct_spots(final(placed)@),
{
    proof {
        let s = old(placed)@;
        lemma_without_pos(s, p.x, p.y);
        if distinct_spots(s) {
            let w = without_pos(s, p.x, p.y);
            if p.has_priority {
                let v = w.push(p);
                assert forall|i: int, j: int| 0 <= i < j < v.len() implies !(v[i].x == v[j].x && v[i].y == v[j].y) by {
                    if j == v.len() - 1 {
                        assert(v[i] == w[i]);
                        assert(!(w[i].x == p.x && w[i].y == p.y));
                    } else {
                        assert(v[i] == w[i] && v[j] == w[j]);
                    }
                }
            } else if !occupied(s, p.x, p.y) {
                let v = s.push(p);
                assert forall|i: int, j: int| 0 <= i < j < v.len() implies !(v[i].x == v[j].x && v[i].y == v[j].y) by {
                    if j == v.len() - 1 {
                        assert(v[i] == s[i]);
                        assert(!(s[i].x == p.x && s[i].y == p.y));
                    } else {
                        assert(v[i] == s[i] && v[j] == s[j]);
                    }
                }
            }
        }
    }
    if p.has_priority {
        let mut kept: Vec<MapPositionDto> = Vec::new();
        let mut i: usize = 0;
        while i < placed.len()
            invariant
                i <= placed@.len(),
                placed@ == old(placed)@,
                kept@ == without_pos(placed@.take(i as int), p.x, p.y),
            decreases placed@.len() - i,
        {
            let t = placed[i];
            proof {
                assert(placed@.take(i + 1).drop_last() =~= placed@.take(i as int));
                assert(placed@.take(i + 1).last() == t);
            }
            if !(t.x == p.x && t.y == p.y) {
                kept.push(t);
            }
            i += 1;
        }
        proof {
            assert(placed@.take(placed@.len() as int) =~= placed@);
        }
        kept.push(p);
        *placed = kept;
    } else {
        let mut i: usize = 0;
        while i < placed.len()
            invariant
                i <= placed@.len(),
                placed@ == old(placed)@,
                !p.has_priority,
                forall|j: int| 0 <= j < i ==> !(#[trigger] placed@[j].x == p.x && placed@[j].y == p.y),
            decreases placed@.len() - i,
        {
            if placed[i].x == p.x && placed[i].y == p.y {
                proof {
                    assert(placed@[i as int].x == p.x && placed@[i as int].y == p.y);
                    assert(occupied(placed@, p.x, p.y));
                }
                return;
            }
            i += 1;
        }
        placed.push(p);
    }
}

/// Places a page of map positions, in order, on the positions placed so far.
pub fn place_positions(placed: &mut Vec<MapPositionDto>, page: &Vec<MapPositionDto>)
    ensures
        final(placed)@ == place_all(old(placed)@, page@, page@.len() as int),
        distinct_spots(old(placed)@) ==> distinct_spots(final(placed)@),
{
    let mut k: usize = 0;
    while k < page.len()
        invariant
            k <= page@.len(),
            placed@ == place_all(old(placed)@, page@, k as int),
            distinct_spots(old(placed)@) ==> distinct_spots(placed@),
        decreases page@.len() - k,
    {
        place_one(placed, page[k]);
        k += 1;
    }
}

} // verus!
