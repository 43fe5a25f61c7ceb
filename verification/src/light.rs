//! The light propagator's mathematics and its verified building blocks.
//! From every light source a beam runs outward along each of the six
//! directions; the beam's remaining intensity sinks at every visited cell
//! by that cell's opaqueness (nothing at the source cell itself), and the
//! beam ends once nothing remains.  A cell keeps the greatest value any
//! beam of any source brings it.

use vstd::prelude::*;

use crate::coord_map::CoordMap;
use crate::hex::COORD_RANGE;
use crate::hex::Coord;
use crate::hex::Direction;
use crate::hex::in_range;
use crate::hex::spec_step;
use crate::tile::Tile;
use crate::tile::tile_wf;

verus! {

/// The cell `k` steps from `src` in direction `d`.
pub open spec fn ray_cell(src: Coord, d: Direction, k: int) -> Coord
    decreases k,
{
    if k <= 0 {
        src
    } else {
        spec_step(ray_cell(src, d, k - 1), d)
    }
}

/// What one step across `c` takes from a beam of strength `b`: the cell's
/// opaqueness, or the whole strength where the map ends.
pub open spec fn ray_att(m: Map<Coord, Tile>, b: u16, c: Coord) -> int {
    if m.contains_key(c) {
        m[c].opaqueness as int
    } else {
        b as int
    }
}

/// What remains of a beam of strength `b` when it arrives at its `k`-th
/// cell.  The source cell itself attenuates nothing, so the first two
/// cells both receive the full strength.
pub open spec fn ray_rem(m: Map<Coord, Tile>, src: Coord, b: u16, d: Direction, k: int) -> int
    decreases k,
{
    if k <= 1 {
        b as int
    } else {
        ray_rem(m, src, b, d, k - 1) - ray_att(m, b, ray_cell(src, d, k - 1))
    }
}

/// The beam of (`src`, `b`) along `d` carries the value `v` to the cell
/// `c`: some visited cell index puts `c` there with `v` remaining.
pub open spec fn dir_beam(
    m: Map<Coord, Tile>,
    src: Coord,
    b: u16,
    d: Direction,
    c: Coord,
    v: int,
) -> bool {
    exists|k: int|
        0 <= k && c == ray_cell(src, d, k) && v == #[trigger] ray_rem(m, src, b, d, k) && v > 0
}

/// Some beam of the source (`src`, `b`) carries the value `v` to `c`.
pub open spec fn beam_gives(m: Map<Coord, Tile>, src: Coord, b: u16, c: Coord, v: int) -> bool {
    exists|d: Direction| #[trigger] dir_beam(m, src, b, d, c, v)
}

/// A beam never carries more than its source strength.
pub proof fn lemma_ray_rem_le(m: Map<Coord, Tile>, src: Coord, b: u16, d: Direction, k: int)
    ensures
        ray_rem(m, src, b, d, k) <= b as int,
    decreases k,
{
    if k > 1 {
        lemma_ray_rem_le(m, src, b, d, k - 1);
        if m.contains_key(ray_cell(src, d, k - 1)) {
        }
    }
}

/// What a beam carries anywhere is positive and at most its strength.
pub proof fn lemma_beam_value_le(m: Map<Coord, Tile>, src: Coord, b: u16, c: Coord, v: int)
    requires
        beam_gives(m, src, b, c, v),
    ensures
        0 < v <= b as int,
{
    let d = choose|d: Direction| #[trigger] dir_beam(m, src, b, d, c, v);
    let k = choose|k: int|
        0 <= k && c == ray_cell(src, d, k) && v == #[trigger] ray_rem(m, src, b, d, k) && v > 0;
    lemma_ray_rem_le(m, src, b, d, k);
}

/// Over a map whose tiles all attenuate, a beam loses at least one unit
/// per visited cell beyond the first.
pub proof fn lemma_ray_rem_sinks(m: Map<Coord, Tile>, src: Coord, b: u16, d: Direction, k1: int, k2: int)
    requires
        forall|c: Coord| #[trigger] m.contains_key(c) ==> tile_wf(m[c]),
        b >= 1,
        1 <= k1 <= k2,
    ensures
        ray_rem(m, src, b, d, k2) <= ray_rem(m, src, b, d, k1) - (k2 - k1),
    decreases k2 - k1,
{
    if k2 > k1 {
        lemma_ray_rem_sinks(m, src, b, d, k1, k2 - 1);
        let c = ray_cell(src, d, k2 - 1);
        if m.contains_key(c) {
            assert(tile_wf(m[c]));
        }
    }
}

/// What a push leaves in place: every held element is still held, and
/// the pushed one is.
pub proof fn lemma_push_contains<T>(s: Seq<T>, e: T, x: T)
    ensures
        s.contains(x) ==> s.push(e).contains(x),
        s.push(e).contains(e),
{
    if s.contains(x) {
        let i = choose|i: int| 0 <= i < s.len() && s[i] == x;
        assert(s.push(e)[i] == x);
    }
    assert(s.push(e)[s.len() as int] == e);
}

/// Records the value `v` for the cell `c` unless the field already holds
/// as much there.
pub fn merge_max(field: &mut CoordMap<u32>, c: Coord, v: u32)
    requires
        old(field).wf(),
    ensures
        final (field).wf(),
        final (field)@ == (if old(field)@.contains_key(c) && old(field)@[c] >= v {
            old(field)@
        } else {
            old(field)@.insert(c, v)
        }),
{
    let keep = match field.get(c) {
        Some(w) => *w >= v,
        None => false,
    };
    if !keep {
        field.insert(c, v);
    }
}

/// Folds a list of (cell, value) candidates into a field holding, for
/// every mentioned cell, the greatest value any candidate brings it.
pub fn fold_max(cs: &Vec<(Coord, u32)>) -> (field: CoordMap<u32>)
    ensures
        field.wf(),
        forall|c: Coord| #[trigger]
            field@.contains_key(c) ==> cs@.contains((c, field@[c])),
        forall|i: int|
            0 <= i < cs@.len() ==> field@.contains_key((#[trigger] cs@[i]).0) && cs@[i].1
                <= field@[cs@[i].0],
{
    let n = cs.len();
    let mut field = CoordMap::<u32>::new();
    let mut i: usize = 0;
    while i < n
        invariant
            n == cs@.len(),
            0 <= i <= n,
            field.wf(),
            forall|c: Coord| #[trigger]
                field@.contains_key(c) ==> cs@.contains((c, field@[c])),
            forall|j: int|
                0 <= j < i ==> field@.contains_key((#[trigger] cs@[j]).0) && cs@[j].1
                    <= field@[cs@[j].0],
        decreases n - i,
    {
        let (c, v) = cs[i];
        proof {
            assert(cs@[i as int] == (c, v));
        }
        merge_max(&mut field, c, v);
        proof {
            if !(field@.contains_key(c) && field@[c] != v) {
            }
            assert(cs@.contains(cs@[i as int]));
        }
        i += 1;
    }
    field
}

/// Walks every beam of the source (`src`, `b`) and appends each visited
/// cell with the value the beam carries there.
pub fn collect_beams(map: &CoordMap<Tile>, src: Coord, b: u16, out: &mut Vec<(Coord, u32)>)
    requires
        map.wf(),
        forall|c: Coord| #[trigger] map@.contains_key(c) ==> in_range(c) && tile_wf(map@[c]),
        in_range(src),
        b >= 1,
    ensures
        old(out)@.len() <= final (out)@.len(),
        forall|j: int| 0 <= j < old(out)@.len() ==> final (out)@[j] == #[trigger] old(out)@[j],
        forall|j: int|
            old(out)@.len() <= j < final (out)@.len() ==> beam_gives(
                map@,
                src,
                b,
                (#[trigger] final (out)@[j]).0,
                final (out)@[j].1 as int,
            ),
        forall|c: Coord, v: int| #[trigger]
            beam_gives(map@, src, b, c, v) ==> final (out)@.contains((c, v as u32)),
{
    let ghost m = map@;
    let ghost base = out@;
    out.push((src, b as u32));
    proof {
        assert(ray_cell(src, Direction::North, 0) == src);
        assert(ray_rem(m, src, b, Direction::North, 0) == b as int);
        assert(dir_beam(m, src, b, Direction::North, src, b as int));
    }
    let dirs = Direction::all();
    let mut di: usize = 0;
    while di < 6
        invariant
            map.wf(),
            m == map@,
            forall|c: Coord| #[trigger] m.contains_key(c) ==> in_range(c) && tile_wf(m[c]),
            in_range(src),
            b >= 1,
            dirs@.len() == 6,
            forall|i: int| 0 <= i < 6 ==> dirs@[i] == crate::hex::dir_of_index(i),
            0 <= di <= 6,
            base.len() + 1 <= out@.len(),
            forall|j: int| 0 <= j < base.len() ==> out@[j] == #[trigger] base[j],
            out@[base.len() as int] == (src, b as u32),
            forall|j: int|
                base.len() <= j < out@.len() ==> beam_gives(
                    m,
                    src,
                    b,
                    (#[trigger] out@[j]).0,
                    out@[j].1 as int,
                ),
            forall|dd: Direction, c: Coord, v: int|
                crate::hex::dir_index(dd) < di && #[trigger] dir_beam(m, src, b, dd, c, v)
                    ==> out@.contains((c, v as u32)),
        decreases 6 - di,
    {
        let d = dirs[di];
        let ghost dd = d;
        let mut cur = src.step(d);
        let mut rem: i64 = b as i64;
        let mut k: u32 = 1;
        proof {
            assert(ray_cell(src, dd, 1) == spec_step(ray_cell(src, dd, 0), dd));
            assert(ray_rem(m, src, b, dd, 1) == b as int);
        }
        while rem > 0
            invariant
                map.wf(),
                m == map@,
                forall|c: Coord| #[trigger] m.contains_key(c) ==> in_range(c) && tile_wf(m[c]),
                in_range(src),
                b >= 1,
                dd == d,
                1 <= k,
                rem as int <= b as int - (k as int - 1),
                k as int <= b as int + 1,
                cur == ray_cell(src, dd, k as int),
                rem as int == ray_rem(m, src, b, dd, k as int) || (rem == 0 && ray_rem(
                    m,
                    src,
                    b,
                    dd,
                    k as int,
                ) <= 0),
                src.x - k as int <= cur.x <= src.x + k as int,
                src.y - k as int <= cur.y <= src.y + k as int,
                base.len() + 1 <= out@.len(),
                forall|j: int| 0 <= j < base.len() ==> out@[j] == #[trigger] base[j],
                out@[base.len() as int] == (src, b as u32),
                forall|j: int|
                    base.len() <= j < out@.len() ==> beam_gives(
                        m,
                        src,
                        b,
                        (#[trigger] out@[j]).0,
                        out@[j].1 as int,
                    ),
                forall|d2: Direction, c: Coord, v: int|
                    crate::hex::dir_index(d2) < di && #[trigger] dir_beam(m, src, b, d2, c, v)
                        ==> out@.contains((c, v as u32)),
                forall|kk: int|
                    1 <= kk < k && ray_rem(m, src, b, dd, kk) > 0 ==> out@.contains(
                        (ray_cell(src, dd, kk), ray_rem(m, src, b, dd, kk) as u32),
                    ),
            decreases rem,
        {
            let ghost prev_out = out@;
            out.push((cur, rem as u32));
            proof {
                assert(dir_beam(m, src, b, dd, cur, rem as int));
                assert forall|j: int| 0 <= j < prev_out.len() implies out@[j] == prev_out[j] by {}
                assert(out@[prev_out.len() as int] == (cur, rem as u32));
                assert forall|d2: Direction, c: Coord, v: int|
                    crate::hex::dir_index(d2) < di && #[trigger] dir_beam(m, src, b, d2, c, v) implies out@.contains(
                    (c, v as u32),
                ) by {
                    lemma_push_contains(prev_out, (cur, rem as u32), (c, v as u32));
                }
                assert forall|kk: int|
                    1 <= kk < k + 1 && ray_rem(m, src, b, dd, kk) > 0 implies out@.contains(
                    (ray_cell(src, dd, kk), ray_rem(m, src, b, dd, kk) as u32),
                ) by {
                    if kk < k {
                        lemma_push_contains(
                            prev_out,
                            (cur, rem as u32),
                            (ray_cell(src, dd, kk), ray_rem(m, src, b, dd, kk) as u32),
                        );
                    } else {
                        assert(out@[prev_out.len() as int] == (cur, rem as u32));
                        assert(out@.contains((cur, rem as u32)));
                    }
                }
            }
            let att: i64 = match map.get(cur) {
                Some(t) => t.opaqueness as i64,
                None => b as i64,
            };
            proof {
                assert(att as int == ray_att(m, b, cur));
                if m.contains_key(cur) {
                    assert(tile_wf(m[cur]));
                }
                assert(att >= 1);
                assert(ray_cell(src, dd, k as int + 1) == spec_step(cur, dd));
                assert(ray_rem(m, src, b, dd, k as int + 1) == rem as int - att as int);
            }
            cur = cur.step(d);
            rem = if rem > att {
                rem - att
            } else {
                0
            };
            k = k + 1;
        }
        proof {
            assert forall|c: Coord, v: int| #[trigger] dir_beam(m, src, b, dd, c, v) implies out@.contains(
                (c, v as u32),
            ) by {
                let kk = choose|kk: int|
                    0 <= kk && c == ray_cell(src, dd, kk) && v == #[trigger] ray_rem(
                        m,
                        src,
                        b,
                        dd,
                        kk,
                    ) && v > 0;
                if kk == 0 {
                    assert(out@[base.len() as int] == (src, b as u32));
                    assert(out@.contains((c, v as u32)));
                } else if kk >= k as int {
                    lemma_ray_rem_sinks(m, src, b, dd, k as int, kk);
                    assert(false);
                }
            }
        }
        di += 1;
        proof {
            assert forall|d2: Direction, c: Coord, v: int|
                crate::hex::dir_index(d2) < di && #[trigger] dir_beam(m, src, b, d2, c, v) implies out@.contains(
                (c, v as u32),
            ) by {
                if crate::hex::dir_index(d2) == di - 1 {
                    assert(crate::hex::dir_of_index(crate::hex::dir_index(d2)) == d2);
                    assert(d2 == dd);
                }
            }
        }
    }
    proof {
        assert forall|c: Coord, v: int| #[trigger] beam_gives(m, src, b, c, v) implies out@.contains(
            (c, v as u32),
        ) by {
            let d2 = choose|d2: Direction| #[trigger] dir_beam(m, src, b, d2, c, v);
            assert(crate::hex::dir_index(d2) < 6);
        }
    }
}

} // verus!
