//! Room-grammar vocabulary: templates occupy rectangles on an integer cell
//! grid and expose doors on their edges; a realm layout is the placed rooms
//! plus the passages between them.

use vstd::prelude::*;
use crate::hash::{StateHasher, fnv_fold, le_bytes_u64, le_bytes_i32, str_eq, FNV_OFFSET, lemma_fnv_fold_append};
use crate::pcg::{Pcg32, lemire_draw, lemire_budget, pcg_output, pcg_step};
use crate::combat::swap_out;

verus! {

#[derive(Clone, Copy, PartialEq, Eq, Debug, Structural)]
pub enum Side {
    North,
    South,
    East,
    West,
}

pub open spec fn spec_opposite(s: Side) -> Side {
    match s {
        Side::North => Side::South,
        Side::South => Side::North,
        Side::East => Side::West,
        Side::West => Side::East,
    }
}

impl Side {
    pub fn opposite(self) -> (r: Side)
        ensures
            r == spec_opposite(self),
    {
        match self {
            Side::North => Side::South,
            Side::South => Side::North,
            Side::East => Side::West,
            Side::West => Side::East,
        }
    }
}

/// Law: the opposite of the opposite side is the side itself, and no side
/// is its own opposite.
pub proof fn law_opposite_involution(s: Side)
    ensures
        spec_opposite(spec_opposite(s)) == s,
        spec_opposite(s) != s,
{
}

#[derive(Clone, Copy, PartialEq, Eq, Debug, Structural)]
pub struct Door {
    pub side: Side,
    /// Cell offset along the wall (0-based from the wall's min corner).
    pub offset: u32,
}

/// Authored room template. Sizes are in layout cells. `weight_bits` holds the
/// bit pattern of the template's `f32` selection weight.
#[derive(Clone, Debug)]
pub struct RoomTemplate {
    pub name: String,
    pub width: u32,
    pub height: u32,
    pub doors: Vec<Door>,
    pub tags: Vec<String>,
    pub weight_bits: u32,
}

#[derive(Clone, Debug)]
pub struct RealmGrammar {
    /// Template name the layout starts from.
    pub start: String,
    /// Stop growing once this many rooms are placed.
    pub target_rooms: u32,
    /// Allowed tag adjacencies (a, b) — symmetric. Empty = everything connects.
    pub allow: Vec<(String, String)>,
}

#[derive(Clone, Copy, Debug, PartialEq, Eq, Structural)]
pub struct PlacedRoom {
    pub template: usize,
    /// Min-corner cell position.
    pub x: i32,
    pub y: i32,
}

#[derive(Clone, Debug)]
pub struct RealmLayout {
    pub rooms: Vec<PlacedRoom>,
    /// (room a, room b, door cell) — the passage between them.
    pub connections: Vec<(usize, usize, (i32, i32))>,
}

/// Bytes hashed for one placed room.
pub open spec fn room_bytes(r: PlacedRoom) -> Seq<u8> {
    le_bytes_u64(r.template as u64) + le_bytes_i32(r.x) + le_bytes_i32(r.y)
}

/// Bytes hashed for one connection.
pub open spec fn connection_bytes(c: (usize, usize, (i32, i32))) -> Seq<u8> {
    le_bytes_u64(c.0 as u64) + le_bytes_u64(c.1 as u64) + le_bytes_i32(c.2.0) + le_bytes_i32(c.2.1)
}

pub open spec fn rooms_bytes(rs: Seq<PlacedRoom>) -> Seq<u8>
    decreases rs.len(),
{
    if rs.len() == 0 {
        Seq::empty()
    } else {
        rooms_bytes(rs.drop_last()) + room_bytes(rs.last())
    }
}

pub open spec fn connections_bytes(cs: Seq<(usize, usize, (i32, i32))>) -> Seq<u8>
    decreases cs.len(),
{
    if cs.len() == 0 {
        Seq::empty()
    } else {
        connections_bytes(cs.drop_last()) + connection_bytes(cs.last())
    }
}

/// The byte stream a layout's fingerprint is the FNV-1a hash of: every room,
/// then every connection, fields little-endian.
pub open spec fn layout_bytes(l: RealmLayout) -> Seq<u8> {
    rooms_bytes(l.rooms@) + connections_bytes(l.connections@)
}

impl RealmLayout {
    pub fn new() -> (r: Self)
        ensures
            r.rooms@ == Seq::<PlacedRoom>::empty(),
            r.connections@ == Seq::<(usize, usize, (i32, i32))>::empty(),
    {
        RealmLayout { rooms: Vec::new(), connections: Vec::new() }
    }

    /// Stable fingerprint for determinism tests.
    pub fn hash(&self) -> (h: u64)
        ensures
            h == fnv_fold(FNV_OFFSET, layout_bytes(*self)),
    {
        let mut h = StateHasher::new();
        let n = self.rooms.len();
        let mut i: usize = 0;
        while i < n
            invariant
                n == self.rooms@.len(),
                i <= n,
                h@ == fnv_fold(FNV_OFFSET, rooms_bytes(self.rooms@.take(i as int))),
            decreases n - i,
        {
            let r = self.rooms[i];
            let ghost h0 = h@;
            h.write_u64(r.template as u64);
            h.write_i32(r.x);
            h.write_i32(r.y);
            proof {
                let prev = rooms_bytes(self.rooms@.take(i as int));
                assert(self.rooms@.take(i as int + 1).drop_last() =~= self.rooms@.take(i as int));
                lemma_fnv_fold_append(FNV_OFFSET, prev, room_bytes(r));
                lemma_fnv_fold_append(h0, le_bytes_u64(r.template as u64), le_bytes_i32(r.x));
                lemma_fnv_fold_append(h0, le_bytes_u64(r.template as u64) + le_bytes_i32(r.x), le_bytes_i32(r.y));
            }
            i = i + 1;
        }
        assert(self.rooms@.take(n as int) =~= self.rooms@);
        let ghost base = rooms_bytes(self.rooms@);
        let m = self.connections.len();
        let mut j: usize = 0;
        while j < m
            invariant
                m == self.connections@.len(),
                j <= m,
                h@ == fnv_fold(FNV_OFFSET, base + connections_bytes(self.connections@.take(j as int))),
            decreases m - j,
        {
            let c = self.connections[j];
            let ghost h0 = h@;
            h.write_u64(c.0 as u64);
            h.write_u64(c.1 as u64);
            h.write_i32(c.2.0);
            h.write_i32(c.2.1);
            proof {
                let prev = connections_bytes(self.connections@.take(j as int));
                assert(self.connections@.take(j as int + 1).drop_last() =~= self.connections@.take(j as int));
                assert(base + (prev + connection_bytes(c)) =~= (base + prev) + connection_bytes(c));
                lemma_fnv_fold_append(FNV_OFFSET, base + prev, connection_bytes(c));
                let a = le_bytes_u64(c.0 as u64);
                let b = le_bytes_u64(c.1 as u64);
                let x = le_bytes_i32(c.2.0);
                let y = le_bytes_i32(c.2.1);
                lemma_fnv_fold_append(h0, a, b);
                lemma_fnv_fold_append(h0, a + b, x);
                lemma_fnv_fold_append(h0, a + b + x, y);
            }
            j = j + 1;
        }
        assert(self.connections@.take(m as int) =~= self.connections@);
        h.finish()
    }
}

/// (cell inside the room at the door, cell just outside) for a room of
/// `width` × `height` at (x, y).
pub open spec fn spec_door_cells(width: u32, height: u32, x: i32, y: i32, d: Door) -> ((int, int), (int, int)) {
    match d.side {
        Side::North => ((x + d.offset, y + height - 1), (x + d.offset, y + height)),
        Side::South => ((x + d.offset, y as int), (x + d.offset, y - 1)),
        Side::East => ((x + width - 1, y + d.offset), (x + width, y + d.offset)),
        Side::West => ((x as int, y + d.offset), (x - 1, y + d.offset)),
    }
}

/// All coordinates of a door's cells fit in `i32`.
pub open spec fn door_cells_fit(width: u32, height: u32, x: i32, y: i32, d: Door) -> bool {
    let (a, b) = spec_door_cells(width, height, x, y, d);
    &&& width <= i32::MAX && height <= i32::MAX && d.offset <= i32::MAX
    &&& i32::MIN <= a.0 <= i32::MAX && i32::MIN <= a.1 <= i32::MAX
    &&& i32::MIN <= b.0 <= i32::MAX && i32::MIN <= b.1 <= i32::MAX
    &&& i32::MIN <= x + width <= i32::MAX && i32::MIN <= y + height <= i32::MAX
}

/// (cell inside the room at the door, cell just outside).
pub fn door_cells(t: &RoomTemplate, x: i32, y: i32, d: Door) -> (r: ((i32, i32), (i32, i32)))
    requires
        door_cells_fit(t.width, t.height, x, y, d),
    ensures
        ((r.0.0 as int, r.0.1 as int), (r.1.0 as int, r.1.1 as int)) == spec_door_cells(t.width, t.height, x, y, d),
{
    let off = d.offset as i32;
    match d.side {
        Side::North => ((x + off, y + t.height as i32 - 1), (x + off, y + t.height as i32)),
        Side::South => ((x + off, y), (x + off, y - 1)),
        Side::East => ((x + t.width as i32 - 1, y + off), (x + t.width as i32, y + off)),
        Side::West => ((x, y + off), (x - 1, y + off)),
    }
}

/// Tag grammar: with no allow-list everything connects; otherwise a room
/// without tags connects to anything, and two tagged rooms connect when some
/// pair of their tags is allowed (in either order).
pub open spec fn spec_tags_allowed(allow: Seq<(Seq<char>, Seq<char>)>, a: Seq<Seq<char>>, b: Seq<Seq<char>>) -> bool {
    ||| allow.len() == 0
    ||| a.len() == 0
    ||| b.len() == 0
    ||| exists|i: int, j: int, k: int|
        0 <= i < a.len() && 0 <= j < b.len() && 0 <= k < allow.len() && #[trigger] pair_matches(allow[k], a[i], b[j])
}

pub open spec fn pair_matches(p: (Seq<char>, Seq<char>), ta: Seq<char>, tb: Seq<char>) -> bool {
    (p.0 == ta && p.1 == tb) || (p.0 == tb && p.1 == ta)
}

pub open spec fn allow_view(g: RealmGrammar) -> Seq<(Seq<char>, Seq<char>)> {
    g.allow@.map_values(|p: (String, String)| (p.0@, p.1@))
}

pub open spec fn tags_view(t: RoomTemplate) -> Seq<Seq<char>> {
    t.tags@.map_values(|s: String| s@)
}

fn pair_ok(g: &RealmGrammar, ta: &str, tb: &str) -> (r: bool)
    ensures
        r == exists|k: int| 0 <= k < g.allow@.len() && #[trigger] pair_matches(allow_view(*g)[k], ta@, tb@),
{
    let n = g.allow.len();
    let mut k: usize = 0;
    while k < n
        invariant
            n == g.allow@.len(),
            k <= n,
            forall|j: int| 0 <= j < k ==> !#[trigger] pair_matches(allow_view(*g)[j], ta@, tb@),
        decreases n - k,
    {
        let (x, y) = (&g.allow[k].0, &g.allow[k].1);
        let m = (str_eq(x.as_str(), ta) && str_eq(y.as_str(), tb)) || (str_eq(x.as_str(), tb) && str_eq(y.as_str(), ta));
        assert(allow_view(*g)[k as int] == (g.allow@[k as int].0@, g.allow@[k as int].1@));
        if m {
            assert(pair_matches(allow_view(*g)[k as int], ta@, tb@));
            return true;
        }
        k = k + 1;
    }
    false
}

/// Whether rooms of templates `a` and `b` may be adjacent under `g`.
pub fn tags_allowed(g: &RealmGrammar, a: &RoomTemplate, b: &RoomTemplate) -> (r: bool)
    ensures
        r == spec_tags_allowed(allow_view(*g), tags_view(*a), tags_view(*b)),
{
    if g.allow.len() == 0 {
        return true;
    }
    let na = a.tags.len();
    let nb = b.tags.len();
    let mut i: usize = 0;
    while i < na
        invariant
            na == a.tags@.len(),
            nb == b.tags@.len(),
            i <= na,
            forall|i2: int, j2: int, k2: int|
                0 <= i2 < i && 0 <= j2 < nb && 0 <= k2 < g.allow@.len() ==> !#[trigger] pair_matches(allow_view(*g)[k2], tags_view(*a)[i2], tags_view(*b)[j2]),
        decreases na - i,
    {
        let mut j: usize = 0;
        while j < nb
            invariant
                na == a.tags@.len(),
                nb == b.tags@.len(),
                i < na,
                j <= nb,
                forall|i2: int, j2: int, k2: int|
                    0 <= i2 < i && 0 <= j2 < nb && 0 <= k2 < g.allow@.len() ==> !#[trigger] pair_matches(allow_view(*g)[k2], tags_view(*a)[i2], tags_view(*b)[j2]),
                forall|j2: int, k2: int|
                    0 <= j2 < j && 0 <= k2 < g.allow@.len() ==> !#[trigger] pair_matches(allow_view(*g)[k2], tags_view(*a)[i as int], tags_view(*b)[j2]),
            decreases nb - j,
        {
            let found = pair_ok(g, a.tags[i].as_str(), b.tags[j].as_str());
            assert(tags_view(*a)[i as int] == a.tags@[i as int]@);
            assert(tags_view(*b)[j as int] == b.tags@[j as int]@);
            if found {
                return true;
            }
            j = j + 1;
        }
        i = i + 1;
    }
    na == 0 || nb == 0
}


/// The most rooms `assemble` grows a realm to for target `target`.
pub open spec fn room_cap(target: u32) -> int {
    if target == 0 { 1 } else { target as int }
}

/// The largest room width or height, and door offset, for which any chain
/// of `room_cap(target)` rooms keeps every cell coordinate inside `i32`.
#[verifier::opaque]
pub open spec fn extent_budget(target: u32) -> int {
    0x7fff_ffffint / (4 * (room_cap(target) + 1)) - 1
}

/// The most doors a template may carry so that the open doors of
/// `room_cap(target)` rooms can always be counted in `u32`.
#[verifier::opaque]
pub open spec fn door_budget(target: u32) -> int {
    0xffff_ffffint / (room_cap(target) + 1)
}

/// Template `t` is small enough for a realm grown towards `target` rooms:
/// sizes and door offsets within [`extent_budget`], door count within
/// [`door_budget`].
pub open spec fn template_fits(t: RoomTemplate, target: u32) -> bool {
    &&& t.width <= extent_budget(target)
    &&& t.height <= extent_budget(target)
    &&& t.doors@.len() <= door_budget(target)
    &&& forall|k: int| 0 <= k < t.doors@.len() ==> (#[trigger] t.doors@[k]).offset <= extent_budget(target)
}

/// Whether `t` is small enough for a realm grown towards `target` rooms
/// (see [`template_fits`]).
pub fn template_fits_target(t: &RoomTemplate, target: u32) -> (r: bool)
    ensures
        r == template_fits(*t, target),
{
    proof {
        reveal(extent_budget);
        reveal(door_budget);
    }
    let cap: u64 = if target == 0 { 1 } else { target as u64 };
    let q: u64 = 0x7fff_ffff / (4 * (cap + 1));
    let doors: u64 = 0xffff_ffff / (cap + 1);
    if t.width as u64 + 1 > q || t.height as u64 + 1 > q || t.doors.len() as u64 > doors {
        return false;
    }
    let n = t.doors.len();
    let mut k: usize = 0;
    while k < n
        invariant
            n == t.doors@.len(),
            k <= n,
            q as int == extent_budget(target) + 1,
            forall|j: int| 0 <= j < k ==> (#[trigger] t.doors@[j]).offset <= extent_budget(target),
        decreases n - k,
    {
        if t.doors[k].offset as u64 + 1 > q {
            return false;
        }
        k = k + 1;
    }
    true
}

/// How far coordinates may move from the origin per placed room.
spec fn step_of(target: u32) -> int {
    4 * (extent_budget(target) + 1)
}

/// The arithmetic that keeps a growing layout inside `i32` and its open
/// doors countable in `u32`, for `n + 1` rooms of at most `room_cap(target)`.
proof fn lemma_budget(target: u32, n: int)
    requires
        target as int * 64 <= u32::MAX,
        0 <= n < room_cap(target),
    ensures
        0 <= extent_budget(target),
        0 <= door_budget(target),
        0 <= step_of(target) * n,
        step_of(target) * (n + 1) == step_of(target) * n + step_of(target),
        step_of(target) * (n + 1) + step_of(target) <= 0x7fff_ffff,
        0 <= n * door_budget(target),
        (n + 1) * door_budget(target) == n * door_budget(target) + door_budget(target),
        (n + 1) * door_budget(target) <= 0xffff_ffff,
{
    reveal(extent_budget);
    reveal(door_budget);
    let c = room_cap(target) + 1;
    let q = 0x7fff_ffffint / (4 * c);
    let dd = 0xffff_ffffint / c;
    vstd::arithmetic::div_mod::lemma_fundamental_div_mod(0x7fff_ffff, 4 * c);
    vstd::arithmetic::div_mod::lemma_mod_pos_bound(0x7fff_ffff, 4 * c);
    vstd::arithmetic::div_mod::lemma_fundamental_div_mod(0xffff_ffff, c);
    vstd::arithmetic::div_mod::lemma_mod_pos_bound(0xffff_ffff, c);
    let r1 = 0x7fff_ffffint % (4 * c);
    let r2 = 0xffff_ffffint % c;
    assert(2 <= c <= 0x400_0000);
    assert(q >= 1) by (nonlinear_arith)
        requires
            0x7fff_ffff == 4 * c * q + r1,
            0 <= r1 < 4 * c,
            2 <= c <= 0x400_0000,
    {
        if q <= 0 {
            assert(4 * c * q <= 0);
        }
    }
    assert(dd >= 0) by (nonlinear_arith)
        requires
            0xffff_ffff == c * dd + r2,
            0 <= r2 < c,
            2 <= c,
    {
        if dd < 0 {
            assert(c * dd <= -c);
        }
    }
    assert(step_of(target) == 4 * q);
    assert(door_budget(target) == dd);
    assert(0 <= 4 * q * n && 4 * q * (n + 1) == 4 * q * n + 4 * q && 4 * q * (n + 1) + 4 * q <= 0x7fff_ffff) by (nonlinear_arith)
        requires
            0x7fff_ffff == 4 * c * q + r1,
            0 <= r1,
            q >= 1,
            0 <= n,
            n + 2 <= c,
    {
        assert(4 * q * (n + 2) <= 4 * q * c);
    }
    assert(0 <= n * dd && (n + 1) * dd == n * dd + dd && (n + 1) * dd <= 0xffff_ffff) by (nonlinear_arith)
        requires
            0xffff_ffff == c * dd + r2,
            0 <= r2,
            dd >= 0,
            0 <= n,
            n + 2 <= c,
    {
        assert((n + 1) * dd <= c * dd);
    }
}

/// Cell (cx, cy) lies in the `w` × `h` rectangle with min corner (x, y).
pub open spec fn rect_has(x: int, y: int, w: int, h: int, cx: int, cy: int) -> bool {
    x <= cx < x + w && y <= cy < y + h
}

/// Cell (cx, cy) lies in placed room `r`.
pub open spec fn room_has(ts: Seq<RoomTemplate>, r: PlacedRoom, cx: int, cy: int) -> bool {
    rect_has(r.x as int, r.y as int, ts[r.template as int].width as int, ts[r.template as int].height as int, cx, cy)
}

/// No cell lies in both rooms.
pub open spec fn rooms_apart(ts: Seq<RoomTemplate>, a: PlacedRoom, b: PlacedRoom) -> bool {
    forall|cx: int, cy: int|
        #![trigger room_has(ts, a, cx, cy), room_has(ts, b, cx, cy)]
        !(room_has(ts, a, cx, cy) && room_has(ts, b, cx, cy))
}

/// Two rectangles share a cell exactly when both are non-empty and their
/// spans overlap on both axes.
pub open spec fn rects_meet(x1: int, y1: int, w1: int, h1: int, x2: int, y2: int, w2: int, h2: int) -> bool {
    &&& w1 > 0 && h1 > 0 && w2 > 0 && h2 > 0
    &&& x1 < x2 + w2 && x2 < x1 + w1
    &&& y1 < y2 + h2 && y2 < y1 + h1
}

pub proof fn lemma_rects_meet(x1: int, y1: int, w1: int, h1: int, x2: int, y2: int, w2: int, h2: int)
    ensures
        rects_meet(x1, y1, w1, h1, x2, y2, w2, h2) <==> exists|cx: int, cy: int|
            #![trigger rect_has(x1, y1, w1, h1, cx, cy), rect_has(x2, y2, w2, h2, cx, cy)]
            rect_has(x1, y1, w1, h1, cx, cy) && rect_has(x2, y2, w2, h2, cx, cy),
{
    if rects_meet(x1, y1, w1, h1, x2, y2, w2, h2) {
        let cx = if x1 < x2 { x2 } else { x1 };
        let cy = if y1 < y2 { y2 } else { y1 };
        assert(rect_has(x1, y1, w1, h1, cx, cy) && rect_has(x2, y2, w2, h2, cx, cy));
    }
}

/// `d` is one of the doors of `t`.
pub open spec fn door_of(t: RoomTemplate, d: Door) -> bool {
    exists|m: int| 0 <= m < t.doors@.len() && t.doors@[m] == d
}

/// The index of the first template named `name`.
pub open spec fn first_named(ts: Seq<RoomTemplate>, name: Seq<char>, i: int) -> bool {
    &&& 0 <= i < ts.len()
    &&& ts[i].name@ == name
    &&& forall|j: int| 0 <= j < i ==> (#[trigger] ts[j]).name@ != name
}

pub open spec fn has_named(ts: Seq<RoomTemplate>, name: Seq<char>) -> bool {
    exists|i: int| 0 <= i < ts.len() && (#[trigger] ts[i]).name@ == name
}

fn find_named(ts: &[RoomTemplate], name: &str) -> (r: Option<usize>)
    ensures
        match r {
            Some(i) => first_named(ts@, name@, i as int),
            None => !has_named(ts@, name@),
        },
{
    let n = ts.len();
    let mut i: usize = 0;
    while i < n
        invariant
            n == ts@.len(),
            i <= n,
            forall|j: int| 0 <= j < i ==> (#[trigger] ts@[j]).name@ != name@,
        decreases n - i,
    {
        if str_eq(ts[i].name.as_str(), name) {
            return Some(i);
        }
        i = i + 1;
    }
    None
}


/// The passage recorded for connection `c`: the two templates may be
/// adjacent under the grammar, the passage cell is the cell just outside one
/// of the host room's doors, and it is the cell just inside a door of the new
/// room on the opposite wall.
pub open spec fn passage_ok(
    ts: Seq<RoomTemplate>,
    allow: Seq<(Seq<char>, Seq<char>)>,
    rooms: Seq<PlacedRoom>,
    c: (usize, usize, (i32, i32)),
) -> bool {
    let host = rooms[c.0 as int];
    let room = rooms[c.1 as int];
    let th = ts[host.template as int];
    let tn = ts[room.template as int];
    &&& spec_tags_allowed(allow, tags_view(th), tags_view(tn))
    &&& exists|dh: Door, dn: Door|
        #![trigger door_of(th, dh), door_of(tn, dn)]
        door_of(th, dh) && door_of(tn, dn) && dn.side == spec_opposite(dh.side)
            && spec_door_cells(th.width, th.height, host.x, host.y, dh).1 == (c.2.0 as int, c.2.1 as int)
            && spec_door_cells(tn.width, tn.height, room.x, room.y, dn).0 == (c.2.0 as int, c.2.1 as int)
}

/// The layout is a tree grown from room 0: connection `k` joins an earlier
/// room to room `k + 1` through a real door pair.
pub open spec fn grown_tree(
    ts: Seq<RoomTemplate>,
    allow: Seq<(Seq<char>, Seq<char>)>,
    rooms: Seq<PlacedRoom>,
    conns: Seq<(usize, usize, (i32, i32))>,
) -> bool {
    &&& conns.len() + 1 == rooms.len()
    &&& forall|k: int|
        0 <= k < conns.len() ==> (#[trigger] conns[k]).1 == k + 1 && conns[k].0 < k + 1 && passage_ok(ts, allow, rooms, conns[k])
}

/// Every placed room uses a known template, and no two rooms share a cell.
pub open spec fn rooms_disjoint(ts: Seq<RoomTemplate>, rooms: Seq<PlacedRoom>) -> bool {
    &&& forall|i: int| 0 <= i < rooms.len() ==> (#[trigger] rooms[i]).template < ts.len()
    &&& forall|i: int, j: int| 0 <= i < j < rooms.len() ==> rooms_apart(ts, #[trigger] rooms[i], #[trigger] rooms[j])
}

pub proof fn lemma_rooms_apart(ts: Seq<RoomTemplate>, a: PlacedRoom, b: PlacedRoom)
    ensures
        rooms_apart(ts, a, b) <==> !rects_meet(
            a.x as int, a.y as int, ts[a.template as int].width as int, ts[a.template as int].height as int,
            b.x as int, b.y as int, ts[b.template as int].width as int, ts[b.template as int].height as int,
        ),
{
    let (xa, ya, wa, ha) = (a.x as int, a.y as int, ts[a.template as int].width as int, ts[a.template as int].height as int);
    let (xb, yb, wb, hb) = (b.x as int, b.y as int, ts[b.template as int].width as int, ts[b.template as int].height as int);
    lemma_rects_meet(xa, ya, wa, ha, xb, yb, wb, hb);
    if rects_meet(xa, ya, wa, ha, xb, yb, wb, hb) {
        let (cx, cy) = choose|cx: int, cy: int| rect_has(xa, ya, wa, ha, cx, cy) && rect_has(xb, yb, wb, hb, cx, cy);
        assert(room_has(ts, a, cx, cy) && room_has(ts, b, cx, cy));
    } else {
        assert forall|cx: int, cy: int| !(room_has(ts, a, cx, cy) && room_has(ts, b, cx, cy)) by {
            if room_has(ts, a, cx, cy) && room_has(ts, b, cx, cy) {
                assert(rect_has(xa, ya, wa, ha, cx, cy) && rect_has(xb, yb, wb, hb, cx, cy));
            }
        }
    }
}

/// A door of a placed room that no passage uses yet.
#[derive(Clone, Copy)]
pub struct OpenDoor {
    /// Index of the room the door belongs to.
    pub room: usize,
    pub door: Door,
    /// Cell just outside the wall, where the next room must abut.
    pub exit_cell: (i32, i32),
}

spec fn within(v: int, n: int, target: u32) -> bool {
    -(step_of(target) * n) <= v && v <= step_of(target) * n
}

spec fn open_ok(ts: Seq<RoomTemplate>, rooms: Seq<PlacedRoom>, od: OpenDoor, target: u32) -> bool {
    let r = rooms[od.room as int];
    let t = ts[r.template as int];
    &&& od.room < rooms.len()
    &&& door_of(t, od.door)
    &&& spec_door_cells(t.width, t.height, r.x, r.y, od.door).1 == (od.exit_cell.0 as int, od.exit_cell.1 as int)
    &&& within(od.exit_cell.0 as int, rooms.len() as int, target)
    &&& within(od.exit_cell.1 as int, rooms.len() as int, target)
}

spec fn rooms_ok(ts: Seq<RoomTemplate>, rooms: Seq<PlacedRoom>, target: u32) -> bool {
    &&& rooms_disjoint(ts, rooms)
    &&& forall|i: int| 0 <= i < rooms.len() ==> within((#[trigger] rooms[i]).x as int, rooms.len() as int, target)
        && within(rooms[i].y as int, rooms.len() as int, target)
}

spec fn opens_ok(ts: Seq<RoomTemplate>, rooms: Seq<PlacedRoom>, open: Seq<OpenDoor>, target: u32) -> bool {
    &&& open.len() <= rooms.len() * door_budget(target)
    &&& forall|k: int| 0 <= k < open.len() ==> open_ok(ts, rooms, #[trigger] open[k], target)
}

spec fn all_fit(ts: Seq<RoomTemplate>, target: u32) -> bool {
    forall|i: int| 0 <= i < ts.len() ==> template_fits(#[trigger] ts[i], target)
}

/// Outside cell of door `d` of a room of template `t` at (x, y).
pub open spec fn exit_of(t: RoomTemplate, x: i32, y: i32, d: Door) -> (i32, i32) {
    let c = spec_door_cells(t.width, t.height, x, y, d).1;
    (c.0 as i32, c.1 as i32)
}

/// The doors opened by placing room `idx` of template `t` at (x, y), in door
/// order.
pub open spec fn opened_doors(t: RoomTemplate, idx: usize, x: i32, y: i32) -> Seq<OpenDoor> {
    Seq::new(t.doors@.len(), |k: int| OpenDoor { room: idx, door: t.doors@[k], exit_cell: exit_of(t, x, y, t.doors@[k]) })
}

/// Places template `ti` with min corner (x, y) and opens all its doors.
fn place(
    ts: &[RoomTemplate],
    rooms: &mut Vec<PlacedRoom>,
    open: &mut Vec<OpenDoor>,
    ti: usize,
    x: i32,
    y: i32,
    Ghost(target): Ghost<u32>,
) -> (idx: usize)
    requires
        target as int * 64 <= u32::MAX,
        all_fit(ts@, target),
        ti < ts@.len(),
        old(rooms)@.len() < room_cap(target),
        rooms_ok(ts@, old(rooms)@, target),
        opens_ok(ts@, old(rooms)@, old(open)@, target),
        -(step_of(target) * old(rooms)@.len()) - 2 * extent_budget(target) - 1 <= x
            <= step_of(target) * old(rooms)@.len() + 2 * extent_budget(target) + 1,
        -(step_of(target) * old(rooms)@.len()) - 2 * extent_budget(target) - 1 <= y
            <= step_of(target) * old(rooms)@.len() + 2 * extent_budget(target) + 1,
        forall|i: int| 0 <= i < old(rooms)@.len() ==> rooms_apart(ts@, #[trigger] old(rooms)@[i], PlacedRoom { template: ti, x, y }),
    ensures
        idx == old(rooms)@.len(),
        final(rooms)@ == old(rooms)@.push(PlacedRoom { template: ti, x, y }),
        final(open)@ == old(open)@ + opened_doors(ts@[ti as int], idx, x, y),
        rooms_ok(ts@, final(rooms)@, target),
        opens_ok(ts@, final(rooms)@, final(open)@, target),
{
    let ghost rooms0 = rooms@;
    let ghost open0 = open@;
    let ghost n0 = rooms0.len() as int;
    proof {
        lemma_budget(target, n0);
    }
    let ghost e = extent_budget(target);
    let ghost st = step_of(target);
    let ghost dn = door_budget(target);
    let idx = rooms.len();
    let new_room = PlacedRoom { template: ti, x, y };
    rooms.push(new_room);
    let ghost n1 = rooms@.len() as int;
    proof {
        assert(st * n1 == st * n0 + st);
        assert forall|i: int| 0 <= i < rooms@.len() implies within((#[trigger] rooms@[i]).x as int, n1, target) && within(rooms@[i].y as int, n1, target) by {
            if i < rooms0.len() {
                assert(rooms@[i] == rooms0[i]);
                assert(within(rooms0[i].x as int, rooms0.len() as int, target));
            }
        }
        assert forall|i: int, j: int| 0 <= i < j < rooms@.len() implies rooms_apart(ts@, #[trigger] rooms@[i], #[trigger] rooms@[j]) by {
            assert(rooms@[i] == rooms0[i]);
            if j < rooms0.len() {
                assert(rooms@[j] == rooms0[j]);
            }
        }
        assert forall|k: int| 0 <= k < open@.len() implies open_ok(ts@, rooms@, #[trigger] open@[k], target) by {
            assert(open_ok(ts@, rooms0, open0[k], target));
            assert(rooms@[open0[k].room as int] == rooms0[open0[k].room as int]);
        }
    }
    let t = &ts[ti];
    let nd = t.doors.len();
    let mut k: usize = 0;
    proof {
        assert(template_fits(ts@[ti as int], target));
    }
    while k < nd
        invariant
            nd == t.doors@.len(),
            *t == ts@[ti as int],
            template_fits(*t, target),
            e == extent_budget(target),
            st == step_of(target),
            dn == door_budget(target),
            0 <= e,
            st == 4 * (e + 1),
            0 <= st * n0,
            st * n1 == st * n0 + st,
            st * n1 + st <= 0x7fff_ffff,
            n1 * dn == n0 * dn + dn,
            nd <= dn,
            k <= nd,
            rooms@ == rooms0.push(new_room),
            new_room == (PlacedRoom { template: ti, x, y }),
            n1 == rooms@.len(),
            n1 == n0 + 1,
            idx == rooms0.len(),
            n0 == rooms0.len(),
            open@.len() == open0.len() + k,
            open@ == open0 + opened_doors(*t, idx, x, y).take(k as int),
            open0.len() <= n0 * dn,
            -(st * n0) - 2 * e - 1 <= x <= st * n0 + 2 * e + 1,
            -(st * n0) - 2 * e - 1 <= y <= st * n0 + 2 * e + 1,
            forall|j: int| 0 <= j < open@.len() ==> open_ok(ts@, rooms@, #[trigger] open@[j], target),
        decreases nd - k,
    {
        let d = t.doors[k];
        assert(t.doors@[k as int].offset <= extent_budget(target));
        let cells = door_cells(t, x, y, d);
        let exit = cells.1;
        assert((exit.0 as int, exit.1 as int) == spec_door_cells(t.width, t.height, x, y, d).1);
        let od = OpenDoor { room: idx, door: d, exit_cell: exit };
        proof {
            assert(rooms@[idx as int] == new_room);
            assert(door_of(*t, d)) by {
                assert(t.doors@[k as int] == d);
            }
        }
        let ghost prev = open@;
        proof {
            let r = rooms@[od.room as int];
            assert(r == new_room);
            assert(spec_door_cells(t.width, t.height, r.x, r.y, od.door).1 == (od.exit_cell.0 as int, od.exit_cell.1 as int));
            assert(within(od.exit_cell.0 as int, n1, target));
            assert(within(od.exit_cell.1 as int, n1, target));
            assert(open_ok(ts@, rooms@, od, target));
        }
        open.push(od);
        proof {
            assert forall|j: int| 0 <= j < open@.len() implies open_ok(ts@, rooms@, #[trigger] open@[j], target) by {
                if j < prev.len() {
                    assert(open@[j] == prev[j]);
                }
            }
            assert(od == opened_doors(*t, idx, x, y)[k as int]);
            assert(open@ =~= open0 + opened_doors(*t, idx, x, y).take(k as int + 1));
        }
        k = k + 1;
    }
    assert(opened_doors(*t, idx, x, y).take(nd as int) =~= opened_doors(*t, idx, x, y));
    idx
}


/// The doors of `doors` on side `need`, in order, each tagged with template
/// index `ti`.
pub open spec fn doors_facing(doors: Seq<Door>, need: Side, ti: usize) -> Seq<(usize, Door)>
    decreases doors.len(),
{
    if doors.len() == 0 {
        Seq::empty()
    } else {
        let r = doors_facing(doors.drop_last(), need, ti);
        if doors.last().side == need {
            r.push((ti, doors.last()))
        } else {
            r
        }
    }
}

/// Candidate (template, door) pairs among the first `n` templates: those
/// the tag grammar lets touch `host`, with their doors on side `need`, in
/// template then door order.
pub open spec fn candidates_upto(
    ts: Seq<RoomTemplate>,
    allow: Seq<(Seq<char>, Seq<char>)>,
    host: RoomTemplate,
    need: Side,
    n: int,
) -> Seq<(usize, Door)>
    decreases n,
{
    if n <= 0 {
        Seq::empty()
    } else {
        candidates_upto(ts, allow, host, need, n - 1) + if spec_tags_allowed(allow, tags_view(host), tags_view(ts[n - 1])) {
            doors_facing(ts[n - 1].doors@, need, (n - 1) as usize)
        } else {
            Seq::empty()
        }
    }
}

/// Templates (with the door to enter through) that may be attached to a
/// room of template `host` through a door on side `need`, in template then
/// door order, with their selection weights.
fn candidates(ts: &[RoomTemplate], g: &RealmGrammar, host: &RoomTemplate, need: Side) -> (r: (Vec<(usize, Door)>, Vec<u32>))
    ensures
        r.0@ == candidates_upto(ts@, allow_view(*g), *host, need, ts@.len() as int),
        r.0@.len() == r.1@.len(),
        forall|c: int| 0 <= c < r.0@.len() ==> {
            let (ti, d) = #[trigger] r.0@[c];
            &&& ti < ts@.len()
            &&& door_of(ts@[ti as int], d)
            &&& d.side == need
            &&& spec_tags_allowed(allow_view(*g), tags_view(*host), tags_view(ts@[ti as int]))
            &&& r.1@[c] == ts@[ti as int].weight_bits
        },
{
    let mut cand: Vec<(usize, Door)> = Vec::new();
    let mut weights: Vec<u32> = Vec::new();
    let n = ts.len();
    let mut ti: usize = 0;
    while ti < n
        invariant
            n == ts@.len(),
            ti <= n,
            cand@ == candidates_upto(ts@, allow_view(*g), *host, need, ti as int),
            cand@.len() == weights@.len(),
            forall|c: int| 0 <= c < cand@.len() ==> {
                let (tj, d) = #[trigger] cand@[c];
                &&& tj < ts@.len()
                &&& door_of(ts@[tj as int], d)
                &&& d.side == need
                &&& spec_tags_allowed(allow_view(*g), tags_view(*host), tags_view(ts@[tj as int]))
                &&& weights@[c] == ts@[tj as int].weight_bits
            },
        decreases n - ti,
    {
        let t = &ts[ti];
        let ghost before = cand@;
        if tags_allowed(g, host, t) {
            let nd = t.doors.len();
            let mut k: usize = 0;
            while k < nd
                invariant
                    n == ts@.len(),
                    ti < n,
                    *t == ts@[ti as int],
                    nd == t.doors@.len(),
                    k <= nd,
                    cand@ == before + doors_facing(t.doors@.take(k as int), need, ti),
                    spec_tags_allowed(allow_view(*g), tags_view(*host), tags_view(*t)),
                    cand@.len() == weights@.len(),
                    forall|c: int| 0 <= c < cand@.len() ==> {
                        let (tj, d) = #[trigger] cand@[c];
                        &&& tj < ts@.len()
                        &&& door_of(ts@[tj as int], d)
                        &&& d.side == need
                        &&& spec_tags_allowed(allow_view(*g), tags_view(*host), tags_view(ts@[tj as int]))
                        &&& weights@[c] == ts@[tj as int].weight_bits
                    },
                decreases nd - k,
            {
                let d = t.doors[k];
                proof {
                    assert(t.doors@.take(k as int + 1).drop_last() =~= t.doors@.take(k as int));
                    assert(t.doors@.take(k as int + 1).last() == d);
                }
                if d.side == need {
                    proof {
                        assert(t.doors@[k as int] == d);
                        assert(door_of(ts@[ti as int], d));
                    }
                    cand.push((ti, d));
                    weights.push(t.weight_bits);
                }
                proof {
                    assert(cand@ =~= before + doors_facing(t.doors@.take(k as int + 1), need, ti));
                }
                k = k + 1;
            }
            proof {
                assert(t.doors@.take(nd as int) =~= t.doors@);
            }
        } else {
            proof {
                assert(cand@ =~= before + Seq::<(usize, Door)>::empty());
            }
        }
        proof {
            assert(tags_view(*t) == tags_view(ts@[ti as int]));
            assert(cand@ =~= candidates_upto(ts@, allow_view(*g), *host, need, ti as int + 1));
        }
        ti = ti + 1;
    }
    (cand, weights)
}

/// Min corner of a room of template `t` entered through its door `d` on
/// side `need`, so that the door's inside cell is `e`.
pub open spec fn entry_at(t: RoomTemplate, need: Side, d: Door, e: (i32, i32)) -> (i32, i32) {
    match need {
        Side::South => ((e.0 - d.offset) as i32, e.1),
        Side::North => ((e.0 - d.offset) as i32, (e.1 - t.height + 1) as i32),
        Side::West => (e.0, (e.1 - d.offset) as i32),
        Side::East => ((e.0 - t.width + 1) as i32, (e.1 - d.offset) as i32),
    }
}

/// Min corner for a room of template `t` entered through door `d` (on side
/// `need`) so that the door's inside cell is (ex, ey).
fn entry_position(t: &RoomTemplate, need: Side, d: Door, ex: i32, ey: i32) -> (r: (i32, i32))
    requires
        d.side == need,
        t.width <= i32::MAX,
        t.height <= i32::MAX,
        d.offset <= i32::MAX,
        i32::MIN + t.width + t.height + d.offset <= ex < i32::MAX,
        i32::MIN + t.width + t.height + d.offset <= ey < i32::MAX,
    ensures
        r == entry_at(*t, need, d, (ex, ey)),
        spec_door_cells(t.width, t.height, r.0, r.1, d).0 == (ex as int, ey as int),
        ex - t.width - d.offset <= r.0 <= ex + 1,
        ey - t.height - d.offset <= r.1 <= ey + 1,
{
    let off = d.offset as i32;
    let w = t.width as i32;
    let h = t.height as i32;
    match need {
        Side::South => (ex - off, ey),
        Side::North => (ex - off, ey - h + 1),
        Side::West => (ex, ey - off),
        Side::East => (ex - w + 1, ey - off),
    }
}

/// Whether a room of template `ti` at (x, y) would share a cell with any
/// placed room.
fn overlaps_any(ts: &[RoomTemplate], rooms: &Vec<PlacedRoom>, ti: usize, x: i32, y: i32) -> (r: bool)
    requires
        ti < ts@.len(),
        forall|i: int| 0 <= i < rooms@.len() ==> (#[trigger] rooms@[i]).template < ts@.len(),
    ensures
        r == exists|i: int| 0 <= i < rooms@.len() && !rooms_apart(ts@, #[trigger] rooms@[i], PlacedRoom { template: ti, x, y }),
{
    let t = &ts[ti];
    let n = rooms.len();
    let mut i: usize = 0;
    while i < n
        invariant
            n == rooms@.len(),
            i <= n,
            ti < ts@.len(),
            *t == ts@[ti as int],
            forall|j: int| 0 <= j < rooms@.len() ==> (#[trigger] rooms@[j]).template < ts@.len(),
            forall|j: int| 0 <= j < i ==> rooms_apart(ts@, #[trigger] rooms@[j], PlacedRoom { template: ti, x, y }),
        decreases n - i,
    {
        let r = rooms[i];
        let u = &ts[r.template];
        let ax = r.x as i64;
        let ay = r.y as i64;
        let aw = u.width as i64;
        let ah = u.height as i64;
        let bx = x as i64;
        let by = y as i64;
        let bw = t.width as i64;
        let bh = t.height as i64;
        let meet = aw > 0 && ah > 0 && bw > 0 && bh > 0 && ax < bx + bw && bx < ax + aw && ay < by + bh && by < ay + ah;
        proof {
            lemma_rooms_apart(ts@, r, PlacedRoom { template: ti, x, y });
        }
        if meet {
            assert(!rooms_apart(ts@, rooms@[i as int], PlacedRoom { template: ti, x, y }));
            return true;
        }
        i = i + 1;
    }
    false
}

/// Whether open door `o` is not door `d` of room `room`.
pub open spec fn keeps_door(o: OpenDoor, room: usize, d: Door) -> bool {
    !(o.room == room && o.door.side == d.side && o.door.offset == d.offset)
}

/// The open doors of `s`, in order, without door `d` of room `room`.
pub open spec fn kept_doors(s: Seq<OpenDoor>, room: usize, d: Door) -> Seq<OpenDoor>
    decreases s.len(),
{
    if s.len() == 0 {
        s
    } else {
        let rest = kept_doors(s.drop_last(), room, d);
        if keeps_door(s.last(), room, d) {
            rest.push(s.last())
        } else {
            rest
        }
    }
}

proof fn lemma_kept_doors_from(s: Seq<OpenDoor>, room: usize, d: Door)
    ensures
        kept_doors(s, room, d).len() <= s.len(),
        forall|k: int| 0 <= k < kept_doors(s, room, d).len() ==> s.contains(#[trigger] kept_doors(s, room, d)[k]),
    decreases s.len(),
{
    if s.len() > 0 {
        let t = s.drop_last();
        lemma_kept_doors_from(t, room, d);
        let r = kept_doors(t, room, d);
        assert forall|k: int| 0 <= k < kept_doors(s, room, d).len() implies s.contains(#[trigger] kept_doors(s, room, d)[k]) by {
            if k < r.len() {
                assert(kept_doors(s, room, d)[k] == r[k]);
                let j = choose|j: int| 0 <= j < t.len() && t[j] == r[k];
                assert(s[j] == t[j]);
            } else {
                assert(kept_doors(s, room, d)[k] == s.last());
                assert(s[s.len() - 1] == s.last());
            }
        }
    }
}

/// `after` is `before` without door `d` of room `room`, order kept.
#[verifier::opaque]
spec fn door_dropped(before: Seq<OpenDoor>, after: Seq<OpenDoor>, room: usize, d: Door) -> bool {
    after == kept_doors(before, room, d)
}

/// Drops the open doors of room `room` that match door `d`, keeping order.
fn drop_door(open: &mut Vec<OpenDoor>, room: usize, d: Door)
    ensures
        door_dropped(old(open)@, final(open)@, room, d),
        final(open)@.len() <= old(open)@.len(),
        forall|k: int| 0 <= k < final(open)@.len() ==> old(open)@.contains(#[trigger] final(open)@[k]),
{
    let mut kept: Vec<OpenDoor> = Vec::new();
    let n = open.len();
    let mut i: usize = 0;
    while i < n
        invariant
            n == open@.len(),
            i <= n,
            kept@ == kept_doors(open@.take(i as int), room, d),
        decreases n - i,
    {
        let o = open[i];
        proof {
            assert(open@.take(i as int + 1).drop_last() =~= open@.take(i as int));
            assert(open@.take(i as int + 1).last() == o);
        }
        if !(o.room == room && o.door.side == d.side && o.door.offset == d.offset) {
            kept.push(o);
        }
        i = i + 1;
    }
    proof {
        assert(open@.take(n as int) =~= open@);
        lemma_kept_doors_from(open@, room, d);
        reveal(door_dropped);
    }
    *open = kept;
}



proof fn lemma_swap_remove_keeps_open(ts: Seq<RoomTemplate>, rooms: Seq<PlacedRoom>, pre: Seq<OpenDoor>, di: int, target: u32)
    requires
        opens_ok(ts, rooms, pre, target),
        0 <= di < pre.len(),
    ensures
        opens_ok(ts, rooms, pre.update(di, pre.last()).drop_last(), target),
{
    let post = pre.update(di, pre.last()).drop_last();
    assert forall|k: int| 0 <= k < post.len() implies open_ok(ts, rooms, #[trigger] post[k], target) by {
        if k == di {
            assert(post[k] == pre[pre.len() - 1]);
            assert(open_ok(ts, rooms, pre[pre.len() - 1], target));
        } else {
            assert(post[k] == pre[k]);
            assert(open_ok(ts, rooms, pre[k], target));
        }
    }
}

proof fn lemma_subset_keeps_open(ts: Seq<RoomTemplate>, rooms: Seq<PlacedRoom>, opened: Seq<OpenDoor>, open: Seq<OpenDoor>, target: u32)
    requires
        opens_ok(ts, rooms, opened, target),
        open.len() <= opened.len(),
        forall|k: int| 0 <= k < open.len() ==> opened.contains(#[trigger] open[k]),
    ensures
        opens_ok(ts, rooms, open, target),
{
    assert forall|k: int| 0 <= k < open.len() implies open_ok(ts, rooms, #[trigger] open[k], target) by {
        assert(opened.contains(open[k]));
        let j = choose|j: int| 0 <= j < opened.len() && opened[j] == open[k];
        assert(open_ok(ts, rooms, opened[j], target));
    }
}

/// Placing room `rooms0.len()` through a door pair keeps the layout a tree.
proof fn lemma_tree_grows(
    ts: Seq<RoomTemplate>,
    allow: Seq<(Seq<char>, Seq<char>)>,
    rooms0: Seq<PlacedRoom>,
    conns0: Seq<(usize, usize, (i32, i32))>,
    host: usize,
    hd: Door,
    placed: PlacedRoom,
    nd: Door,
    exit_cell: (i32, i32),
)
    requires
        grown_tree(ts, allow, rooms0, conns0),
        host < rooms0.len(),
        rooms0.len() < usize::MAX,
        door_of(ts[rooms0[host as int].template as int], hd),
        spec_door_cells(ts[rooms0[host as int].template as int].width, ts[rooms0[host as int].template as int].height,
            rooms0[host as int].x, rooms0[host as int].y, hd).1 == (exit_cell.0 as int, exit_cell.1 as int),
        door_of(ts[placed.template as int], nd),
        nd.side == spec_opposite(hd.side),
        spec_door_cells(ts[placed.template as int].width, ts[placed.template as int].height, placed.x, placed.y, nd).0
            == (exit_cell.0 as int, exit_cell.1 as int),
        spec_tags_allowed(allow, tags_view(ts[rooms0[host as int].template as int]), tags_view(ts[placed.template as int])),
    ensures
        grown_tree(ts, allow, rooms0.push(placed), conns0.push((host, rooms0.len() as usize, exit_cell))),
{
    let rooms1 = rooms0.push(placed);
    let new_idx = rooms0.len() as usize;
    let c = (host, new_idx, exit_cell);
    let conns1 = conns0.push(c);
    assert(rooms1[host as int] == rooms0[host as int]);
    assert(rooms1[new_idx as int] == placed);
    let th = ts[rooms1[host as int].template as int];
    let tn = ts[placed.template as int];
    assert(door_of(th, hd));
    assert(door_of(tn, nd));
    assert(c.1 as int == rooms0.len());
    assert(rooms1[c.1 as int] == placed);
    assert(rooms1[c.0 as int] == rooms0[host as int]);
    assert(spec_tags_allowed(allow, tags_view(th), tags_view(tn)));
    assert(door_of(th, hd) && door_of(tn, nd) && nd.side == spec_opposite(hd.side)
        && spec_door_cells(th.width, th.height, rooms1[c.0 as int].x, rooms1[c.0 as int].y, hd).1 == (c.2.0 as int, c.2.1 as int)
        && spec_door_cells(tn.width, tn.height, rooms1[c.1 as int].x, rooms1[c.1 as int].y, nd).0 == (c.2.0 as int, c.2.1 as int));
    assert(passage_ok(ts, allow, rooms1, c));
    assert forall|k: int| 0 <= k < conns1.len() implies (#[trigger] conns1[k]).1 == k + 1 && conns1[k].0 < k + 1
        && passage_ok(ts, allow, rooms1, conns1[k]) by {
        if k < conns0.len() {
            assert(conns1[k] == conns0[k]);
            let ck = conns0[k];
            assert(passage_ok(ts, allow, rooms0, ck));
            assert(rooms1[ck.0 as int] == rooms0[ck.0 as int]);
            assert(rooms1[ck.1 as int] == rooms0[ck.1 as int]);
        }
    }
}

/// A state of realm growth: placed rooms, passages, open doors, attempts
/// spent and the generator's state.
pub type GrowState = (Seq<PlacedRoom>, Seq<(usize, usize, (i32, i32))>, Seq<OpenDoor>, nat, u64);

/// Growth goes on from `s`: fewer rooms than the target, some door open,
/// and attempts left.
pub open spec fn keeps_growing(s: GrowState, target: u32) -> bool {
    s.0.len() < target && s.2.len() > 0 && s.3 < target * 64
}

/// The growth state the first room leaves: template `start` at the origin,
/// all its doors open, no attempt spent, generator at `st`.
pub open spec fn grow_start(ts: Seq<RoomTemplate>, start: usize, st: u64) -> GrowState {
    (
        seq![PlacedRoom { template: start, x: 0, y: 0 }],
        Seq::empty(),
        opened_doors(ts[start as int], 0, 0, 0),
        0,
        st,
    )
}

/// One growth attempt from `s` to `t`, with generator increment `inc`: draw
/// an open door (`lemire_draw` over the open doors); with no candidate for
/// its opposite wall, close the door. Otherwise draw one output, let `pick`
/// choose among the candidates' weights, and place the chosen template
/// through the chosen door, unless it would share a cell with a placed room
/// (then nothing changes but the generator). Placing records the passage,
/// closes the drawn door, opens the new room's doors and closes the one it
/// was entered through.
pub open spec fn grow_step<F: Fn(u32, Vec<u32>) -> usize>(
    ts: Seq<RoomTemplate>,
    allow: Seq<(Seq<char>, Seq<char>)>,
    pick: F,
    inc: u64,
    s: GrowState,
    t: GrowState,
) -> bool {
    let (rooms, conns, open, att, st) = s;
    let (st1, di) = lemire_draw(st, inc, open.len() as u32, lemire_budget());
    let od = open[di as int];
    let host = rooms[od.room as int];
    let need = spec_opposite(od.door.side);
    let cand = candidates_upto(ts, allow, ts[host.template as int], need, ts.len() as int);
    if cand.len() == 0 {
        t == (rooms, conns, swap_out(open, di as int), att + 1, st1)
    } else {
        let draw = pcg_output(st1);
        let st2 = pcg_step(st1, inc);
        exists|w: Vec<u32>, c: usize|
            #![trigger call_ensures(pick, (draw, w), c)]
            {
                &&& w@ == cand.map_values(|p: (usize, Door)| ts[p.0 as int].weight_bits)
                &&& call_ensures(pick, (draw, w), c)
                &&& c < cand.len()
                &&& {
                    let (ti, td) = cand[c as int];
                    let (nx, ny) = entry_at(ts[ti as int], need, td, od.exit_cell);
                    let placed = PlacedRoom { template: ti, x: nx, y: ny };
                    if exists|i: int| 0 <= i < rooms.len() && !rooms_apart(ts, #[trigger] rooms[i], placed) {
                        t == (rooms, conns, open, att + 1, st2)
                    } else {
                        t == (
                            rooms.push(placed),
                            conns.push((od.room, rooms.len() as usize, od.exit_cell)),
                            kept_doors(swap_out(open, di as int) + opened_doors(ts[ti as int], rooms.len() as usize, nx, ny), rooms.len() as usize, td),
                            att + 1,
                            st2,
                        )
                    }
                }
            }
    }
}

/// `trace` is a run of growth: each state that keeps growing is followed by
/// one growth attempt, and only the last state stops.
pub open spec fn grow_run<F: Fn(u32, Vec<u32>) -> usize>(
    ts: Seq<RoomTemplate>,
    allow: Seq<(Seq<char>, Seq<char>)>,
    pick: F,
    inc: u64,
    target: u32,
    trace: Seq<GrowState>,
) -> bool {
    &&& trace.len() >= 1
    &&& forall|k: int| 0 <= k < trace.len() - 1 ==> keeps_growing(#[trigger] trace[k], target)
        && grow_step(ts, allow, pick, inc, trace[k], trace[k + 1])
    &&& !keeps_growing(trace.last(), target)
}

proof fn lemma_step_closes<F: Fn(u32, Vec<u32>) -> usize>(
    ts: Seq<RoomTemplate>,
    allow: Seq<(Seq<char>, Seq<char>)>,
    pick: F,
    inc: u64,
    s: GrowState,
    st1: u64,
    du: u32,
)
    requires
        (st1, du) == lemire_draw(s.4, inc, s.2.len() as u32, lemire_budget()),
        candidates_upto(ts, allow, ts[s.0[s.2[du as int].room as int].template as int], spec_opposite(s.2[du as int].door.side), ts.len() as int).len() == 0,
    ensures
        grow_step(ts, allow, pick, inc, s, (s.0, s.1, swap_out(s.2, du as int), s.3 + 1, st1)),
{
}

proof fn lemma_step_tries<F: Fn(u32, Vec<u32>) -> usize>(
    ts: Seq<RoomTemplate>,
    allow: Seq<(Seq<char>, Seq<char>)>,
    pick: F,
    inc: u64,
    s: GrowState,
    st1: u64,
    du: u32,
    w: Vec<u32>,
    c: usize,
    t: GrowState,
)
    requires
        (st1, du) == lemire_draw(s.4, inc, s.2.len() as u32, lemire_budget()),
        ({
            let od = s.2[du as int];
            let need = spec_opposite(od.door.side);
            let cand = candidates_upto(ts, allow, ts[s.0[od.room as int].template as int], need, ts.len() as int);
            &&& cand.len() > 0
            &&& w@ == cand.map_values(|p: (usize, Door)| ts[p.0 as int].weight_bits)
            &&& call_ensures(pick, (pcg_output(st1), w), c)
            &&& c < cand.len()
            &&& {
                let (ti, td) = cand[c as int];
                let (nx, ny) = entry_at(ts[ti as int], need, td, od.exit_cell);
                let placed = PlacedRoom { template: ti, x: nx, y: ny };
                if exists|i: int| 0 <= i < s.0.len() && !rooms_apart(ts, #[trigger] s.0[i], placed) {
                    t == (s.0, s.1, s.2, s.3 + 1, pcg_step(st1, inc))
                } else {
                    t == (
                        s.0.push(placed),
                        s.1.push((od.room, s.0.len() as usize, od.exit_cell)),
                        kept_doors(swap_out(s.2, du as int) + opened_doors(ts[ti as int], s.0.len() as usize, nx, ny), s.0.len() as usize, td),
                        s.3 + 1,
                        pcg_step(st1, inc),
                    )
                }
            }
        }),
    ensures
        grow_step(ts, allow, pick, inc, s, t),
{
}

/// One placement attempt: enter template `ti` through its door `tdoor`
/// at the outside cell of open door `di`; unless the room would share a cell
/// with a placed room, place it, record the passage, close door `di`, open
/// the new room's doors and close the one it was entered through.
fn attach_room(
    templates: &[RoomTemplate],
    grammar: &RealmGrammar,
    layout: &mut RealmLayout,
    open: &mut Vec<OpenDoor>,
    di: usize,
    ti: usize,
    tdoor: Door,
)
    requires
        grammar.target_rooms as int * 64 <= u32::MAX,
        all_fit(templates@, grammar.target_rooms),
        1 <= old(layout).rooms@.len() < room_cap(grammar.target_rooms),
        rooms_ok(templates@, old(layout).rooms@, grammar.target_rooms),
        opens_ok(templates@, old(layout).rooms@, old(open)@, grammar.target_rooms),
        grown_tree(templates@, allow_view(*grammar), old(layout).rooms@, old(layout).connections@),
        di < old(open)@.len(),
        ti < templates@.len(),
        door_of(templates@[ti as int], tdoor),
        tdoor.side == spec_opposite(old(open)@[di as int].door.side),
        spec_tags_allowed(
            allow_view(*grammar),
            tags_view(templates@[old(layout).rooms@[old(open)@[di as int].room as int].template as int]),
            tags_view(templates@[ti as int]),
        ),
    ensures
        ({
            let ts = templates@;
            let rooms = old(layout).rooms@;
            let od = old(open)@[di as int];
            let (nx, ny) = entry_at(ts[ti as int], tdoor.side, tdoor, od.exit_cell);
            let placed = PlacedRoom { template: ti, x: nx, y: ny };
            if exists|i: int| 0 <= i < rooms.len() && !rooms_apart(ts, #[trigger] rooms[i], placed) {
                &&& final(layout).rooms@ == rooms
                &&& final(layout).connections@ == old(layout).connections@
                &&& final(open)@ == old(open)@
            } else {
                &&& final(layout).rooms@ == rooms.push(placed)
                &&& final(layout).connections@ == old(layout).connections@.push((od.room, rooms.len() as usize, od.exit_cell))
                &&& final(open)@ == kept_doors(
                    swap_out(old(open)@, di as int) + opened_doors(ts[ti as int], rooms.len() as usize, nx, ny),
                    rooms.len() as usize,
                    tdoor,
                )
            }
        }),
        rooms_ok(templates@, final(layout).rooms@, grammar.target_rooms),
        opens_ok(templates@, final(layout).rooms@, final(open)@, grammar.target_rooms),
        grown_tree(templates@, allow_view(*grammar), final(layout).rooms@, final(layout).connections@),
        final(layout).rooms@.len() <= old(layout).rooms@.len() + 1,
        final(layout).rooms@[0] == old(layout).rooms@[0],
{
    let ghost ts = templates@;
    let ghost allow = allow_view(*grammar);
    let ghost target = grammar.target_rooms;
    let od = open[di];
    proof {
        assert(open_ok(ts, layout.rooms@, open@[di as int], target));
        lemma_budget(target, layout.rooms@.len() as int);
    }
    let t = &templates[ti];
    let need = tdoor.side;
    proof {
        assert(template_fits(ts[ti as int], target));
        let m = choose|m: int| 0 <= m < t.doors@.len() && t.doors@[m] == tdoor;
        assert(t.doors@[m].offset <= extent_budget(target));
        assert(within(od.exit_cell.0 as int, layout.rooms@.len() as int, target));
        assert(within(od.exit_cell.1 as int, layout.rooms@.len() as int, target));
    }
    let (ex, ey) = od.exit_cell;
    let (nx, ny) = entry_position(t, need, tdoor, ex, ey);
    if overlaps_any(templates, &layout.rooms, ti, nx, ny) {
        return;
    }
    let ghost rooms0 = layout.rooms@;
    let ghost conns0 = layout.connections@;
    let host = od.room;
    let exit_cell = od.exit_cell;
    let ghost pre = open@;
    open.swap_remove(di);
    proof {
        lemma_swap_remove_keeps_open(ts, layout.rooms@, pre, di as int, target);
        assert(forall|i: int| 0 <= i < rooms0.len() ==> rooms_apart(ts, #[trigger] rooms0[i], PlacedRoom { template: ti, x: nx, y: ny }));
    }
    let new_idx = place(templates, &mut layout.rooms, open, ti, nx, ny, Ghost(target));
    let ghost opened = open@;
    drop_door(open, new_idx, tdoor);
    proof {
        lemma_subset_keeps_open(ts, layout.rooms@, opened, open@, target);
        lemma_spec_opposite_involution(od.door.side);
        lemma_tree_grows(ts, allow, rooms0, conns0, host, od.door, PlacedRoom { template: ti, x: nx, y: ny }, tdoor, exit_cell);
    }
    layout.connections.push((host, new_idx, exit_cell));
    proof {
        assert(layout.rooms@[0] == rooms0[0]);
        reveal(door_dropped);
    }
}

proof fn lemma_spec_opposite_involution(s: Side)
    ensures
        spec_opposite(spec_opposite(s)) == s,
{
}

/// One growth attempt from the current layout, open doors and generator
/// (see [`grow_step`]); counts the attempt.
fn grow_attempt<F: Fn(u32, Vec<u32>) -> usize>(
    templates: &[RoomTemplate],
    grammar: &RealmGrammar,
    rng: &mut Pcg32,
    pick: &F,
    layout: &mut RealmLayout,
    open: &mut Vec<OpenDoor>,
    attempts: &mut u32,
)
    requires
        grammar.target_rooms as int * 64 <= u32::MAX,
        all_fit(templates@, grammar.target_rooms),
        1 <= old(layout).rooms@.len() < room_cap(grammar.target_rooms),
        old(open)@.len() > 0,
        *old(attempts) < u32::MAX,
        rooms_ok(templates@, old(layout).rooms@, grammar.target_rooms),
        opens_ok(templates@, old(layout).rooms@, old(open)@, grammar.target_rooms),
        grown_tree(templates@, allow_view(*grammar), old(layout).rooms@, old(layout).connections@),
        forall|x: u32, w: Vec<u32>| w@.len() > 0 ==> #[trigger] call_requires(*pick, (x, w)),
        forall|x: u32, w: Vec<u32>, c: usize| w@.len() > 0 && #[trigger] call_ensures(*pick, (x, w), c) ==> c < w@.len(),
    ensures
        grow_step(
            templates@,
            allow_view(*grammar),
            *pick,
            old(rng).incr(),
            (old(layout).rooms@, old(layout).connections@, old(open)@, *old(attempts) as nat, old(rng).st()),
            (final(layout).rooms@, final(layout).connections@, final(open)@, *final(attempts) as nat, final(rng).st()),
        ),
        *final(attempts) == *old(attempts) + 1,
        final(rng).incr() == old(rng).incr(),
        rooms_ok(templates@, final(layout).rooms@, grammar.target_rooms),
        opens_ok(templates@, final(layout).rooms@, final(open)@, grammar.target_rooms),
        grown_tree(templates@, allow_view(*grammar), final(layout).rooms@, final(layout).connections@),
        final(layout).rooms@.len() <= old(layout).rooms@.len() + 1,
        final(layout).rooms@[0] == old(layout).rooms@[0],
{
    let ghost ts = templates@;
    let ghost allow = allow_view(*grammar);
    let ghost target = grammar.target_rooms;
    let ghost inc = rng.incr();
    let ghost prev = (layout.rooms@, layout.connections@, open@, *attempts as nat, rng.st());
    *attempts = *attempts + 1;
    proof {
        lemma_budget(target, layout.rooms@.len() as int);
    }
    let du = rng.range_u32(open.len() as u32);
    let ghost st1 = rng.st();
    let di = du as usize;
    let od = open[di];
    proof {
        assert(open_ok(ts, layout.rooms@, open@[di as int], target));
    }
    let host_room = layout.rooms[od.room];
    let host_t = &templates[host_room.template];
    let need = od.door.side.opposite();
    let (cand, weights) = candidates(templates, grammar, host_t, need);
    if cand.len() == 0 {
        let ghost pre = open@;
        open.swap_remove(di);
        proof {
            lemma_swap_remove_keeps_open(ts, layout.rooms@, pre, di as int, target);
            lemma_step_closes(ts, allow, *pick, inc, prev, st1, du);
        }
    } else {
        let draw = rng.next_u32();
        let ghost w0 = weights;
        proof {
            assert(w0@ =~= cand@.map_values(|p: (usize, Door)| ts[p.0 as int].weight_bits));
        }
        let p = pick(draw, weights);
        let (ti, tdoor) = cand[p];
        proof {
            let (tj, dj) = cand@[p as int];
            assert(door_of(ts[ti as int], tdoor));
        }
        attach_room(templates, grammar, layout, open, di, ti, tdoor);
        proof {
            lemma_step_tries(ts, allow, *pick, inc, prev, st1, du, w0, p,
                (layout.rooms@, layout.connections@, open@, *attempts as nat, rng.st()));
        }
    }
}

/// Assembles a connected realm, growing it door by door from the template
/// named `grammar.start` at the origin until `grammar.target_rooms` rooms are
/// placed, no door is left open, or `64 × target_rooms` attempts are spent.
///
/// Each attempt draws an open door (`range_u32`), collects the templates
/// with a door on the opposite wall that the tag grammar admits, then draws
/// one `u32` and hands it with the candidates' weight bits to `pick`, which
/// chooses the candidate. A template whose rectangle would share a cell with
/// a placed room is not placed and the door stays open.
///
/// `None` exactly when no template carries the start name.
#[verifier::spinoff_prover]
pub fn assemble(
    templates: &[RoomTemplate],
    grammar: &RealmGrammar,
    rng: &mut Pcg32,
    pick: impl Fn(u32, Vec<u32>) -> usize,
) -> (r: Option<RealmLayout>)
    requires
        grammar.target_rooms as int * 64 <= u32::MAX,
        forall|i: int| 0 <= i < templates@.len() ==> template_fits(#[trigger] templates@[i], grammar.target_rooms),
        forall|x: u32, w: Vec<u32>| w@.len() > 0 ==> #[trigger] call_requires(pick, (x, w)),
        forall|x: u32, w: Vec<u32>, c: usize| w@.len() > 0 && #[trigger] call_ensures(pick, (x, w), c) ==> c < w@.len(),
    ensures
        r is None <==> !has_named(templates@, grammar.start@),
        r matches Some(l) ==> {
            &&& l.rooms@.len() >= 1
            &&& l.rooms@.len() <= if grammar.target_rooms == 0 { 1 } else { grammar.target_rooms as int }
            &&& first_named(templates@, grammar.start@, l.rooms@[0].template as int)
            &&& l.rooms@[0].x == 0 && l.rooms@[0].y == 0
            &&& rooms_disjoint(templates@, l.rooms@)
            &&& grown_tree(templates@, allow_view(*grammar), l.rooms@, l.connections@)
            &&& exists|trace: Seq<GrowState>|
                #[trigger] grow_run(templates@, allow_view(*grammar), pick, old(rng).incr(), grammar.target_rooms, trace)
                && trace[0] == grow_start(templates@, l.rooms@[0].template, old(rng).st())
                && trace.last().0 == l.rooms@
                && trace.last().1 == l.connections@
                && trace.last().4 == final(rng).st()
        },
        r is None ==> final(rng).st() == old(rng).st(),
        final(rng).incr() == old(rng).incr(),
{
    let start_idx = match find_named(templates, grammar.start.as_str()) {
        Some(i) => i,
        None => {
            return None;
        },
    };
    let ghost ts = templates@;
    let ghost allow = allow_view(*grammar);
    let mut layout = RealmLayout::new();
    let mut open: Vec<OpenDoor> = Vec::new();
    let target = grammar.target_rooms;
    proof {
        assert(all_fit(ts, target));
        assert(rooms_ok(ts, layout.rooms@, target));
        lemma_budget(target, 0);
    }
    place(templates, &mut layout.rooms, &mut open, start_idx, 0, 0, Ghost(target));
    let ghost cap: int = if target == 0 { 1 } else { target as int };
    let max_attempts: u32 = target * 64;
    let mut attempts: u32 = 0;
    assert(grown_tree(ts, allow, layout.rooms@, layout.connections@));
    let ghost inc = rng.incr();
    let ghost init = grow_start(ts, start_idx, rng.st());
    proof {
        assert(open@ =~= init.2);
        assert(layout.rooms@ =~= init.0);
        assert(layout.connections@ =~= init.1);
    }
    let ghost mut trace: Seq<GrowState> = seq![init];
    while (layout.rooms.len() as u32) < target && open.len() > 0 && attempts < max_attempts
        invariant
            ts == templates@,
            allow == allow_view(*grammar),
            all_fit(ts, target),
            target == grammar.target_rooms,
            target as int * 64 <= u32::MAX,
            cap == (if target == 0 { 1 } else { target as int }),
            max_attempts == target * 64,
            attempts <= max_attempts,
            1 <= layout.rooms@.len() <= cap,
            first_named(ts, grammar.start@, layout.rooms@[0].template as int),
            layout.rooms@[0].x == 0 && layout.rooms@[0].y == 0,
            rooms_ok(ts, layout.rooms@, target),
            opens_ok(ts, layout.rooms@, open@, target),
            grown_tree(ts, allow, layout.rooms@, layout.connections@),
            forall|x: u32, w: Vec<u32>| w@.len() > 0 ==> #[trigger] call_requires(pick, (x, w)),
            forall|x: u32, w: Vec<u32>, c: usize| w@.len() > 0 && #[trigger] call_ensures(pick, (x, w), c) ==> c < w@.len(),
            rng.incr() == inc,
            layout.rooms@[0].template == start_idx,
            trace.len() >= 1,
            trace[0] == init,
            trace.last() == (layout.rooms@, layout.connections@, open@, attempts as nat, rng.st()),
            forall|k: int| 0 <= k < trace.len() - 1 ==> keeps_growing(#[trigger] trace[k], target)
                && grow_step(ts, allow, pick, inc, trace[k], trace[k + 1]),
        decreases max_attempts - attempts,
    {
        let ghost prev = trace.last();
        assert(keeps_growing(prev, target));
        grow_attempt(templates, grammar, rng, &pick, &mut layout, &mut open, &mut attempts);
        proof {
            trace = trace.push((layout.rooms@, layout.connections@, open@, attempts as nat, rng.st()));
        }
    }
    proof {
        assert(grow_run(ts, allow, pick, inc, target, trace));
    }
    Some(layout)
}


/// Law (no overlap): in a layout whose rooms are disjoint, no cell belongs to
/// two different rooms.
pub proof fn law_rooms_never_share_a_cell(ts: Seq<RoomTemplate>, rooms: Seq<PlacedRoom>, i: int, j: int, cx: int, cy: int)
    requires
        rooms_disjoint(ts, rooms),
        0 <= i < rooms.len(),
        0 <= j < rooms.len(),
        i != j,
    ensures
        !(room_has(ts, rooms[i], cx, cy) && room_has(ts, rooms[j], cx, cy)),
{
    if i < j {
        assert(rooms_apart(ts, rooms[i], rooms[j]));
    } else {
        assert(rooms_apart(ts, rooms[j], rooms[i]));
    }
}

/// Law (connectivity): in a layout grown as a tree, every room after the
/// first takes part in a passage: the one that joined it to an earlier room.
pub proof fn law_every_room_is_connected(
    ts: Seq<RoomTemplate>,
    allow: Seq<(Seq<char>, Seq<char>)>,
    rooms: Seq<PlacedRoom>,
    conns: Seq<(usize, usize, (i32, i32))>,
    i: int,
)
    requires
        grown_tree(ts, allow, rooms, conns),
        1 <= i < rooms.len(),
    ensures
        exists|k: int| 0 <= k < conns.len() && (#[trigger] conns[k]).1 == i,
        conns[i - 1].1 == i && conns[i - 1].0 < i,
{
    assert(conns[i - 1].1 == i);
}


impl Default for RealmLayout {
    fn default() -> (r: Self)
        ensures
            r.rooms@ == Seq::<PlacedRoom>::empty(),
            r.connections@ == Seq::<(usize, usize, (i32, i32))>::empty(),
    {
        RealmLayout::new()
    }
}

/// Law (tag grammar): adjacency does not depend on the order of the two
/// rooms; with no allow-list every pair connects; a room without tags
/// connects to every room; a listed pair of tags connects rooms carrying
/// them (either way round); two tagged rooms none of whose tag pairs is
/// listed do not connect.
pub proof fn law_tag_grammar(allow: Seq<(Seq<char>, Seq<char>)>, a: Seq<Seq<char>>, b: Seq<Seq<char>>)
    ensures
        spec_tags_allowed(allow, a, b) == spec_tags_allowed(allow, b, a),
        allow.len() == 0 ==> spec_tags_allowed(allow, a, b),
        a.len() == 0 ==> spec_tags_allowed(allow, a, b),
        b.len() == 0 ==> spec_tags_allowed(allow, a, b),
        forall|k: int, i: int, j: int|
            0 <= k < allow.len() && 0 <= i < a.len() && 0 <= j < b.len()
                && ((allow[k].0 == a[i] && allow[k].1 == b[j]) || (allow[k].0 == b[j] && allow[k].1 == a[i]))
                ==> #[trigger] spec_tags_allowed(allow, a, b),
        allow.len() > 0 && a.len() > 0 && b.len() > 0 && (forall|k: int, i: int, j: int|
            0 <= k < allow.len() && 0 <= i < a.len() && 0 <= j < b.len() ==> !(allow[k].0 == a[i] && allow[k].1 == b[j])
                && !(allow[k].0 == b[j] && allow[k].1 == a[i]))
            ==> !spec_tags_allowed(allow, a, b),
{
    if allow.len() > 0 && a.len() > 0 && b.len() > 0 {
        if spec_tags_allowed(allow, a, b) {
            let (i, j, k) = choose|i: int, j: int, k: int|
                0 <= i < a.len() && 0 <= j < b.len() && 0 <= k < allow.len() && #[trigger] pair_matches(allow[k], a[i], b[j]);
            assert(pair_matches(allow[k], b[j], a[i]));
        }
        if spec_tags_allowed(allow, b, a) {
            let (j, i, k) = choose|j: int, i: int, k: int|
                0 <= j < b.len() && 0 <= i < a.len() && 0 <= k < allow.len() && #[trigger] pair_matches(allow[k], b[j], a[i]);
            assert(pair_matches(allow[k], a[i], b[j]));
        }
    }
    assert forall|k: int, i: int, j: int|
        0 <= k < allow.len() && 0 <= i < a.len() && 0 <= j < b.len()
            && ((allow[k].0 == a[i] && allow[k].1 == b[j]) || (allow[k].0 == b[j] && allow[k].1 == a[i]))
        implies #[trigger] spec_tags_allowed(allow, a, b) by {
        assert(pair_matches(allow[k], a[i], b[j]));
    }
}

} // verus!
