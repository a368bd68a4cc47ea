//! The application state that does not live on the GPU: the stylesheet, the
//! statistics, the tiles in view and the selected map objects.

use vstd::prelude::*;
use crate::css::RulesCache;
use crate::stats::Stats;
use crate::ui_state::UIState;

verus! {

/// The id of a map tile: zoom level `z` and position `x`, `y` in the grid of
/// `2^z` by `2^z` tiles.
#[derive(Clone, Copy, Debug, PartialEq, Eq, Structural, Hash)]
pub struct TileId {
    pub z: u32,
    pub x: u32,
    pub y: u32,
}

impl TileId {
    pub fn new(z: u32, x: u32, y: u32) -> (t: Self)
        ensures
            t == (TileId { z, x, y }),
    {
        TileId { z, x, y }
    }
}

/// A selected map object together with the tile it was found in.
pub struct EditableObject<O> {
    pub tile_id: TileId,
    pub object: O,
}

impl<O> EditableObject<O> {
    pub fn new(tile_id: TileId, object: O) -> (e: Self)
        ensures
            e.tile_id == tile_id,
            e.object == object,
    {
        EditableObject { tile_id, object }
    }
}

/// The labels of the selected objects: each object's name, the selected one
/// marked with ` •`.
pub open spec fn labels_for(names: Seq<Seq<char>>, selected: int) -> Seq<Seq<char>> {
    Seq::new(
        names.len(),
        |i: int| if i == selected { names[i] + seq![' ', '•'] } else { names[i] },
    )
}

/// The position selected after advancing the selection `steps` times from
/// `selected` among `len` objects.
pub open spec fn advanced(selected: int, len: int, steps: nat) -> int
    decreases steps,
{
    if steps == 0 {
        selected
    } else {
        (advanced(selected, len, (steps - 1) as nat) + 1) % len
    }
}

proof fn lemma_advanced_is_shift(selected: int, len: int, steps: nat)
    requires
        0 <= selected < len,
    ensures
        advanced(selected, len, steps) == (selected + steps) % len,
    decreases steps,
{
    if steps > 0 {
        lemma_advanced_is_shift(selected, len, (steps - 1) as nat);
        let a = selected + steps - 1;
        assert(advanced(selected, len, steps) == (a % len + 1) % len);
        if len > 1 {
            vstd::arithmetic::div_mod::lemma_add_mod_noop(a, 1, len);
            vstd::arithmetic::div_mod::lemma_small_mod(1, len as nat);
            assert((a % len + 1) % len == (a + 1) % len);
        } else {
            assert((a % len + 1) % len == 0) by (nonlinear_arith)
                requires len == 1;
            assert((a + 1) % len == 0) by (nonlinear_arith)
                requires len == 1;
        }
        assert(a + 1 == selected + steps);
    } else {
        vstd::arithmetic::div_mod::lemma_small_mod(selected as nat, len as nat);
    }
}

/// Advancing the selection visits the objects in turn, one step further each
/// time, and after one step per object it is back where it started.
pub proof fn lemma_advance_cycles(selected: int, len: int)
    requires
        0 <= selected < len,
    ensures
        forall|k: nat| k < len ==> #[trigger] advanced(selected, len, k) == (selected + k) % len,
        advanced(selected, len, len as nat) == selected,
{
    assert forall|k: nat| k < len implies #[trigger] advanced(selected, len, k) == (selected + k) % len by {
        lemma_advanced_is_shift(selected, len, k);
    }
    lemma_advanced_is_shift(selected, len, len as nat);
    vstd::arithmetic::div_mod::lemma_mod_add_multiples_vanish(selected, len);
    vstd::arithmetic::div_mod::lemma_small_mod(selected as nat, len as nat);
}

/// The position of the first occurrence of `t` in `tiles`, or the number of
/// tiles when there is none.
pub open spec fn first_index(tiles: Seq<TileId>, t: TileId) -> int
    decreases tiles.len(),
{
    if tiles.len() == 0 {
        0
    } else if tiles[0] == t {
        0
    } else {
        1 + first_index(tiles.drop_first(), t)
    }
}

/// The tiles of `tiles` with the first occurrence of `t` removed the way
/// `Vec::swap_remove` removes it: the last tile takes its place.
pub open spec fn without_tile(tiles: Seq<TileId>, t: TileId) -> Seq<TileId> {
    let i = first_index(tiles, t);
    if i < tiles.len() {
        tiles.update(i, tiles.last()).drop_last()
    } else {
        tiles
    }
}

/// The tiles of `tiles`, each in turn, dropped from `visible` when they are
/// out of view: tiles of zoom level `parent_z` when they are not in
/// `parent_field`, other tiles when they are not in `field`.
pub open spec fn pruned_tiles(
    visible: Seq<TileId>,
    tiles: Seq<TileId>,
    field: Seq<TileId>,
    parent_field: Seq<TileId>,
    parent_z: u32,
) -> Seq<TileId>
    decreases tiles.len(),
{
    if tiles.len() == 0 {
        visible
    } else {
        let t = tiles[0];
        let keep = if t.z == parent_z { parent_field.contains(t) } else { field.contains(t) };
        pruned_tiles(
            if keep { visible } else { without_tile(visible, t) },
            tiles.drop_first(),
            field,
            parent_field,
            parent_z,
        )
    }
}

/// The four tiles of `t`'s zoom level that share its parent.
pub open spec fn siblings(t: TileId) -> Seq<TileId> {
    let nx = ((t.x / 2) * 2) as u32;
    let ny = ((t.y / 2) * 2) as u32;
    seq![
        TileId { z: t.z, x: nx, y: ny },
        TileId { z: t.z, x: (nx + 1) as u32, y: ny },
        TileId { z: t.z, x: (nx + 1) as u32, y: (ny + 1) as u32 },
        TileId { z: t.z, x: nx, y: (ny + 1) as u32 },
    ]
}

/// The tile one zoom level up that covers `t`.
pub open spec fn parent(t: TileId) -> TileId {
    TileId { z: (t.z - 1) as u32, x: t.x / 2, y: t.y / 2 }
}

/// The four tiles one zoom level down that `t` covers.
pub open spec fn children(t: TileId) -> Seq<TileId> {
    let z = (t.z + 1) as u32;
    let x = (t.x * 2) as u32;
    let y = (t.y * 2) as u32;
    seq![
        TileId { z: z, x: x, y: y },
        TileId { z: z, x: (x + 1) as u32, y: y },
        TileId { z: z, x: (x + 1) as u32, y: (y + 1) as u32 },
        TileId { z: z, x: x, y: (y + 1) as u32 },
    ]
}

/// A sibling no longer needs its parent: it is out of the field, or in view.
pub open spec fn settled(visible: Seq<TileId>, field: Seq<TileId>, s: TileId) -> bool {
    !field.contains(s) || visible.contains(s)
}

/// All four siblings of `t` are settled.
pub open spec fn siblings_settled(visible: Seq<TileId>, field: Seq<TileId>, t: TileId) -> bool {
    forall|k: int| 0 <= k < 4 ==> settled(visible, field, #[trigger] siblings(t)[k])
}

/// `visible` with each of `tiles` removed in turn.
pub open spec fn without_tiles(visible: Seq<TileId>, tiles: Seq<TileId>) -> Seq<TileId>
    decreases tiles.len(),
{
    if tiles.len() == 0 {
        visible
    } else {
        without_tiles(without_tile(visible, tiles[0]), tiles.drop_first())
    }
}

/// The tiles in view once the loaded tile `t` is added: its parent is
/// dropped when all four siblings are settled, and its four children are
/// dropped.
pub open spec fn admitted(visible: Seq<TileId>, t: TileId, field: Seq<TileId>) -> Seq<TileId> {
    let v1 = visible.push(t);
    let v2 = if siblings_settled(v1, field, t) { without_tile(v1, parent(t)) } else { v1 };
    without_tiles(v2, children(t))
}

/// Where `first_index` points.
pub proof fn lemma_first_index(tiles: Seq<TileId>, t: TileId)
    ensures
        0 <= first_index(tiles, t) <= tiles.len(),
        first_index(tiles, t) < tiles.len() ==> tiles[first_index(tiles, t)] == t,
        forall|j: int| 0 <= j < first_index(tiles, t) ==> tiles[j] != t,
        first_index(tiles, t) == tiles.len() <==> !tiles.contains(t),
    decreases tiles.len(),
{
    if tiles.len() > 0 && tiles[0] != t {
        lemma_first_index(tiles.drop_first(), t);
        assert forall|j: int| 0 <= j < first_index(tiles, t) implies tiles[j] != t by {
            if j > 0 {
                assert(tiles[j] == tiles.drop_first()[j - 1]);
            }
        }
        if tiles.contains(t) {
            let j = choose|j: int| 0 <= j < tiles.len() && tiles[j] == t;
            assert(tiles.drop_first()[j - 1] == t);
        }
        if tiles.drop_first().contains(t) {
            let j = choose|j: int| 0 <= j < tiles.drop_first().len() && tiles.drop_first()[j] == t;
            assert(tiles[j + 1] == t);
        }
    }
}

/// Removing a tile from tiles that hold no tile twice leaves tiles that hold
/// no tile twice, without that tile, and with every other tile they held.
pub proof fn lemma_without_tile(tiles: Seq<TileId>, t: TileId)
    requires
        tiles.no_duplicates(),
    ensures
        without_tile(tiles, t).no_duplicates(),
        !without_tile(tiles, t).contains(t),
        forall|u: TileId| u != t ==> (without_tile(tiles, t).contains(u) <==> tiles.contains(u)),
{
    lemma_first_index(tiles, t);
    let i = first_index(tiles, t);
    if i < tiles.len() {
        let n = tiles.len();
        let r = tiles.update(i, tiles.last()).drop_last();
        assert forall|a: int, b: int| 0 <= a < r.len() && 0 <= b < r.len() && a != b implies r[a] != r[b] by {
            let ia = if a == i { n - 1 } else { a };
            let ib = if b == i { n - 1 } else { b };
            assert(r[a] == tiles[ia] && r[b] == tiles[ib]);
        }
        assert(!r.contains(t)) by {
            if r.contains(t) {
                let j = choose|j: int| 0 <= j < r.len() && r[j] == t;
                let ij = if j == i { n - 1 } else { j };
                assert(tiles[ij] == t && tiles[i] == t);
            }
        }
        assert forall|u: TileId| u != t implies (r.contains(u) <==> tiles.contains(u)) by {
            if r.contains(u) {
                let j = choose|j: int| 0 <= j < r.len() && r[j] == u;
                let ij = if j == i { n - 1 } else { j };
                assert(tiles[ij] == u);
            }
            if tiles.contains(u) {
                let j = choose|j: int| 0 <= j < tiles.len() && tiles[j] == u;
                if j == n - 1 {
                    if i == n - 1 {
                        assert(tiles[j] == t);
                    } else {
                        assert(r[i] == u);
                    }
                } else {
                    assert(j != i);
                    assert(r[j] == u);
                }
            }
        }
    }
}

/// Dropping tiles that left the view keeps the tiles in view free of
/// duplicates.
pub proof fn lemma_pruned_no_duplicates(
    visible: Seq<TileId>,
    tiles: Seq<TileId>,
    field: Seq<TileId>,
    parent_field: Seq<TileId>,
    parent_z: u32,
)
    requires
        visible.no_duplicates(),
    ensures
        pruned_tiles(visible, tiles, field, parent_field, parent_z).no_duplicates(),
    decreases tiles.len(),
{
    if tiles.len() > 0 {
        lemma_without_tile(visible, tiles[0]);
        let t = tiles[0];
        let keep = if t.z == parent_z { parent_field.contains(t) } else { field.contains(t) };
        lemma_pruned_no_duplicates(
            if keep { visible } else { without_tile(visible, t) },
            tiles.drop_first(),
            field,
            parent_field,
            parent_z,
        );
    }
}

/// Whether `t` is still in view: in `parent_field` for a tile of zoom level
/// `parent_z`, in `field` for any other tile.
pub open spec fn in_view(t: TileId, field: Seq<TileId>, parent_field: Seq<TileId>, parent_z: u32) -> bool {
    if t.z == parent_z {
        parent_field.contains(t)
    } else {
        field.contains(t)
    }
}

proof fn lemma_pruned_members(
    visible: Seq<TileId>,
    tiles: Seq<TileId>,
    field: Seq<TileId>,
    parent_field: Seq<TileId>,
    parent_z: u32,
)
    requires
        visible.no_duplicates(),
    ensures
        forall|u: TileId| #[trigger] pruned_tiles(visible, tiles, field, parent_field, parent_z).contains(u)
            <==> visible.contains(u) && (tiles.contains(u) ==> in_view(u, field, parent_field, parent_z)),
    decreases tiles.len(),
{
    if tiles.len() > 0 {
        let t = tiles[0];
        let rest = tiles.drop_first();
        lemma_without_tile(visible, t);
        let keep = in_view(t, field, parent_field, parent_z);
        let next = if keep { visible } else { without_tile(visible, t) };
        lemma_pruned_members(next, rest, field, parent_field, parent_z);
        assert forall|u: TileId| tiles.contains(u) <==> (u == t || rest.contains(u)) by {
            if tiles.contains(u) && u != t {
                let j = choose|j: int| 0 <= j < tiles.len() && tiles[j] == u;
                assert(rest[j - 1] == u);
            }
            if rest.contains(u) {
                let j = choose|j: int| 0 <= j < rest.len() && rest[j] == u;
                assert(tiles[j + 1] == u);
            }
            if u == t {
                assert(tiles[0] == u);
            }
        }
        assert(pruned_tiles(visible, tiles, field, parent_field, parent_z) == pruned_tiles(
            next,
            rest,
            field,
            parent_field,
            parent_z,
        ));
        assert forall|u: TileId| #[trigger] pruned_tiles(visible, tiles, field, parent_field, parent_z).contains(u)
            <==> visible.contains(u) && (tiles.contains(u) ==> in_view(u, field, parent_field, parent_z)) by {
            assert(pruned_tiles(next, rest, field, parent_field, parent_z).contains(u)
                <==> next.contains(u) && (rest.contains(u) ==> in_view(u, field, parent_field, parent_z)));
        }
    }
}

/// Pruning the tiles in view against the fields keeps exactly the tiles
/// that are still in view: a tile of zoom level `parent_z` stays while it is
/// in `parent_field`, any other tile while it is in `field`; no tile is
/// held twice afterwards.
pub proof fn lemma_pruned_keeps_what_is_in_view(
    visible: Seq<TileId>,
    field: Seq<TileId>,
    parent_field: Seq<TileId>,
    parent_z: u32,
)
    requires
        visible.no_duplicates(),
    ensures
        pruned_tiles(visible, visible, field, parent_field, parent_z).no_duplicates(),
        forall|u: TileId| #[trigger] pruned_tiles(visible, visible, field, parent_field, parent_z).contains(u)
            <==> visible.contains(u) && in_view(u, field, parent_field, parent_z),
{
    lemma_pruned_members(visible, visible, field, parent_field, parent_z);
    lemma_pruned_no_duplicates(visible, visible, field, parent_field, parent_z);
}

proof fn lemma_without_tiles(visible: Seq<TileId>, tiles: Seq<TileId>, keep: TileId)
    requires
        visible.no_duplicates(),
        visible.contains(keep),
        !tiles.contains(keep),
    ensures
        without_tiles(visible, tiles).no_duplicates(),
        without_tiles(visible, tiles).contains(keep),
    decreases tiles.len(),
{
    if tiles.len() > 0 {
        lemma_without_tile(visible, tiles[0]);
        assert(tiles[0] != keep);
        assert forall|j: int| 0 <= j < tiles.drop_first().len() implies tiles.drop_first()[j] != keep by {
            assert(tiles.drop_first()[j] == tiles[j + 1]);
        }
        lemma_without_tiles(without_tile(visible, tiles[0]), tiles.drop_first(), keep);
    }
}

/// Adding a loaded tile that was not in view keeps the tiles in view free of
/// duplicates, and the tile is in view afterwards.
pub proof fn lemma_admitted(visible: Seq<TileId>, t: TileId, field: Seq<TileId>)
    requires
        visible.no_duplicates(),
        !visible.contains(t),
        t.z < u32::MAX,
        t.z == 0 ==> !siblings_settled(visible.push(t), field, t),
    ensures
        admitted(visible, t, field).no_duplicates(),
        admitted(visible, t, field).contains(t),
{
    let v1 = visible.push(t);
    assert(v1.no_duplicates()) by {
        assert forall|a: int, b: int| 0 <= a < v1.len() && 0 <= b < v1.len() && a != b implies v1[a] != v1[b] by {
            if a < visible.len() && b < visible.len() {
                assert(v1[a] == visible[a] && v1[b] == visible[b]);
            } else if a == visible.len() {
                assert(visible.contains(v1[b]) || b == visible.len());
            } else {
                assert(visible.contains(v1[a]) || a == visible.len());
            }
        }
    }
    assert(v1.contains(t)) by {
        assert(v1[visible.len() as int] == t);
    }
    let v2 = if siblings_settled(v1, field, t) { without_tile(v1, parent(t)) } else { v1 };
    lemma_without_tile(v1, parent(t));
    if siblings_settled(v1, field, t) {
        assert(parent(t) != t);
    }
    assert(v2.contains(t));
    assert(!children(t).contains(t)) by {
        if children(t).contains(t) {
            let j = choose|j: int| 0 <= j < 4 && children(t)[j] == t;
            assert(children(t)[j].z == t.z + 1);
        }
    }
    lemma_without_tiles(v2, children(t), t);
}

proof fn lemma_without_tiles_members(visible: Seq<TileId>, tiles: Seq<TileId>)
    requires
        visible.no_duplicates(),
    ensures
        without_tiles(visible, tiles).no_duplicates(),
        forall|u: TileId| #[trigger] without_tiles(visible, tiles).contains(u)
            <==> visible.contains(u) && !tiles.contains(u),
    decreases tiles.len(),
{
    if tiles.len() > 0 {
        let rest = tiles.drop_first();
        lemma_without_tile(visible, tiles[0]);
        lemma_without_tiles_members(without_tile(visible, tiles[0]), rest);
        assert forall|u: TileId| tiles.contains(u) <==> (u == tiles[0] || rest.contains(u)) by {
            if tiles.contains(u) && u != tiles[0] {
                let j = choose|j: int| 0 <= j < tiles.len() && tiles[j] == u;
                assert(rest[j - 1] == u);
            }
            if rest.contains(u) {
                let j = choose|j: int| 0 <= j < rest.len() && rest[j] == u;
                assert(tiles[j + 1] == u);
            }
            if u == tiles[0] {
                assert(tiles.contains(u));
            }
        }
    }
}

proof fn lemma_admitted_members(visible: Seq<TileId>, t: TileId, field: Seq<TileId>)
    requires
        visible.no_duplicates(),
        !visible.contains(t),
        0 < t.z < u32::MAX,
    ensures
        admitted(visible, t, field).no_duplicates(),
        forall|u: TileId| #[trigger] admitted(visible, t, field).contains(u) ==> u == t || visible.contains(u),
        forall|u: TileId| u.z == t.z && (u == t || visible.contains(u))
            ==> #[trigger] admitted(visible, t, field).contains(u),
{
    let v1 = visible.push(t);
    assert(v1.no_duplicates()) by {
        assert forall|a: int, b: int| 0 <= a < v1.len() && 0 <= b < v1.len() && a != b implies v1[a] != v1[b] by {
            if a < visible.len() && b < visible.len() {
                assert(v1[a] == visible[a] && v1[b] == visible[b]);
            } else if a == visible.len() {
                assert(visible.contains(v1[b]) || b == visible.len());
            } else {
                assert(visible.contains(v1[a]) || a == visible.len());
            }
        }
    }
    assert forall|u: TileId| #[trigger] v1.contains(u) <==> (u == t || visible.contains(u)) by {
        if v1.contains(u) && u != t {
            let j = choose|j: int| 0 <= j < v1.len() && v1[j] == u;
            assert(visible[j] == u);
        }
        if visible.contains(u) {
            let j = choose|j: int| 0 <= j < visible.len() && visible[j] == u;
            assert(v1[j] == u);
        }
        if u == t {
            assert(v1[visible.len() as int] == u);
        }
    }
    let v2 = if siblings_settled(v1, field, t) { without_tile(v1, parent(t)) } else { v1 };
    lemma_without_tile(v1, parent(t));
    lemma_without_tiles_members(v2, children(t));
    assert forall|u: TileId| u.z == t.z implies !(#[trigger] children(t).contains(u)) && u != parent(t) by {
        if children(t).contains(u) {
            let j = choose|j: int| 0 <= j < 4 && children(t)[j] == u;
            assert(children(t)[j].z == t.z + 1);
        }
    }
    assert(admitted(visible, t, field) == without_tiles(v2, children(t)));
    assert forall|u: TileId| #[trigger] v2.contains(u) implies u == t || visible.contains(u) by {
        if siblings_settled(v1, field, t) && u != parent(t) {
            assert(v1.contains(u));
        }
    }
    assert forall|u: TileId| #[trigger] admitted(visible, t, field).contains(u) implies u == t || visible.contains(u) by {
        assert(v2.contains(u));
    }
    assert forall|u: TileId| u.z == t.z && (u == t || visible.contains(u))
        implies #[trigger] admitted(visible, t, field).contains(u) by {
        assert(v1.contains(u));
        assert(u != parent(t));
        assert(v2.contains(u));
        assert(!children(t).contains(u));
    }
}

/// The tiles in view once the tiles `loaded` are loaded one after the
/// other: each that is not in view yet is admitted.
pub open spec fn loaded_tiles(visible: Seq<TileId>, loaded: Seq<TileId>, field: Seq<TileId>) -> Seq<TileId>
    decreases loaded.len(),
{
    if loaded.len() == 0 {
        visible
    } else {
        let t = loaded[0];
        let next = if visible.contains(t) { visible } else { admitted(visible, t, field) };
        loaded_tiles(next, loaded.drop_first(), field)
    }
}

proof fn lemma_loaded_tiles(
    visible: Seq<TileId>,
    loaded: Seq<TileId>,
    field: Seq<TileId>,
    parent_field: Seq<TileId>,
    parent_z: u32,
    zoom: u32,
)
    requires
        visible.no_duplicates(),
        forall|u: TileId| #[trigger] visible.contains(u) ==> in_view(u, field, parent_field, parent_z),
        forall|j: int| 0 <= j < loaded.len() ==> field.contains(#[trigger] loaded[j]) && loaded[j].z == zoom,
        0 < zoom < u32::MAX,
        zoom != parent_z,
    ensures
        loaded_tiles(visible, loaded, field).no_duplicates(),
        forall|u: TileId| #[trigger] loaded_tiles(visible, loaded, field).contains(u)
            ==> in_view(u, field, parent_field, parent_z),
        forall|j: int| 0 <= j < loaded.len() ==> loaded_tiles(visible, loaded, field).contains(#[trigger] loaded[j]),
        forall|u: TileId| visible.contains(u) && u.z == zoom ==> #[trigger] loaded_tiles(visible, loaded, field).contains(u),
    decreases loaded.len(),
{
    if loaded.len() > 0 {
        let t = loaded[0];
        let rest = loaded.drop_first();
        let next = if visible.contains(t) { visible } else { admitted(visible, t, field) };
        if !visible.contains(t) {
            lemma_admitted_members(visible, t, field);
        }
        assert(next.contains(t));
        assert forall|u: TileId| #[trigger] next.contains(u) implies in_view(u, field, parent_field, parent_z) by {
            if u == t {
                assert(field.contains(loaded[0]));
            }
        }
        assert forall|j: int| 0 <= j < rest.len() implies field.contains(#[trigger] rest[j]) && rest[j].z == zoom by {
            assert(rest[j] == loaded[j + 1]);
        }
        lemma_loaded_tiles(next, rest, field, parent_field, parent_z, zoom);
        assert forall|j: int| 0 <= j < loaded.len() implies loaded_tiles(visible, loaded, field).contains(
            #[trigger] loaded[j],
        ) by {
            if j > 0 {
                assert(loaded[j] == rest[j - 1]);
            }
        }
    }
}

/// Loading the view: once the tiles in view are pruned against the fields
/// and the tiles `loaded` from the field (all of zoom level `zoom`, one
/// above `parent_z`'s) are admitted one after the other, no tile is held
/// twice, every tile held is in view, and every loaded tile is held.
pub proof fn lemma_load_view(
    visible: Seq<TileId>,
    field: Seq<TileId>,
    parent_field: Seq<TileId>,
    parent_z: u32,
    zoom: u32,
    loaded: Seq<TileId>,
)
    requires
        visible.no_duplicates(),
        forall|j: int| 0 <= j < loaded.len() ==> field.contains(#[trigger] loaded[j]) && loaded[j].z == zoom,
        0 < zoom < u32::MAX,
        zoom != parent_z,
    ensures
        ({
            let r = loaded_tiles(pruned_tiles(visible, visible, field, parent_field, parent_z), loaded, field);
            &&& r.no_duplicates()
            &&& forall|u: TileId| #[trigger] r.contains(u) ==> in_view(u, field, parent_field, parent_z)
            &&& forall|j: int| 0 <= j < loaded.len() ==> r.contains(#[trigger] loaded[j])
        }),
{
    lemma_pruned_keeps_what_is_in_view(visible, field, parent_field, parent_z);
    lemma_loaded_tiles(
        pruned_tiles(visible, visible, field, parent_field, parent_z),
        loaded,
        field,
        parent_field,
        parent_z,
        zoom,
    );
}

/// `p` is the tile one zoom level up whose area holds `t`'s.
pub open spec fn covers(p: TileId, t: TileId) -> bool {
    &&& p.z + 1 == t.z
    &&& 2 * p.x <= t.x <= 2 * p.x + 1
    &&& 2 * p.y <= t.y <= 2 * p.y + 1
}

/// The tile family: `parent(t)` is the one tile that covers `t`, the
/// children of `t` are exactly the tiles `t` covers, and the siblings of
/// `t` are exactly the tiles of its zoom level that share its covering tile.
pub proof fn lemma_tile_family(t: TileId)
    requires
        t.z < u32::MAX,
        t.x < 0x8000_0000,
        t.y < 0x8000_0000,
    ensures
        t.z > 0 ==> covers(parent(t), t),
        forall|p: TileId| #[trigger] covers(p, t) ==> p == parent(t),
        forall|c: TileId| #[trigger] children(t).contains(c) <==> covers(t, c),
        forall|u: TileId| #[trigger] siblings(t).contains(u)
            <==> (u.z == t.z && u.x / 2 == t.x / 2 && u.y / 2 == t.y / 2),
{
    assert forall|p: TileId| #[trigger] covers(p, t) implies p == parent(t) by {
        assert(p.x == t.x / 2);
        assert(p.y == t.y / 2);
    }
    let k = children(t);
    assert forall|c: TileId| #[trigger] k.contains(c) <==> covers(t, c) by {
        if k.contains(c) {
            let j = choose|j: int| 0 <= j < 4 && k[j] == c;
            assert(0 <= j < 4);
        }
        if covers(t, c) {
            if c.x == 2 * t.x && c.y == 2 * t.y {
                assert(k[0] == c);
            } else if c.x == 2 * t.x + 1 && c.y == 2 * t.y {
                assert(k[1] == c);
            } else if c.x == 2 * t.x + 1 {
                assert(k[2] == c);
            } else {
                assert(k[3] == c);
            }
        }
    }
    let g = siblings(t);
    assert forall|u: TileId| #[trigger] g.contains(u)
        <==> (u.z == t.z && u.x / 2 == t.x / 2 && u.y / 2 == t.y / 2) by {
        if g.contains(u) {
            let j = choose|j: int| 0 <= j < 4 && g[j] == u;
            assert(0 <= j < 4);
        }
        if u.z == t.z && u.x / 2 == t.x / 2 && u.y / 2 == t.y / 2 {
            let nx = (t.x / 2) * 2;
            let ny = (t.y / 2) * 2;
            if u.x == nx && u.y == ny {
                assert(g[0] == u);
            } else if u.x == nx + 1 && u.y == ny {
                assert(g[1] == u);
            } else if u.x == nx + 1 {
                assert(g[2] == u);
            } else {
                assert(g[3] == u);
            }
        }
    }
}

/// Admitting a loaded tile `t` holds it in view and drops every tile it
/// covers; once all of `t`'s siblings are settled it also drops the tile
/// that covers `t`; every other tile in view stays.
pub proof fn lemma_admit_drops_family(visible: Seq<TileId>, t: TileId, field: Seq<TileId>)
    requires
        visible.no_duplicates(),
        !visible.contains(t),
        0 < t.z < u32::MAX,
        t.x < 0x8000_0000,
        t.y < 0x8000_0000,
    ensures
        admitted(visible, t, field).contains(t),
        forall|c: TileId| #[trigger] covers(t, c) ==> !admitted(visible, t, field).contains(c),
        siblings_settled(visible.push(t), field, t) ==> forall|p: TileId| #[trigger] covers(p, t)
            ==> !admitted(visible, t, field).contains(p),
        forall|u: TileId| visible.contains(u) && !covers(t, u)
            && !(covers(u, t) && siblings_settled(visible.push(t), field, t))
            ==> #[trigger] admitted(visible, t, field).contains(u),
{
    lemma_tile_family(t);
    let v1 = visible.push(t);
    assert(v1.no_duplicates()) by {
        assert forall|a: int, b: int| 0 <= a < v1.len() && 0 <= b < v1.len() && a != b implies v1[a] != v1[b] by {
            if a < visible.len() && b < visible.len() {
                assert(v1[a] == visible[a] && v1[b] == visible[b]);
            } else if a == visible.len() {
                assert(visible.contains(v1[b]) || b == visible.len());
            } else {
                assert(visible.contains(v1[a]) || a == visible.len());
            }
        }
    }
    assert forall|u: TileId| #[trigger] v1.contains(u) <==> (u == t || visible.contains(u)) by {
        if v1.contains(u) && u != t {
            let j = choose|j: int| 0 <= j < v1.len() && v1[j] == u;
            assert(visible[j] == u);
        }
        if visible.contains(u) {
            let j = choose|j: int| 0 <= j < visible.len() && visible[j] == u;
            assert(v1[j] == u);
        }
        if u == t {
            assert(v1[visible.len() as int] == u);
        }
    }
    let settled_all = siblings_settled(v1, field, t);
    let v2 = if settled_all { without_tile(v1, parent(t)) } else { v1 };
    lemma_without_tile(v1, parent(t));
    lemma_without_tiles_members(v2, children(t));
    assert(admitted(visible, t, field) == without_tiles(v2, children(t)));
    assert(parent(t) != t);
    assert(!covers(t, t));
    assert(v1.contains(t));
    assert(v2.contains(t));
    assert(!children(t).contains(t));
    assert forall|c: TileId| #[trigger] covers(t, c) implies !admitted(visible, t, field).contains(c) by {
        assert(children(t).contains(c));
    }
    assert forall|p: TileId| settled_all && #[trigger] covers(p, t) implies !admitted(visible, t, field).contains(p) by {
        assert(p == parent(t));
    }
    assert forall|u: TileId| visible.contains(u) && !covers(t, u)
        && !(covers(u, t) && settled_all) implies #[trigger] admitted(visible, t, field).contains(u) by {
        assert(v1.contains(u));
        if settled_all {
            if u == parent(t) {
                assert(covers(parent(t), t));
            }
        }
        assert(v2.contains(u));
        assert(!children(t).contains(u));
    }
}

fn contains_tile(tiles: &[TileId], t: &TileId) -> (r: bool)
    ensures
        r == tiles@.contains(*t),
{
    let n = tiles.len();
    let mut i: usize = 0;
    while i < n
        invariant
            n == tiles@.len(),
            i <= n,
            forall|j: int| 0 <= j < i ==> tiles@[j] != *t,
        decreases n - i,
    {
        if tiles[i] == *t {
            return true;
        }
        i = i + 1;
    }
    false
}

fn remove_tile(tiles: &mut Vec<TileId>, t: &TileId)
    ensures
        final(tiles)@ == without_tile(old(tiles)@, *t),
{
    let n = tiles.len();
    let mut i: usize = 0;
    proof {
        lemma_first_index(tiles@, *t);
    }
    while i < n
        invariant
            n == tiles@.len(),
            i <= n,
            tiles@ == old(tiles)@,
            forall|j: int| 0 <= j < i ==> tiles@[j] != *t,
            0 <= first_index(tiles@, *t) <= n,
            first_index(tiles@, *t) < n ==> tiles@[first_index(tiles@, *t)] == *t,
            forall|j: int| 0 <= j < first_index(tiles@, *t) ==> tiles@[j] != *t,
        decreases n - i,
    {
        if tiles[i] == *t {
            assert(first_index(tiles@, *t) == i);
            tiles.swap_remove(i);
            return;
        }
        i = i + 1;
    }
}

/// The state of the map application that does not live on the GPU.
pub struct AppState<O> {
    pub css_cache: RulesCache,
    pub stats: Stats,
    pub ui: UIState,
    pub visible_tiles: Vec<TileId>,
    pub selection: Selection<O>,
}

impl<O> AppState<O> {
    /// The selection, as a whole.
    pub closed spec fn selection(&self) -> Selection<O> {
        self.selection
    }

    /// The selected objects.
    pub closed spec fn objects(&self) -> Seq<EditableObject<O>> {
        self.selection.objects@
    }

    /// The names of the selected objects, one per object.
    pub closed spec fn names(&self) -> Seq<Seq<char>> {
        self.selection.names.deep_view()
    }

    /// The position of the selected object among the selected objects.
    pub closed spec fn selected(&self) -> int {
        self.selection.selected as int
    }

    /// The labels shown for the selected objects.
    pub closed spec fn labels(&self) -> Seq<Seq<char>> {
        self.selection.labels.deep_view()
    }

    /// State with the given stylesheet, fresh statistics, nothing in view and
    /// nothing selected.
    pub fn new(css_cache: RulesCache) -> (s: Self)
        ensures
            s.css_cache == css_cache,
            s.stats.wf(),
            s.visible_tiles@.len() == 0,
            s.objects().len() == 0,
            s.labels().len() == 0,
            s.selected() == 0,
    {
        let s = AppState {
            css_cache,
            stats: Stats::new(),
            ui: UIState::new(),
            visible_tiles: Vec::new(),
            selection: Selection { objects: Vec::new(), names: Vec::new(), selected: 0, labels: Vec::new() },
        };
        assert(s.selection.labels.deep_view() =~= Seq::<Seq<char>>::empty());
        s
    }

    /// Drops `tile_id` from the tiles in view.
    pub fn remove_visible_tile(&mut self, tile_id: &TileId)
        ensures
            final(self).visible_tiles@ == without_tile(old(self).visible_tiles@, *tile_id),
            final(self).css_cache == old(self).css_cache,
            final(self).stats == old(self).stats,
            final(self).selection == old(self).selection,
    {
        remove_tile(&mut self.visible_tiles, tile_id);
    }

    /// Adds the loaded tile `tile_id` to the tiles in view unless it is
    /// already there.
    pub fn add_visible_tile(&mut self, tile_id: TileId)
        ensures
            final(self).visible_tiles@ == if old(self).visible_tiles@.contains(tile_id) {
                old(self).visible_tiles@
            } else {
                old(self).visible_tiles@.push(tile_id)
            },
            final(self).css_cache == old(self).css_cache,
            final(self).stats == old(self).stats,
            final(self).selection == old(self).selection,
    {
        if !contains_tile(self.visible_tiles.as_slice(), &tile_id) {
            self.visible_tiles.push(tile_id);
        }
    }

    /// Drops the tiles that left the view: tiles of zoom level `parent_z`
    /// that are not in `parent_field` (the field one level up), and other
    /// tiles that are not in `field`.
    pub fn prune_visible_tiles(&mut self, field: &[TileId], parent_field: &[TileId], parent_z: u32)
        ensures
            final(self).visible_tiles@ == pruned_tiles(
                old(self).visible_tiles@,
                old(self).visible_tiles@,
                field@,
                parent_field@,
                parent_z,
            ),
            final(self).css_cache == old(self).css_cache,
            final(self).stats == old(self).stats,
            final(self).selection == old(self).selection,
    {
        let snapshot = vstd::slice::slice_to_vec(self.visible_tiles.as_slice());
        let n = snapshot.len();
        let mut k: usize = 0;
        assert(snapshot@.skip(0) =~= snapshot@);
        while k < n
            invariant
                n == snapshot@.len(),
                snapshot@ == old(self).visible_tiles@,
                k <= n,
                pruned_tiles(old(self).visible_tiles@, old(self).visible_tiles@, field@, parent_field@, parent_z)
                    == pruned_tiles(self.visible_tiles@, snapshot@.skip(k as int), field@, parent_field@, parent_z),
                self.css_cache == old(self).css_cache,
                self.stats == old(self).stats,
                self.selection == old(self).selection,
            decreases n - k,
        {
            let t = snapshot[k];
            assert(snapshot@.skip(k as int).drop_first() =~= snapshot@.skip(k + 1));
            let keep = if t.z == parent_z {
                contains_tile(parent_field, &t)
            } else {
                contains_tile(field, &t)
            };
            if !keep {
                remove_tile(&mut self.visible_tiles, &t);
            }
            k = k + 1;
        }
    }

    /// Adds the loaded tile `tile_id`, which is not in view yet, to the tiles
    /// in view: its parent is dropped once all four of its siblings are out
    /// of `field` or in view, and its four children are dropped.
    pub fn admit_tile(&mut self, tile_id: TileId, field: &[TileId])
        requires
            tile_id.z < u32::MAX,
            tile_id.x < 0x8000_0000,
            tile_id.y < 0x8000_0000,
            tile_id.z == 0 ==> !siblings_settled(old(self).visible_tiles@.push(tile_id), field@, tile_id),
        ensures
            final(self).visible_tiles@ == admitted(old(self).visible_tiles@, tile_id, field@),
            final(self).css_cache == old(self).css_cache,
            final(self).stats == old(self).stats,
            final(self).selection == old(self).selection,
    {
        self.visible_tiles.push(tile_id);
        let ghost v1 = self.visible_tiles@;
        let nx = (tile_id.x / 2) * 2;
        let ny = (tile_id.y / 2) * 2;
        let sibs = [
            TileId::new(tile_id.z, nx, ny),
            TileId::new(tile_id.z, nx + 1, ny),
            TileId::new(tile_id.z, nx + 1, ny + 1),
            TileId::new(tile_id.z, nx, ny + 1),
        ];
        assert(sibs@ =~= siblings(tile_id));
        let mut count: usize = 0;
        let mut k: usize = 0;
        while k < 4
            invariant
                k <= 4,
                count == k ==> forall|j: int| 0 <= j < k ==> settled(v1, field@, #[trigger] siblings(tile_id)[j]),
                count < k ==> !siblings_settled(v1, field@, tile_id),
                count <= k,
                sibs@ == siblings(tile_id),
                self.visible_tiles@ == v1,
            decreases 4 - k,
        {
            let s = sibs[k];
            if !contains_tile(field, &s) {
                count = count + 1;
            } else if contains_tile(self.visible_tiles.as_slice(), &s) {
                count = count + 1;
            } else {
                assert(!settled(v1, field@, siblings(tile_id)[k as int]));
            }
            k = k + 1;
        }
        if count == 4 {
            let p = TileId::new(tile_id.z - 1, nx / 2, ny / 2);
            assert(p == parent(tile_id));
            remove_tile(&mut self.visible_tiles, &p);
        }
        let ghost v2 = self.visible_tiles@;
        let kids = [
            TileId::new(tile_id.z + 1, tile_id.x * 2, tile_id.y * 2),
            TileId::new(tile_id.z + 1, tile_id.x * 2 + 1, tile_id.y * 2),
            TileId::new(tile_id.z + 1, tile_id.x * 2 + 1, tile_id.y * 2 + 1),
            TileId::new(tile_id.z + 1, tile_id.x * 2, tile_id.y * 2 + 1),
        ];
        assert(kids@ =~= children(tile_id));
        let mut k: usize = 0;
        assert(kids@.skip(0) =~= kids@);
        while k < 4
            invariant
                k <= 4,
                kids@ == children(tile_id),
                without_tiles(v2, children(tile_id)) == without_tiles(self.visible_tiles@, kids@.skip(k as int)),
                self.css_cache == old(self).css_cache,
                self.stats == old(self).stats,
                self.selection == old(self).selection,
            decreases 4 - k,
        {
            assert(kids@.skip(k as int).drop_first() =~= kids@.skip(k + 1));
            remove_tile(&mut self.visible_tiles, &kids[k]);
            k = k + 1;
        }
        assert(kids@.skip(4).len() == 0);
    }

    /// Loads the view: drops the tiles that left it (see
    /// `prune_visible_tiles`), then admits, in order, each tile of `loaded`
    /// (the tiles of the field that the tile cache delivered) that is not in
    /// view yet (see `admit_tile`). Where the tiles in view held no tile
    /// twice and the loaded tiles are tiles of `field` of one zoom level
    /// other than `parent_z`, afterwards no tile is held twice, every tile
    /// held is still in view, and every loaded tile is held.
    pub fn load_visible(&mut self, field: &[TileId], parent_field: &[TileId], parent_z: u32, loaded: &[TileId])
        requires
            forall|j: int| 0 <= j < loaded@.len() ==> {
                let t = #[trigger] loaded@[j];
                0 < t.z < u32::MAX && t.x < 0x8000_0000 && t.y < 0x8000_0000
            },
        ensures
            final(self).visible_tiles@ == loaded_tiles(
                pruned_tiles(
                    old(self).visible_tiles@,
                    old(self).visible_tiles@,
                    field@,
                    parent_field@,
                    parent_z,
                ),
                loaded@,
                field@,
            ),
            ({
                let r = final(self).visible_tiles@;
                (old(self).visible_tiles@.no_duplicates() && forall|j: int| 0 <= j < loaded@.len() ==> {
                    &&& field@.contains(#[trigger] loaded@[j])
                    &&& loaded@[j].z == loaded@[0].z
                    &&& loaded@[j].z != parent_z
                }) ==> {
                    &&& r.no_duplicates()
                    &&& forall|u: TileId| #[trigger] r.contains(u) ==> in_view(u, field@, parent_field@, parent_z)
                    &&& forall|j: int| 0 <= j < loaded@.len() ==> r.contains(#[trigger] loaded@[j])
                }
            }),
            final(self).css_cache == old(self).css_cache,
            final(self).stats == old(self).stats,
            final(self).selection == old(self).selection,
    {
        let ghost v0 = old(self).visible_tiles@;
        self.prune_visible_tiles(field, parent_field, parent_z);
        let ghost p = self.visible_tiles@;
        let n = loaded.len();
        let mut k: usize = 0;
        assert(loaded@.skip(0) =~= loaded@);
        while k < n
            invariant
                n == loaded@.len(),
                k <= n,
                forall|j: int| 0 <= j < loaded@.len() ==> {
                    let t = #[trigger] loaded@[j];
                    0 < t.z < u32::MAX && t.x < 0x8000_0000 && t.y < 0x8000_0000
                },
                loaded_tiles(p, loaded@, field@) == loaded_tiles(self.visible_tiles@, loaded@.skip(k as int), field@),
                self.css_cache == old(self).css_cache,
                self.stats == old(self).stats,
                self.selection == old(self).selection,
            decreases n - k,
        {
            let t = loaded[k];
            assert(loaded@.skip(k as int)[0] == t);
            assert(loaded@.skip(k as int).drop_first() =~= loaded@.skip(k + 1));
            if !contains_tile(self.visible_tiles.as_slice(), &t) {
                self.admit_tile(t, field);
            }
            k = k + 1;
        }
        assert(loaded@.skip(n as int).len() == 0);
        proof {
            if v0.no_duplicates() && forall|j: int| 0 <= j < loaded@.len() ==> {
                &&& field@.contains(#[trigger] loaded@[j])
                &&& loaded@[j].z == loaded@[0].z
                &&& loaded@[j].z != parent_z
            } {
                if loaded@.len() == 0 {
                    lemma_pruned_keeps_what_is_in_view(v0, field@, parent_field@, parent_z);
                } else {
                    let z = loaded@[0].z;
                    assert(0 < z < u32::MAX);
                    lemma_load_view(v0, field@, parent_field@, parent_z, z, loaded@);
                }
            }
        }
    }

    /// The tiles in view.
    pub fn visible_tiles(&self) -> (r: &[TileId])
        ensures
            r@ == self.visible_tiles@,
    {
        self.visible_tiles.as_slice()
    }

    /// Selects the objects that were under the cursor, each given with its
    /// name, and makes the first of them the selected one.
    pub fn update_selected_from_hover_objects(&mut self, hovered: Vec<(EditableObject<O>, String)>)
        ensures
            final(self).objects() == hovered@.map_values(|p: (EditableObject<O>, String)| p.0),
            final(self).names() == hovered@.map_values(|p: (EditableObject<O>, String)| p.1@),
            final(self).selected() == 0,
            final(self).labels() == labels_for(final(self).names(), 0),
            final(self).css_cache == old(self).css_cache,
            final(self).stats == old(self).stats,
            final(self).visible_tiles == old(self).visible_tiles,
    {
        self.selection = Selection::from_hovered(hovered);
    }

    /// Makes the next object the selected one, going back to the first after
    /// the last.
    pub fn advance_selected_object(&mut self)
        requires
            old(self).objects().len() > 0,
            old(self).selected() < usize::MAX,
        ensures
            final(self).selected() == (old(self).selected() + 1) % (old(self).objects().len() as int),
            final(self).labels() == labels_for(old(self).names(), final(self).selected()),
            final(self).objects() == old(self).objects(),
            final(self).names() == old(self).names(),
            final(self).css_cache == old(self).css_cache,
            final(self).stats == old(self).stats,
            final(self).visible_tiles == old(self).visible_tiles,
    {
        self.selection.advance();
    }

    /// Makes the object at `index` the selected one.
    pub fn select_object(&mut self, index: usize)
        ensures
            final(self).selected() == index,
            final(self).labels() == labels_for(old(self).names(), index as int),
            final(self).objects() == old(self).objects(),
            final(self).names() == old(self).names(),
            final(self).css_cache == old(self).css_cache,
            final(self).stats == old(self).stats,
            final(self).visible_tiles == old(self).visible_tiles,
    {
        self.selection.select(index);
    }

    /// The position of the selected object among the selected objects.
    pub fn selected_index(&self) -> (r: usize)
        ensures
            r == self.selected(),
    {
        self.selection.selected
    }

    /// The selected object, if the selection points at one.
    pub fn selected_object(&self) -> (r: Option<&EditableObject<O>>)
        ensures
            match r {
                Some(o) => 0 <= self.selected() < self.objects().len() && *o == self.objects()[self.selected()],
                None => self.selected() >= self.objects().len(),
            },
    {
        if self.selection.selected < self.selection.objects.len() {
            Some(&self.selection.objects[self.selection.selected])
        } else {
            None
        }
    }

    /// The selected objects.
    pub fn selected_objects(&self) -> (r: &[EditableObject<O>])
        ensures
            r@ == self.objects(),
    {
        self.selection.objects.as_slice()
    }

    /// The labels shown for the selected objects.
    pub fn selected_object_labels(&self) -> (r: &[String])
        ensures
            r.deep_view() == self.labels(),
    {
        self.selection.labels.as_slice()
    }
}

/// The objects picked under the cursor, each with the name its label shows,
/// the position of the current one, and the labels shown.
pub struct Selection<O> {
    objects: Vec<EditableObject<O>>,
    names: Vec<String>,
    selected: usize,
    labels: Vec<String>,
}

impl<O> Selection<O> {
    /// Every object has its name.
    #[verifier::type_invariant]
    spec fn names_match(&self) -> bool {
        self.names@.len() == self.objects@.len()
    }

    /// The objects, each with its name, the first one selected.
    fn from_hovered(hovered: Vec<(EditableObject<O>, String)>) -> (s: Self)
        ensures
            s.objects@ == hovered@.map_values(|p: (EditableObject<O>, String)| p.0),
            s.names.deep_view() == hovered@.map_values(|p: (EditableObject<O>, String)| p.1@),
            s.selected == 0,
            s.labels.deep_view() == labels_for(s.names.deep_view(), 0),
    {
        let ghost all = hovered@;
        let total = hovered.len();
        let mut rest = hovered;
        let mut objects: Vec<EditableObject<O>> = Vec::new();
        let mut names: Vec<String> = Vec::new();
        let mut k: usize = 0;
        while rest.len() > 0
            invariant
                k <= all.len(),
                all.len() == total,
                rest@ == all.skip(k as int),
                objects@ == all.take(k as int).map_values(|p: (EditableObject<O>, String)| p.0),
                names.deep_view() == all.take(k as int).map_values(|p: (EditableObject<O>, String)| p.1@),
            decreases rest@.len(),
        {
            let ghost before = rest@;
            let (o, n) = rest.remove(0);
            assert(all[k as int] == before[0]);
            assert(rest@ =~= all.skip(k + 1));
            let ghost ov = objects@;
            let ghost nv = names.deep_view();
            objects.push(o);
            names.push(n);
            assert(all.take(k + 1) =~= all.take(k as int).push(all[k as int]));
            assert(objects@ =~= all.take(k + 1).map_values(|p: (EditableObject<O>, String)| p.0));
            assert(names.deep_view() =~= nv.push(all[k as int].1@));
            assert(names.deep_view() =~= all.take(k + 1).map_values(|p: (EditableObject<O>, String)| p.1@));
            k = k + 1;
        }
        assert(all.take(k as int) =~= all);
        let labels = labels_of(&names, 0);
        Selection { objects, names, selected: 0, labels }
    }

    /// Makes the next object the selected one, going back to the first after
    /// the last.
    fn advance(&mut self)
        requires
            old(self).objects@.len() > 0,
            old(self).selected < usize::MAX,
        ensures
            final(self).selected == (old(self).selected + 1) % (old(self).objects@.len() as int),
            final(self).labels.deep_view() == labels_for(old(self).names.deep_view(), final(self).selected as int),
            final(self).objects == old(self).objects,
            final(self).names == old(self).names,
    {
        proof {
            use_type_invariant(&*self);
        }
        let len = self.objects.len();
        self.selected = (self.selected + 1) % len;
        self.labels = labels_of(&self.names, self.selected);
    }

    /// Makes the object at `index` the selected one.
    fn select(&mut self, index: usize)
        ensures
            final(self).selected == index,
            final(self).labels.deep_view() == labels_for(old(self).names.deep_view(), index as int),
            final(self).objects == old(self).objects,
            final(self).names == old(self).names,
    {
        proof {
            use_type_invariant(&*self);
        }
        self.selected = index;
        self.labels = labels_of(&self.names, index);
    }
}

/// The labels of objects named `names`, the one at `selected` marked.
fn labels_of(names: &Vec<String>, selected: usize) -> (r: Vec<String>)
    ensures
        r.deep_view() == labels_for(names.deep_view(), selected as int),
{
    let mut labels: Vec<String> = Vec::new();
    let n = names.len();
    let mut i: usize = 0;
    let marker = " •";
    proof {
        reveal_strlit(" •");
    }
    assert(marker@ =~= seq![' ', '•']);
    while i < n
        invariant
            n == names@.len(),
            i <= n,
            marker@ == seq![' ', '•'],
            labels.deep_view() == labels_for(names.deep_view(), selected as int).take(i as int),
        decreases n - i,
    {
        let name = names[i].clone();
        let label = if i == selected { name.concat(marker) } else { name };
        let ghost before = labels.deep_view();
        assert(names.deep_view()[i as int] == names@[i as int]@);
        assert(label@ == labels_for(names.deep_view(), selected as int)[i as int]);
        labels.push(label);
        assert(labels.deep_view() =~= before.push(label@));
        assert(labels.deep_view() =~= labels_for(names.deep_view(), selected as int).take(i + 1));
        i = i + 1;
    }
    assert(labels_for(names.deep_view(), selected as int).take(n as int) =~= labels_for(
        names.deep_view(),
        selected as int,
    ));
    labels
}

} // verus!
