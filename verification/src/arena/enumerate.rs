//! Enumeration of the placements of a game's pieces on its region.
use vstd::prelude::*;

use crate::game::Game;
use crate::pieces::{Group, Layout, PieceKind};
use crate::rules::movegen::state_ok;
use crate::state::{canonicalize, lemma_canonical_codes_fixed, lemma_canonical_elements, lemma_unpack_pack, PackedState};

verus! {

/// `st` packs a black king square of the region and one code per white slot, each a square
/// of the region or the captured code.
pub open spec fn packs_codes(game: Game, st: u128) -> bool {
    exists|bk: u16, w: Seq<u16>|
        bk < game.packer.region_size && w.len() == game.packer.n_white && (forall|i: int|
            0 <= i < w.len() ==> #[trigger] w[i] <= game.packer.region_size) && st == #[trigger] game.packer.pack_spec(bk, w)
}

/// A packed placement is a valid state of the game.
pub proof fn lemma_packs_codes_ok(game: Game, st: u128)
    requires
        game.wf(),
        packs_codes(game, st),
    ensures
        state_ok(game, st),
{
    let (bk, w) = choose|bk: u16, w: Seq<u16>|
        bk < game.packer.region_size && w.len() == game.packer.n_white && (forall|i: int|
            0 <= i < w.len() ==> #[trigger] w[i] <= game.packer.region_size) && st == #[trigger] game.packer.pack_spec(bk, w);
    lemma_unpack_pack(game.packer, bk, w);
}

/// Every entry of `out` is a packed placement.
pub open spec fn all_pack_codes(game: Game, out: Seq<u128>) -> bool {
    forall|j: int| 0 <= j < out.len() ==> packs_codes(game, #[trigger] out[j])
}

/// The groups come in slot order and do not overlap.
pub open spec fn groups_in_order(groups: Seq<Group>) -> bool {
    forall|a: int, b: int| 0 <= a < b < groups.len() ==> #[trigger] groups[a].start + groups[a].len <= #[trigger] groups[b].start
}

/// Every group of `gs` ends by `end`, and they come in slot order.
pub open spec fn groups_end_by(gs: Seq<Group>, end: int) -> bool {
    &&& groups_in_order(gs)
    &&& forall|a: int| 0 <= a < gs.len() ==> #[trigger] gs[a].start + gs[a].len <= end
}

proof fn lemma_push_group_in_order(gs: Seq<Group>, kind: PieceKind, start: nat, len: nat)
    requires
        groups_end_by(gs, start as int),
        start + len <= usize::MAX,
    ensures
        groups_end_by(crate::pieces::push_group_spec(gs, kind, start, len), (start + len) as int),
{
}

/// The groups of a material come in slot order.
pub proof fn lemma_material_groups_in_order(m: crate::pieces::Material)
    ensures
        groups_in_order(crate::pieces::material_groups(m)),
{
    let k: nat = if m.white_king { 1 } else { 0 };
    let q = m.queens as nat;
    let r = m.rooks as nat;
    let b = m.bishops as nat;
    let n = m.knights as nat;
    let g0 = Seq::<Group>::empty();
    let g1 = crate::pieces::push_group_spec(g0, PieceKind::King, 0, k);
    let g2 = crate::pieces::push_group_spec(g1, PieceKind::Queen, k, q);
    let g3 = crate::pieces::push_group_spec(g2, PieceKind::Rook, k + q, r);
    let g4 = crate::pieces::push_group_spec(g3, PieceKind::Bishop, k + q + r, b);
    lemma_push_group_in_order(g0, PieceKind::King, 0, k);
    lemma_push_group_in_order(g1, PieceKind::Queen, k, q);
    lemma_push_group_in_order(g2, PieceKind::Rook, k + q, r);
    lemma_push_group_in_order(g3, PieceKind::Bishop, k + q + r, b);
    lemma_push_group_in_order(g4, PieceKind::Knight, k + q + r + b, n);
}

/// Slot `i` lies in group `g`.
pub open spec fn in_group_at(groups: Seq<Group>, g: int, i: int) -> bool {
    0 <= g < groups.len() && groups[g].start <= i < groups[g].start + groups[g].len
}

/// Slot `i` lies in some group.
pub open spec fn in_some_group(groups: Seq<Group>, i: int) -> bool {
    exists|g: int| #[trigger] in_group_at(groups, g, i)
}

/// Slot `i` lies in group `g` or a later one.
pub open spec fn in_group_from(groups: Seq<Group>, g: int, i: int) -> bool {
    exists|g2: int| g <= g2 && #[trigger] in_group_at(groups, g2, i)
}

/// Where the slots of the groups before `g` end.
pub open spec fn groups_end(layout: Layout, g: int) -> int {
    if g < layout.groups@.len() { layout.groups@[g].start as int } else { layout.slots@.len() as int }
}

/// The white king on `sq` is not next to the black king on `bk`.
pub open spec fn king_clear(game: Game, bk: u16, sq: u16) -> bool {
    let c = game.region@[sq as int];
    let b = game.region@[bk as int];
    !(-1 <= c.x - b.x <= 1 && -1 <= c.y - b.y <= 1)
}

/// `w` is one of the placements that the enumeration gives beside the black king on `bk`:
/// every code is a square of the region or the captured code, the squares are distinct and
/// off `bk`, each group holds its pieces on increasing squares before its captured ones, the
/// white king is on the board and not next to the black king, and slots outside the groups
/// are captured.
pub open spec fn placement(game: Game, bk: u16, w: Seq<u16>) -> bool {
    let cap = game.packer.region_size;
    let groups = game.layout.groups@;
    &&& bk < cap
    &&& w.len() == game.layout.slots@.len()
    &&& forall|i: int| 0 <= i < w.len() ==> #[trigger] w[i] <= cap
    &&& forall|i: int| 0 <= i < w.len() && w[i] != cap ==> #[trigger] w[i] != bk
    &&& forall|i: int, j: int| 0 <= i < j < w.len() && w[i] != cap ==> #[trigger] w[i] != #[trigger] w[j]
    &&& forall|i: int| 0 <= i < w.len() && !in_some_group(groups, i) ==> #[trigger] w[i] == cap
    &&& forall|g: int, i: int, j: int| #![trigger in_group_at(groups, g, i), in_group_at(groups, g, j)]
        in_group_at(groups, g, i) && in_group_at(groups, g, j) && i < j
            ==> (w[i] == cap ==> w[j] == cap) && (w[j] != cap ==> w[i] < w[j])
    &&& forall|g: int, i: int| #[trigger] in_group_at(groups, g, i) && groups[g].kind == PieceKind::King
        ==> w[i] != cap && king_clear(game, bk, w[i])
}

/// The first `n` codes of `w` are those of `v`.
pub open spec fn codes_agree(w: Seq<u16>, v: Seq<u16>, n: int) -> bool {
    forall|i: int| 0 <= i < n ==> #[trigger] w[i] == v[i]
}

/// The state of the enumeration before group `g` is placed: slots outside the groups are
/// captured, and (when the groups are in order) every used square is the black king's or one
/// held in an earlier group.
pub open spec fn enum_ok(game: Game, bk: u16, g: int, whites: Seq<u16>, used: Seq<bool>) -> bool {
    let groups = game.layout.groups@;
    &&& whites.len() == game.layout.slots@.len()
    &&& used.len() == game.packer.region_size
    &&& forall|i: int| 0 <= i < whites.len() && !in_some_group(groups, i) ==> #[trigger] whites[i] == game.packer.region_size
    &&& groups_in_order(groups) ==> forall|sq: int| 0 <= sq < used.len() && #[trigger] used[sq] ==> sq == bk
        || exists|g2: int, i: int| #![trigger in_group_at(groups, g2, i)] g2 < g && in_group_at(groups, g2, i)
            && whites[i] == sq && whites[i] != game.packer.region_size
}

/// The code of the `a`-th piece of a group starting at slot `st`.
pub open spec fn group_slot(w: Seq<u16>, st: int, a: int) -> u16 {
    w[st + a]
}

/// The group `g` of `w` holds `k` pieces, then captured codes.
pub open spec fn group_shape(game: Game, w: Seq<u16>, g: int, k: int) -> bool {
    let st = game.layout.groups@[g].start as int;
    let len = game.layout.groups@[g].len as int;
    &&& 0 <= k <= len
    &&& forall|i: int| st <= i < st + len ==> (#[trigger] w[i] != game.packer.region_size <==> i < st + k)
}

/// The placements that the choice of `k` squares for group `g` still has to reach: they
/// agree with `whites` before the group, hold `k` pieces in it, the first on the `chosen`
/// squares and the others on squares of `free` at position `start` or later.
pub open spec fn choose_target(
    game: Game,
    whites: Seq<u16>,
    g: int,
    k: int,
    chosen: Seq<u16>,
    start: int,
    free: Seq<u16>,
    w: Seq<u16>,
) -> bool {
    let st = game.layout.groups@[g].start as int;
    &&& codes_agree(w, whites, st)
    &&& group_shape(game, w, g, k)
    &&& chosen.len() <= k
    &&& forall|a: int| 0 <= a < chosen.len() ==> #[trigger] group_slot(w, st, a) == chosen[a]
    &&& forall|a: int| chosen.len() <= a < k ==> free_from(free, start, #[trigger] group_slot(w, st, a))
}

/// `x` is in `free` at position `start` or later.
pub open spec fn free_from(free: Seq<u16>, start: int, x: u16) -> bool {
    exists|idx: int| start <= idx < free.len() && free[idx] == x
}

/// Enumerates the placements of the game's pieces on its region.
///
/// For each black king square, each group of identical pieces takes, in turn, every set of
/// free squares of each allowed size (a white king is always on the board and never next to
/// the black king); the remaining pieces of the group are captured. Pieces stand on distinct
/// squares, none on the black king's. When the groups come in slot order, every such
/// placement is listed.
pub fn all_states(game: &Game) -> (out: Vec<PackedState>)
    requires
        game.wf(),
    ensures
        all_pack_codes(*game, out@),
        forall|j: int| 0 <= j < out@.len() ==> state_ok(*game, #[trigger] out@[j]),
        groups_in_order(game.layout.groups@) ==> forall|bk: u16, w: Seq<u16>| #[trigger] placement(*game, bk, w)
            ==> out@.contains(game.packer.pack_spec(bk, w)),
{
    let n = game.region_size() as usize;
    let cap = game.captured_code();
    let layout = &game.layout;
    let mut whites: Vec<u16> = Vec::new();
    let mut t: usize = 0;
    while t < layout.slots.len()
        invariant
            t <= layout.slots@.len(),
            whites@.len() == t,
            forall|i: int| 0 <= i < t ==> #[trigger] whites@[i] == cap,
        decreases layout.slots@.len() - t,
    {
        whites.push(cap);
        t += 1;
    }
    let mut used: Vec<bool> = Vec::new();
    t = 0;
    while t < n
        invariant
            t <= n,
            used@.len() == t,
        decreases n - t,
    {
        used.push(false);
        t += 1;
    }
    let mut out: Vec<PackedState> = Vec::new();
    let mut bk_sq: usize = 0;
    while bk_sq < n
        invariant
            game.wf(),
            n == game.packer.region_size,
            cap == game.packer.region_size,
            layout == &game.layout,
            bk_sq <= n,
            whites@.len() == game.layout.slots@.len(),
            forall|i: int| 0 <= i < whites@.len() ==> #[trigger] whites@[i] <= cap,
            forall|i: int| 0 <= i < whites@.len() && !in_some_group(game.layout.groups@, i) ==> #[trigger] whites@[i] == cap,
            used@.len() == n,
            all_pack_codes(*game, out@),
            groups_in_order(game.layout.groups@) ==> forall|bk: u16, w: Seq<u16>| #[trigger] placement(*game, bk, w) && bk < bk_sq
                ==> out@.contains(game.packer.pack_spec(bk, w)),
        decreases n - bk_sq,
    {
        let mut u: usize = 0;
        while u < n
            invariant
                u <= n,
                used@.len() == n,
                forall|sq: int| 0 <= sq < u ==> !#[trigger] used@[sq],
            decreases n - u,
        {
            used.set(u, false);
            u += 1;
        }
        used.set(bk_sq, true);
        let ghost out0 = out@;
        let ghost wb = whites@;
        proof {
            assert forall|sq: int| 0 <= sq < used@.len() && #[trigger] used@[sq] implies sq == bk_sq by {}
        }
        rec_group(0, bk_sq as u16, game, &mut whites, &mut used, &mut out);
        used.set(bk_sq, false);
        proof {
            if groups_in_order(game.layout.groups@) {
                assert forall|bk: u16, w: Seq<u16>| #[trigger] placement(*game, bk, w) && bk < bk_sq + 1
                    implies out@.contains(game.packer.pack_spec(bk, w)) by {
                    if bk < bk_sq {
                        lemma_contains_grows(out0, out@, game.packer.pack_spec(bk, w));
                    } else {
                        lemma_agree_before_groups(*game, bk, w, wb);
                    }
                }
            }
        }
        bk_sq += 1;
    }
    proof {
        assert forall|j: int| 0 <= j < out@.len() implies state_ok(*game, #[trigger] out@[j]) by {
            lemma_packs_codes_ok(*game, out@[j]);
        }
    }
    out
}

/// Before the first group every slot is captured, both in a placement and in the slots kept
/// by the enumeration.
proof fn lemma_agree_before_groups(game: Game, bk: u16, w: Seq<u16>, v: Seq<u16>)
    requires
        game.wf(),
        groups_in_order(game.layout.groups@),
        placement(game, bk, w),
        v.len() == game.layout.slots@.len(),
        forall|i: int| 0 <= i < v.len() && !in_some_group(game.layout.groups@, i) ==> #[trigger] v[i] == game.packer.region_size,
    ensures
        codes_agree(w, v, groups_end(game.layout, 0)),
{
    let groups = game.layout.groups@;
    assert forall|i: int| 0 <= i < groups_end(game.layout, 0) implies #[trigger] w[i] == v[i] by {
        if in_some_group(groups, i) {
            let g3 = choose|g3: int| #[trigger] in_group_at(groups, g3, i);
            if g3 > 0 {
                assert(groups[0].start + groups[0].len <= groups[g3].start);
            }
        }
    }
}

/// `b` starts with `a`, so it holds what `a` holds.
proof fn lemma_contains_grows(a: Seq<u128>, b: Seq<u128>, x: u128)
    requires
        a.len() <= b.len(),
        forall|j: int| 0 <= j < a.len() ==> #[trigger] b[j] == a[j],
        a.contains(x),
    ensures
        b.contains(x),
{
    let j = choose|j: int| 0 <= j < a.len() && a[j] == x;
    assert(b[j] == x);
}

/// The group `g` of a placement holds its pieces first, then captured codes; a king group
/// holds only pieces.
proof fn lemma_group_shape(game: Game, bk: u16, w: Seq<u16>, g: int) -> (k: int)
    requires
        game.wf(),
        placement(game, bk, w),
        0 <= g < game.layout.groups@.len(),
    ensures
        group_shape(game, w, g, k),
        game.layout.groups@[g].kind == PieceKind::King ==> k == game.layout.groups@[g].len,
{
    let st = game.layout.groups@[g].start as int;
    lemma_group_shape_from(game, bk, w, g, st)
}

proof fn lemma_group_shape_from(game: Game, bk: u16, w: Seq<u16>, g: int, m: int) -> (k: int)
    requires
        game.wf(),
        placement(game, bk, w),
        0 <= g < game.layout.groups@.len(),
        game.layout.groups@[g].start <= m <= game.layout.groups@[g].start + game.layout.groups@[g].len,
        forall|i: int| game.layout.groups@[g].start <= i < m ==> #[trigger] w[i] != game.packer.region_size,
    ensures
        group_shape(game, w, g, k),
        game.layout.groups@[g].kind == PieceKind::King ==> k == game.layout.groups@[g].len,
    decreases game.layout.groups@[g].start + game.layout.groups@[g].len - m,
{
    let groups = game.layout.groups@;
    let st = groups[g].start as int;
    let len = groups[g].len as int;
    let cap = game.packer.region_size;
    if m == st + len {
        len
    } else if w[m] == cap {
        assert(in_group_at(groups, g, m));
        if groups[g].kind == PieceKind::King {
            assert(w[m] != cap);
        }
        assert forall|i: int| st <= i < st + len implies (#[trigger] w[i] != cap <==> i < st + (m - st)) by {
            if i > m {
                assert(in_group_at(groups, g, i));
            }
        }
        m - st
    } else {
        lemma_group_shape_from(game, bk, w, g, m + 1)
    }
}

/// The pieces of group `g` of a placement come in increasing square order.
proof fn lemma_group_increasing(game: Game, bk: u16, w: Seq<u16>, g: int, k: int, a: int, b: int)
    requires
        game.wf(),
        placement(game, bk, w),
        0 <= g < game.layout.groups@.len(),
        group_shape(game, w, g, k),
        0 <= a < b < k,
    ensures
        group_slot(w, game.layout.groups@[g].start as int, a) < group_slot(w, game.layout.groups@[g].start as int, b),
{
    let groups = game.layout.groups@;
    let st = groups[g].start as int;
    assert(in_group_at(groups, g, st + a));
    assert(in_group_at(groups, g, st + b));
    assert(w[st + b] != game.packer.region_size);
}

/// A piece of group `g` of a placement that agrees with `whites` before the group stands on
/// a square that is neither used nor, for the white king, next to the black king.
proof fn lemma_piece_free(game: Game, bk: u16, g: int, whites: Seq<u16>, used: Seq<bool>, w: Seq<u16>, k: int, a: int)
    requires
        game.wf(),
        groups_in_order(game.layout.groups@),
        enum_ok(game, bk, g, whites, used),
        placement(game, bk, w),
        0 <= g < game.layout.groups@.len(),
        codes_agree(w, whites, game.layout.groups@[g].start as int),
        group_shape(game, w, g, k),
        0 <= a < k,
    ensures
        group_slot(w, game.layout.groups@[g].start as int, a) < game.packer.region_size,
        !used[group_slot(w, game.layout.groups@[g].start as int, a) as int],
        game.layout.groups@[g].kind == PieceKind::King ==> king_clear(game, bk, group_slot(w, game.layout.groups@[g].start as int, a)),
{
    let groups = game.layout.groups@;
    let st = groups[g].start as int;
    let x = st + a;
    let sq = w[x];
    let cap = game.packer.region_size;
    assert(sq != cap);
    assert(sq <= cap);
    assert(in_group_at(groups, g, x));
    if used[sq as int] {
        if sq as int != bk as int {
            let (g2, i) = choose|g2: int, i: int| #![trigger in_group_at(groups, g2, i)] g2 < g && in_group_at(groups, g2, i)
                && whites[i] == sq && whites[i] != cap;
            assert(groups[g2].start + groups[g2].len <= groups[g].start);
            assert(w[i] == whites[i]);
            assert(w[i] != w[x]);
        }
    }
}

/// Places the groups from `g_idx` on, then records each complete placement.
fn rec_group(
    g_idx: usize,
    bk_sq: u16,
    game: &Game,
    whites: &mut Vec<u16>,
    used: &mut Vec<bool>,
    out: &mut Vec<PackedState>,
)
    requires
        game.wf(),
        g_idx <= game.layout.groups@.len(),
        bk_sq < game.packer.region_size,
        old(whites)@.len() == game.layout.slots@.len(),
        forall|i: int| 0 <= i < old(whites)@.len() ==> #[trigger] old(whites)@[i] <= game.packer.region_size,
        old(used)@.len() == game.packer.region_size,
        all_pack_codes(*game, old(out)@),
        enum_ok(*game, bk_sq, g_idx as int, old(whites)@, old(used)@),
    ensures
        final(whites)@.len() == game.layout.slots@.len(),
        forall|i: int| 0 <= i < final(whites)@.len() ==> #[trigger] final(whites)@[i] <= game.packer.region_size,
        final(used)@ == old(used)@,
        all_pack_codes(*game, final(out)@),
        forall|i: int| 0 <= i < final(whites)@.len() && !in_group_from(game.layout.groups@, g_idx as int, i)
            ==> #[trigger] final(whites)@[i] == old(whites)@[i],
        final(out)@.len() >= old(out)@.len(),
        forall|j: int| 0 <= j < old(out)@.len() ==> #[trigger] final(out)@[j] == old(out)@[j],
        groups_in_order(game.layout.groups@) ==> forall|w: Seq<u16>| #[trigger] placement(*game, bk_sq, w)
            && codes_agree(w, old(whites)@, groups_end(game.layout, g_idx as int))
            ==> final(out)@.contains(game.packer.pack_spec(bk_sq, w)),
    decreases game.layout.groups@.len() - g_idx, old(used)@.len() + 1,
{
    let layout = &game.layout;
    let cap = game.captured_code();
    if g_idx == layout.groups.len() {
        let mut w = whites.clone();
        proof {
            assert(w@ =~= whites@);
        }
        let ghost raw = w@;
        canonicalize(w.as_mut_slice(), layout);
        proof {
            let bounded = |x: u16| x <= cap;
            assert forall|g: int| 0 <= g < layout.groups@.len() implies #[trigger] layout.groups@[g].start + layout.groups@[g].len
                <= raw.len() by {
                assert(layout.groups@[g].len > 0);
            }
            assert forall|j: int| 0 <= j < raw.len() implies #[trigger] bounded(raw[j]) by {}
            lemma_canonical_elements(raw, layout.groups@, layout.groups@.len(), bounded);
            assert forall|j: int| 0 <= j < w@.len() implies #[trigger] w@[j] <= cap by {
                assert(bounded(w@[j]));
            }
        }
        let st = game.packer.pack(bk_sq, w.as_slice());
        let ghost before = out@;
        out.push(st);
        proof {
            assert(packs_codes(*game, st)) by {
                assert(st == game.packer.pack_spec(bk_sq, w@));
            }
            assert forall|j: int| 0 <= j < out@.len() implies packs_codes(*game, #[trigger] out@[j]) by {
                if j < before.len() {
                    assert(out@[j] == before[j]);
                }
            }
            if groups_in_order(game.layout.groups@) {
                assert forall|v: Seq<u16>| #[trigger] placement(*game, bk_sq, v)
                    && codes_agree(v, raw, groups_end(game.layout, g_idx as int))
                    implies out@.contains(game.packer.pack_spec(bk_sq, v)) by {
                    assert(v =~= raw);
                    assert forall|g: int, i: int, j: int| #![trigger layout.groups@[g], raw[i], raw[j]]
                        0 <= g < layout.groups@.len() && layout.groups@[g].start <= i < j < layout.groups@[g].start + layout.groups@[g].len
                        implies raw[i] <= raw[j] by {
                        assert(in_group_at(layout.groups@, g, i) && in_group_at(layout.groups@, g, j));
                    }
                    assert forall|g: int| 0 <= g < layout.groups@.len() implies #[trigger] layout.groups@[g].start + layout.groups@[g].len
                        <= raw.len() by {
                        assert(layout.groups@[g].len > 0);
                    }
                    lemma_canonical_codes_fixed(raw, layout.groups@, layout.groups@.len());
                    assert(out@[out@.len() - 1] == game.packer.pack_spec(bk_sq, v));
                }
            }
        }
        return;
    }
    let kind = layout.groups[g_idx].kind;
    let len = layout.groups[g_idx].len;
    proof {
        assert(layout.groups@[g_idx as int].len > 0);
    }
    let mut free: Vec<u16> = Vec::new();
    let mut sq: usize = 0;
    while sq < used.len()
        invariant
            game.wf(),
            layout == &game.layout,
            bk_sq < game.packer.region_size,
            used@.len() == game.packer.region_size,
            kind == game.layout.groups@[g_idx as int].kind,
            g_idx < game.layout.groups@.len(),
            sq <= used@.len(),
            free@.len() <= sq,
            forall|k: int| 0 <= k < free@.len() ==> #[trigger] free@[k] < sq,
            forall|a: int, b: int| 0 <= a < b < free@.len() ==> #[trigger] free@[a] < #[trigger] free@[b],
            forall|k: int| 0 <= k < free@.len() ==> !used@[#[trigger] free@[k] as int]
                && (kind == PieceKind::King ==> king_clear(*game, bk_sq, free@[k])),
            forall|q: int| 0 <= q < sq && !used@[q] && (kind == PieceKind::King ==> king_clear(*game, bk_sq, q as u16))
                ==> exists|k: int| 0 <= k < free@.len() && #[trigger] free@[k] == q,
        decreases used@.len() - sq,
    {
        if !used[sq] {
            let mut ok = true;
            if kind == PieceKind::King {
                let bk_c = game.region.coord_of(bk_sq);
                let c = game.region.coord_of(sq as u16);
                proof {
                    assert(crate::region::in_box(bk_c) && crate::region::in_box(c));
                }
                let ax = if c.x < bk_c.x { bk_c.x - c.x } else { c.x - bk_c.x };
                let ay = if c.y < bk_c.y { bk_c.y - c.y } else { c.y - bk_c.y };
                if ax <= 1 && ay <= 1 {
                    ok = false;
                }
            }
            if ok {
                let ghost f0 = free@;
                free.push(sq as u16);
                proof {
                    assert forall|q: int| 0 <= q < sq + 1 && !used@[q] && (kind == PieceKind::King ==> king_clear(*game, bk_sq, q as u16))
                        implies exists|k: int| 0 <= k < free@.len() && #[trigger] free@[k] == q by {
                        if q < sq {
                            let k = choose|k: int| 0 <= k < f0.len() && f0[k] == q;
                            assert(free@[k] == q);
                        } else {
                            assert(free@[free@.len() - 1] == q);
                        }
                    }
                }
            }
        }
        sq += 1;
    }
    let min_alive = if kind == PieceKind::King { len } else { 0 };
    let mut alive = min_alive;
    let mut more = true;
    let ghost whites0 = whites@;
    let ghost out0 = out@;
    while more
        invariant
            alive <= len,
            more ==> min_alive <= alive,
            old(used)@.len() == game.packer.region_size,
            game.wf(),
            layout == &game.layout,
            g_idx < game.layout.groups@.len(),
            len == game.layout.groups@[g_idx as int].len,
            kind == game.layout.groups@[g_idx as int].kind,
            min_alive == (if kind == PieceKind::King { len } else { 0 }),
            bk_sq < game.packer.region_size,
            whites@.len() == game.layout.slots@.len(),
            forall|i: int| 0 <= i < whites@.len() ==> #[trigger] whites@[i] <= game.packer.region_size,
            used@ == old(used)@,
            free@.len() <= used@.len(),
            forall|k: int| 0 <= k < free@.len() ==> #[trigger] free@[k] < game.packer.region_size,
            forall|a: int, b: int| 0 <= a < b < free@.len() ==> #[trigger] free@[a] < #[trigger] free@[b],
            forall|k: int| 0 <= k < free@.len() ==> !used@[#[trigger] free@[k] as int],
            forall|q: int| 0 <= q < used@.len() && !used@[q] && (kind == PieceKind::King ==> king_clear(*game, bk_sq, q as u16))
                ==> exists|k: int| 0 <= k < free@.len() && #[trigger] free@[k] == q,
            all_pack_codes(*game, out@),
            whites0 == old(whites)@,
            out0 == old(out)@,
            enum_ok(*game, bk_sq, g_idx as int, old(whites)@, old(used)@),
            forall|i: int| 0 <= i < whites@.len() && !in_group_from(game.layout.groups@, g_idx as int, i)
                ==> #[trigger] whites@[i] == whites0[i],
            out@.len() >= out0.len(),
            forall|j: int| 0 <= j < out0.len() ==> #[trigger] out@[j] == out0[j],
            groups_in_order(game.layout.groups@) ==> forall|w: Seq<u16>, kw: int| #[trigger] placement(*game, bk_sq, w)
                && codes_agree(w, whites0, game.layout.groups@[g_idx as int].start as int)
                && #[trigger] group_shape(*game, w, g_idx as int, kw) && min_alive <= kw && (kw < alive || !more)
                ==> out@.contains(game.packer.pack_spec(bk_sq, w)),
        decreases len - alive + (if more { 1int } else { 0int }),
    {
        let mut chosen: Vec<u16> = Vec::new();
        let ghost out_b = out@;
        let ghost whites_b = whites@;
        assert(free@.len() - 0 < old(used)@.len() + 1);
        proof {
            assert(enum_ok(*game, bk_sq, g_idx as int, whites@, used@)) by {
                lemma_enum_ok_frame(*game, bk_sq, g_idx as int, whites0, whites@, used@);
            }
        }
        choose_k(&free, alive, 0, &mut chosen, g_idx, bk_sq, game, whites, used, out);
        proof {
            if groups_in_order(game.layout.groups@) {
                assert forall|w: Seq<u16>, kw: int| #[trigger] placement(*game, bk_sq, w)
                    && codes_agree(w, whites0, game.layout.groups@[g_idx as int].start as int)
                    && #[trigger] group_shape(*game, w, g_idx as int, kw) && min_alive <= kw && (kw < alive + 1)
                    implies out@.contains(game.packer.pack_spec(bk_sq, w)) by {
                    if kw < alive {
                        lemma_contains_grows(out_b, out@, game.packer.pack_spec(bk_sq, w));
                    } else {
                        lemma_target_start(*game, bk_sq, g_idx as int, whites0, whites_b, old(used)@, free@, w, kw);
                        assert(chosen@ =~= Seq::<u16>::empty());
                    }
                }
            }
        }
        if alive == len {
            more = false;
        } else {
            alive += 1;
        }
    }
    proof {
        if groups_in_order(game.layout.groups@) {
            assert forall|w: Seq<u16>| #[trigger] placement(*game, bk_sq, w)
                && codes_agree(w, old(whites)@, groups_end(game.layout, g_idx as int))
                implies out@.contains(game.packer.pack_spec(bk_sq, w)) by {
                let kw = lemma_group_shape(*game, bk_sq, w, g_idx as int);
                assert(group_shape(*game, w, g_idx as int, kw));
            }
        }
    }
}

/// Changing only slots of group `g` or later keeps the state of the enumeration.
proof fn lemma_enum_ok_frame(game: Game, bk: u16, g: int, w0: Seq<u16>, w1: Seq<u16>, used: Seq<bool>)
    requires
        game.wf(),
        enum_ok(game, bk, g, w0, used),
        w1.len() == w0.len(),
        forall|i: int| 0 <= i < w1.len() && !in_group_from(game.layout.groups@, g, i) ==> #[trigger] w1[i] == w0[i],
    ensures
        enum_ok(game, bk, g, w1, used),
{
    let groups = game.layout.groups@;
    assert forall|i: int| 0 <= i < w1.len() && !in_some_group(groups, i) implies #[trigger] w1[i] == game.packer.region_size by {
        if in_group_from(groups, g, i) {
            let g2 = choose|g2: int| g <= g2 && #[trigger] in_group_at(groups, g2, i);
            assert(in_some_group(groups, i));
        }
    }
    if groups_in_order(groups) {
        assert forall|sq: int| 0 <= sq < used.len() && #[trigger] used[sq] implies sq == bk
            || exists|g2: int, i: int| #![trigger in_group_at(groups, g2, i)] g2 < g && in_group_at(groups, g2, i)
                && w1[i] == sq && w1[i] != game.packer.region_size by {
            if sq != bk {
                let (g2, i) = choose|g2: int, i: int| #![trigger in_group_at(groups, g2, i)] g2 < g && in_group_at(groups, g2, i)
                    && w0[i] == sq && w0[i] != game.packer.region_size;
                if in_group_from(groups, g, i) {
                    let g3 = choose|g3: int| g <= g3 && #[trigger] in_group_at(groups, g3, i);
                    assert(groups[g2].start + groups[g2].len <= groups[g3].start);
                }
                assert(w1[i] == w0[i]);
            }
        }
    }
}

/// A placement with `k` pieces in group `g`, agreeing before the group, is in reach of the
/// choice of `k` squares from the start of the free list.
proof fn lemma_target_start(game: Game, bk: u16, g: int, whites0: Seq<u16>, whites_b: Seq<u16>, used: Seq<bool>, free: Seq<u16>, w: Seq<u16>, k: int)
    requires
        game.wf(),
        groups_in_order(game.layout.groups@),
        enum_ok(game, bk, g, whites0, used),
        0 <= g < game.layout.groups@.len(),
        placement(game, bk, w),
        codes_agree(w, whites0, game.layout.groups@[g].start as int),
        whites0.len() == game.layout.slots@.len(),
        whites_b.len() == whites0.len(),
        forall|i: int| 0 <= i < whites_b.len() && !in_group_from(game.layout.groups@, g, i) ==> #[trigger] whites_b[i] == whites0[i],
        group_shape(game, w, g, k),
        forall|q: int| 0 <= q < used.len() && !used[q] && (game.layout.groups@[g].kind == PieceKind::King ==> king_clear(game, bk, q as u16))
            ==> exists|kk: int| 0 <= kk < free.len() && #[trigger] free[kk] == q,
    ensures
        choose_target(game, whites_b, g, k, Seq::<u16>::empty(), 0, free, w),
{
    let groups = game.layout.groups@;
    let st = groups[g].start as int;
    assert forall|i: int| 0 <= i < st implies #[trigger] w[i] == whites_b[i] by {
        if in_group_from(groups, g, i) {
            let g3 = choose|g3: int| g <= g3 && #[trigger] in_group_at(groups, g3, i);
            if g3 > g {
                assert(groups[g].start + groups[g].len <= groups[g3].start);
            }
        }
        assert(w[i] == whites0[i]);
    }
    assert forall|a: int| 0 <= a < k implies free_from(free, 0, #[trigger] group_slot(w, st, a)) by {
        lemma_piece_free(game, bk, g, whites0, used, w, k, a);
        let q = group_slot(w, st, a) as int;
        assert(!used[q]);
        assert((q as u16) == group_slot(w, st, a));
    }
}

/// Extends `chosen` with squares of `free` from position `start` on until it has `k` of them,
/// in increasing position order; each full choice is written to the group `g_idx` and the
/// later groups are placed.
fn choose_k(
    free: &Vec<u16>,
    k: usize,
    start: usize,
    chosen: &mut Vec<u16>,
    g_idx: usize,
    bk_sq: u16,
    game: &Game,
    whites: &mut Vec<u16>,
    used: &mut Vec<bool>,
    out: &mut Vec<PackedState>,
)
    requires
        game.wf(),
        g_idx < game.layout.groups@.len(),
        k <= game.layout.groups@[g_idx as int].len,
        old(chosen)@.len() <= k,
        forall|q: int| 0 <= q < old(chosen)@.len() ==> #[trigger] old(chosen)@[q] < game.packer.region_size
            && !old(used)@[old(chosen)@[q] as int],
        forall|a: int, b: int| 0 <= a < b < old(chosen)@.len() ==> #[trigger] old(chosen)@[a] < #[trigger] old(chosen)@[b],
        forall|a: int, q: int| 0 <= a < old(chosen)@.len() && start <= q < free@.len() ==> #[trigger] old(chosen)@[a] < #[trigger] free@[q],
        bk_sq < game.packer.region_size,
        old(whites)@.len() == game.layout.slots@.len(),
        forall|i: int| 0 <= i < old(whites)@.len() ==> #[trigger] old(whites)@[i] <= game.packer.region_size,
        old(used)@.len() == game.packer.region_size,
        free@.len() <= old(used)@.len(),
        forall|q: int| 0 <= q < free@.len() ==> #[trigger] free@[q] < game.packer.region_size && !old(used)@[free@[q] as int],
        forall|a: int, b: int| 0 <= a < b < free@.len() ==> #[trigger] free@[a] < #[trigger] free@[b],
        all_pack_codes(*game, old(out)@),
        enum_ok(*game, bk_sq, g_idx as int, old(whites)@, old(used)@),
    ensures
        final(chosen)@ == old(chosen)@,
        final(whites)@.len() == game.layout.slots@.len(),
        forall|i: int| 0 <= i < final(whites)@.len() ==> #[trigger] final(whites)@[i] <= game.packer.region_size,
        final(used)@ == old(used)@,
        all_pack_codes(*game, final(out)@),
        forall|i: int| 0 <= i < final(whites)@.len() && !in_group_from(game.layout.groups@, g_idx as int, i)
            ==> #[trigger] final(whites)@[i] == old(whites)@[i],
        final(out)@.len() >= old(out)@.len(),
        forall|j: int| 0 <= j < old(out)@.len() ==> #[trigger] final(out)@[j] == old(out)@[j],
        groups_in_order(game.layout.groups@) ==> forall|w: Seq<u16>| #[trigger] placement(*game, bk_sq, w)
            && choose_target(*game, old(whites)@, g_idx as int, k as int, old(chosen)@, start as int, free@, w)
            ==> final(out)@.contains(game.packer.pack_spec(bk_sq, w)),
    decreases game.layout.groups@.len() - g_idx, free@.len() - start,
{
    let layout = &game.layout;
    let cap = game.captured_code();
    if chosen.len() == k {
        let start_slot = layout.groups[g_idx].start;
        let len = layout.groups[g_idx].len;
        let n_slots = layout.slots.len();
        let n_groups = layout.groups.len();
        proof {
            assert(layout.groups@[g_idx as int].len > 0);
            assert(start_slot + len <= layout.slots@.len());
        }
        let ghost whites0 = whites@;
        let ghost used0 = used@;
        let mut i: usize = 0;
        while i < len
            invariant
                start_slot + len <= n_slots,
                n_slots == whites@.len(),
                start_slot + len <= whites@.len(),
                whites@.len() == game.layout.slots@.len(),
                cap == game.packer.region_size,
                forall|q: int| 0 <= q < whites@.len() ==> #[trigger] whites@[q] <= game.packer.region_size,
                i <= len,
                whites0.len() == whites@.len(),
                forall|q: int| 0 <= q < whites@.len() && !(start_slot <= q < start_slot + i) ==> #[trigger] whites@[q] == whites0[q],
                forall|q: int| start_slot <= q < start_slot + i ==> #[trigger] whites@[q] == cap,
            decreases len - i,
        {
            whites.set(start_slot + i, cap);
            i += 1;
        }
        let mut i: usize = 0;
        while i < chosen.len()
            invariant
                chosen@.len() <= len,
                start_slot + len <= n_slots,
                n_slots == whites@.len(),
                start_slot + len <= whites@.len(),
                whites@.len() == game.layout.slots@.len(),
                used@.len() == game.packer.region_size,
                cap == game.packer.region_size,
                forall|q: int| 0 <= q < whites@.len() ==> #[trigger] whites@[q] <= game.packer.region_size,
                forall|q: int| 0 <= q < chosen@.len() ==> #[trigger] chosen@[q] < game.packer.region_size,
                i <= chosen@.len(),
                whites0.len() == whites@.len(),
                forall|q: int| 0 <= q < whites@.len() && !(start_slot <= q < start_slot + len) ==> #[trigger] whites@[q] == whites0[q],
                forall|q: int| start_slot + i <= q < start_slot + len ==> #[trigger] whites@[q] == cap,
                forall|a: int| 0 <= a < i ==> #[trigger] whites@[start_slot + a] == chosen@[a],
                used0.len() == used@.len(),
                forall|sq: int| 0 <= sq < used@.len() ==> #[trigger] used@[sq] == (used0[sq] || exists|a: int| 0 <= a < i && chosen@[a] == sq),
            decreases chosen@.len() - i,
        {
            let sq = chosen[i];
            whites.set(start_slot + i, sq);
            used.set(sq as usize, true);
            proof {
                assert forall|x: int| 0 <= x < used@.len() implies #[trigger] used@[x] == (used0[x] || exists|a: int| 0 <= a < i + 1 && chosen@[a] == x) by {
                    if x == sq {
                        assert(chosen@[i as int] == x);
                    }
                }
            }
            i += 1;
        }
        let ghost whites1 = whites@;
        let ghost used1 = used@;
        let ghost out_b = out@;
        assert(g_idx < n_groups);
        proof {
            lemma_place_ok(*game, bk_sq, g_idx as int, whites0, whites1, used0, used1, chosen@);
        }
        rec_group(g_idx + 1, bk_sq, game, whites, used, out);
        proof {
            if groups_in_order(game.layout.groups@) {
                assert forall|w: Seq<u16>| #[trigger] placement(*game, bk_sq, w)
                    && choose_target(*game, whites0, g_idx as int, k as int, chosen@, start as int, free@, w)
                    implies out@.contains(game.packer.pack_spec(bk_sq, w)) by {
                    lemma_place_agrees(*game, bk_sq, g_idx as int, whites0, whites1, chosen@, start as int, free@, w);
                }
            }
            assert forall|q: int| 0 <= q < whites@.len() && !in_group_from(game.layout.groups@, g_idx as int, q)
                implies #[trigger] whites@[q] == whites0[q] by {
                if !in_group_from(game.layout.groups@, g_idx as int + 1, q) {
                    assert(whites@[q] == whites1[q]);
                }
                if start_slot <= q < start_slot + len {
                    assert(in_group_at(game.layout.groups@, g_idx as int, q));
                }
            }
        }
        let ghost out_after = out@;
        let mut i: usize = 0;
        while i < chosen.len()
            invariant
                used@.len() == game.packer.region_size,
                forall|q: int| 0 <= q < chosen@.len() ==> #[trigger] chosen@[q] < game.packer.region_size
                    && !used0[chosen@[q] as int],
                forall|a: int, b: int| 0 <= a < b < chosen@.len() ==> #[trigger] chosen@[a] < #[trigger] chosen@[b],
                i <= chosen@.len(),
                used0.len() == used@.len(),
                forall|sq: int| 0 <= sq < used@.len() ==> #[trigger] used@[sq] == (used0[sq] || exists|a: int| i <= a < chosen@.len() && chosen@[a] == sq),
            decreases chosen@.len() - i,
        {
            used.set(chosen[i] as usize, false);
            proof {
                assert forall|x: int| 0 <= x < used@.len() implies #[trigger] used@[x] == (used0[x] || exists|a: int| i + 1 <= a < chosen@.len() && chosen@[a] == x) by {
                    if x == chosen@[i as int] {
                        assert(!used0[x]);
                        if exists|a: int| i + 1 <= a < chosen@.len() && chosen@[a] == x {
                            let a = choose|a: int| i + 1 <= a < chosen@.len() && chosen@[a] == x;
                            assert(chosen@[i as int] < chosen@[a]);
                        }
                    } else {
                        if exists|a: int| i <= a < chosen@.len() && chosen@[a] == x {
                            let a = choose|a: int| i <= a < chosen@.len() && chosen@[a] == x;
                            assert(a != i);
                        }
                    }
                }
            }
            i += 1;
        }
        proof {
            assert(used@ =~= used0);
        }
        return;
    }
    if start >= free.len() {
        proof {
            lemma_no_target_left(*game, bk_sq, g_idx as int, whites@, k as int, chosen@, start as int, free@);
        }
        return;
    }
    let need = k - chosen.len();
    if free.len() - start < need {
        proof {
            lemma_no_target_left(*game, bk_sq, g_idx as int, whites@, k as int, chosen@, start as int, free@);
        }
        return;
    }
    let ghost whites0 = whites@;
    let ghost out0 = out@;
    let mut i = start;
    while i < free.len()
        invariant
            game.wf(),
            g_idx < game.layout.groups@.len(),
            k <= game.layout.groups@[g_idx as int].len,
            chosen@ == old(chosen)@,
            chosen@.len() < k,
            forall|q: int| 0 <= q < chosen@.len() ==> #[trigger] chosen@[q] < game.packer.region_size
                && !used@[chosen@[q] as int],
            forall|a: int, b: int| 0 <= a < b < chosen@.len() ==> #[trigger] chosen@[a] < #[trigger] chosen@[b],
            forall|a: int, q: int| 0 <= a < chosen@.len() && start <= q < free@.len() ==> #[trigger] chosen@[a] < #[trigger] free@[q],
            bk_sq < game.packer.region_size,
            whites@.len() == game.layout.slots@.len(),
            forall|q: int| 0 <= q < whites@.len() ==> #[trigger] whites@[q] <= game.packer.region_size,
            used@ == old(used)@,
            free@.len() <= used@.len(),
            forall|q: int| 0 <= q < free@.len() ==> #[trigger] free@[q] < game.packer.region_size && !used@[free@[q] as int],
            forall|a: int, b: int| 0 <= a < b < free@.len() ==> #[trigger] free@[a] < #[trigger] free@[b],
            all_pack_codes(*game, out@),
            start <= i <= free@.len(),
            whites0 == old(whites)@,
            out0 == old(out)@,
            enum_ok(*game, bk_sq, g_idx as int, old(whites)@, old(used)@),
            forall|q: int| 0 <= q < whites@.len() && !in_group_from(game.layout.groups@, g_idx as int, q)
                ==> #[trigger] whites@[q] == whites0[q],
            out@.len() >= out0.len(),
            forall|j: int| 0 <= j < out0.len() ==> #[trigger] out@[j] == out0[j],
            groups_in_order(game.layout.groups@) ==> forall|w: Seq<u16>| #[trigger] placement(*game, bk_sq, w)
                && choose_target(*game, whites0, g_idx as int, k as int, chosen@, start as int, free@, w)
                && (exists|idx: int| start <= idx < i && free@[idx] == group_slot(w, game.layout.groups@[g_idx as int].start as int, chosen@.len() as int))
                ==> out@.contains(game.packer.pack_spec(bk_sq, w)),
        decreases free@.len() - i,
    {
        let ghost out_b = out@;
        let ghost whites_b = whites@;
        proof {
            lemma_enum_ok_frame(*game, bk_sq, g_idx as int, whites0, whites@, used@);
        }
        chosen.push(free[i]);
        let ghost pushed = chosen@;
        proof {
            let c0 = old(chosen)@;
            assert forall|a: int, b: int| 0 <= a < b < pushed.len() implies #[trigger] pushed[a] < #[trigger] pushed[b] by {
                if b == c0.len() {
                    assert(pushed[a] == c0[a]);
                    assert(c0[a] < free@[i as int]);
                } else {
                    assert(pushed[a] == c0[a] && pushed[b] == c0[b]);
                }
            }
            assert forall|a: int, q: int| 0 <= a < pushed.len() && i + 1 <= q < free@.len() implies #[trigger] pushed[a] < #[trigger] free@[q] by {
                if a == c0.len() {
                    assert(free@[i as int] < free@[q]);
                } else {
                    assert(pushed[a] == c0[a]);
                }
            }
        }
        choose_k(free, k, i + 1, chosen, g_idx, bk_sq, game, whites, used, out);
        chosen.pop();
        proof {
            assert(chosen@ =~= old(chosen)@);
            if groups_in_order(game.layout.groups@) {
                let st = game.layout.groups@[g_idx as int].start as int;
                assert forall|w: Seq<u16>| #[trigger] placement(*game, bk_sq, w)
                    && choose_target(*game, whites0, g_idx as int, k as int, chosen@, start as int, free@, w)
                    && (exists|idx: int| start <= idx < i + 1 && free@[idx] == group_slot(w, st, chosen@.len() as int))
                    implies out@.contains(game.packer.pack_spec(bk_sq, w)) by {
                    let idx = choose|idx: int| start <= idx < i + 1 && free@[idx] == group_slot(w, st, chosen@.len() as int);
                    if idx < i {
                        lemma_contains_grows(out_b, out@, game.packer.pack_spec(bk_sq, w));
                    } else {
                        lemma_choose_step(*game, bk_sq, g_idx as int, whites0, whites_b, k as int, chosen@, start as int, free@, i as int, w);
                        assert(pushed == chosen@.push(free@[i as int]));
                    }
                }
            }
        }
        i += 1;
    }
    proof {
        if groups_in_order(game.layout.groups@) {
            let st = game.layout.groups@[g_idx as int].start as int;
            assert forall|w: Seq<u16>| #[trigger] placement(*game, bk_sq, w)
                && choose_target(*game, whites0, g_idx as int, k as int, chosen@, start as int, free@, w)
                implies out@.contains(game.packer.pack_spec(bk_sq, w)) by {
                let c = chosen@.len() as int;
                assert(c <= c < k);
                assert(free_from(free@, start as int, group_slot(w, st, c)));
            }
        }
    }
}

/// Choosing `free[i]` for the next piece keeps a placement in reach when that piece stands
/// there; the reach may move to slots that agree before the group.
proof fn lemma_choose_step(game: Game, bk: u16, g: int, whites0: Seq<u16>, whites_b: Seq<u16>, k: int, chosen: Seq<u16>, start: int, free: Seq<u16>, i: int, w: Seq<u16>)
    requires
        game.wf(),
        groups_in_order(game.layout.groups@),
        0 <= g < game.layout.groups@.len(),
        placement(game, bk, w),
        choose_target(game, whites0, g, k, chosen, start, free, w),
        whites0.len() == game.layout.slots@.len(),
        whites_b.len() == whites0.len(),
        forall|q: int| 0 <= q < whites_b.len() && !in_group_from(game.layout.groups@, g, q) ==> #[trigger] whites_b[q] == whites0[q],
        chosen.len() < k,
        0 <= start <= i < free.len(),
        forall|a: int, b: int| 0 <= a < b < free.len() ==> #[trigger] free[a] < #[trigger] free[b],
        free[i] == group_slot(w, game.layout.groups@[g].start as int, chosen.len() as int),
    ensures
        choose_target(game, whites_b, g, k, chosen.push(free[i]), i + 1, free, w),
{
    let groups = game.layout.groups@;
    let st = groups[g].start as int;
    let c = chosen.len() as int;
    let ch2 = chosen.push(free[i]);
    assert forall|q: int| 0 <= q < st implies #[trigger] w[q] == whites_b[q] by {
        if in_group_from(groups, g, q) {
            let g3 = choose|g3: int| g <= g3 && #[trigger] in_group_at(groups, g3, q);
            if g3 > g {
                assert(groups[g].start + groups[g].len <= groups[g3].start);
            }
        }
        assert(w[q] == whites0[q]);
    }
    assert forall|a: int| 0 <= a < ch2.len() implies #[trigger] group_slot(w, st, a) == ch2[a] by {
        if a < c {
            assert(ch2[a] == chosen[a]);
        }
    }
    assert forall|a: int| ch2.len() <= a < k implies free_from(free, i + 1, #[trigger] group_slot(w, st, a)) by {
        assert(free_from(free, start, group_slot(w, st, a)));
        let idx = choose|idx: int| start <= idx < free.len() && free[idx] == group_slot(w, st, a);
        lemma_group_increasing(game, bk, w, g, k, c, a);
        if idx <= i {
            if idx < i {
                assert(free[idx] < free[i]);
            }
        }
        assert(i + 1 <= idx < free.len() && free[idx] == group_slot(w, st, a));
    }
}

/// When fewer free squares are left than pieces still to place, no placement is in reach.
proof fn lemma_no_target_left(game: Game, bk: u16, g: int, whites: Seq<u16>, k: int, chosen: Seq<u16>, start: int, free: Seq<u16>)
    requires
        game.wf(),
        0 <= g < game.layout.groups@.len(),
        chosen.len() < k,
        0 <= start,
        free.len() - start < k - chosen.len(),
        forall|a: int, b: int| 0 <= a < b < free.len() ==> #[trigger] free[a] < #[trigger] free[b],
    ensures
        forall|w: Seq<u16>| #[trigger] placement(game, bk, w) ==> !choose_target(game, whites, g, k, chosen, start, free, w),
{
    assert forall|w: Seq<u16>| #[trigger] placement(game, bk, w) implies !choose_target(game, whites, g, k, chosen, start, free, w) by {
        if choose_target(game, whites, g, k, chosen, start, free, w) {
            let idx = lemma_index_lower(game, bk, g, whites, k, chosen, start, free, w, k - chosen.len() - 1);
        }
    }
}

/// The piece `chosen.len() + m` of a placement in reach stands on a free square at position
/// at least `start + m`.
proof fn lemma_index_lower(game: Game, bk: u16, g: int, whites: Seq<u16>, k: int, chosen: Seq<u16>, start: int, free: Seq<u16>, w: Seq<u16>, m: int) -> (idx: int)
    requires
        game.wf(),
        0 <= g < game.layout.groups@.len(),
        placement(game, bk, w),
        choose_target(game, whites, g, k, chosen, start, free, w),
        0 <= start,
        0 <= m < k - chosen.len(),
        forall|a: int, b: int| 0 <= a < b < free.len() ==> #[trigger] free[a] < #[trigger] free[b],
    ensures
        start + m <= idx < free.len(),
        free[idx] == group_slot(w, game.layout.groups@[g].start as int, chosen.len() + m),
    decreases m,
{
    let st = game.layout.groups@[g].start as int;
    let c = chosen.len() as int;
    assert(c <= c + m < k);
    assert(free_from(free, start, group_slot(w, st, c + m)));
    let idx = choose|idx: int| start <= idx < free.len() && free[idx] == group_slot(w, st, c + m);
    if m > 0 {
        let prev = lemma_index_lower(game, bk, g, whites, k, chosen, start, free, w, m - 1);
        lemma_group_increasing(game, bk, w, g, k, c + m - 1, c + m);
        if idx <= prev {
            if idx < prev {
                assert(free[idx] < free[prev]);
            }
        }
    }
    idx
}

/// Writing the chosen squares as group `g` (the rest of the group captured) keeps the state of
/// the enumeration for the next group.
proof fn lemma_place_ok(game: Game, bk: u16, g: int, whites0: Seq<u16>, whites1: Seq<u16>, used0: Seq<bool>, used1: Seq<bool>, chosen: Seq<u16>)
    requires
        game.wf(),
        0 <= g < game.layout.groups@.len(),
        enum_ok(game, bk, g, whites0, used0),
        whites1.len() == whites0.len(),
        chosen.len() <= game.layout.groups@[g].len,
        forall|q: int| 0 <= q < chosen.len() ==> #[trigger] chosen[q] < game.packer.region_size,
        forall|q: int| 0 <= q < whites1.len() && !(game.layout.groups@[g].start <= q < game.layout.groups@[g].start + game.layout.groups@[g].len)
            ==> #[trigger] whites1[q] == whites0[q],
        forall|q: int| game.layout.groups@[g].start + chosen.len() <= q < game.layout.groups@[g].start + game.layout.groups@[g].len
            ==> #[trigger] whites1[q] == game.packer.region_size,
        forall|a: int| 0 <= a < chosen.len() ==> #[trigger] whites1[game.layout.groups@[g].start + a] == chosen[a],
        used1.len() == used0.len(),
        forall|sq: int| 0 <= sq < used1.len() ==> #[trigger] used1[sq] == (used0[sq] || exists|a: int| 0 <= a < chosen.len() && chosen[a] == sq),
    ensures
        enum_ok(game, bk, g + 1, whites1, used1),
{
    let groups = game.layout.groups@;
    let st = groups[g].start as int;
    let len = groups[g].len as int;
    let cap = game.packer.region_size;
    assert forall|i: int| 0 <= i < whites1.len() && !in_some_group(groups, i) implies #[trigger] whites1[i] == cap by {
        if st <= i < st + len {
            assert(in_group_at(groups, g, i));
        }
    }
    if groups_in_order(groups) {
        assert forall|sq: int| 0 <= sq < used1.len() && #[trigger] used1[sq] implies sq == bk
            || exists|g2: int, i: int| #![trigger in_group_at(groups, g2, i)] g2 < g + 1 && in_group_at(groups, g2, i)
                && whites1[i] == sq && whites1[i] != cap by {
            if used0[sq] {
                if sq != bk {
                    let (g2, i) = choose|g2: int, i: int| #![trigger in_group_at(groups, g2, i)] g2 < g && in_group_at(groups, g2, i)
                        && whites0[i] == sq && whites0[i] != cap;
                    assert(groups[g2].start + groups[g2].len <= groups[g].start);
                    assert(whites1[i] == whites0[i]);
                }
            } else {
                let a = choose|a: int| 0 <= a < chosen.len() && chosen[a] == sq;
                assert(whites1[st + a] == chosen[a]);
                assert(in_group_at(groups, g, st + a));
            }
        }
    }
}

/// After group `g` is written from the chosen squares, the slots agree, through the end of the
/// groups before `g + 1`, with every placement in reach.
proof fn lemma_place_agrees(game: Game, bk: u16, g: int, whites0: Seq<u16>, whites1: Seq<u16>, chosen: Seq<u16>, start: int, free: Seq<u16>, w: Seq<u16>)
    requires
        game.wf(),
        groups_in_order(game.layout.groups@),
        0 <= g < game.layout.groups@.len(),
        placement(game, bk, w),
        choose_target(game, whites0, g, chosen.len() as int, chosen, start, free, w),
        whites1.len() == whites0.len(),
        whites0.len() == game.layout.slots@.len(),
        forall|i: int| 0 <= i < whites0.len() && !in_some_group(game.layout.groups@, i) ==> #[trigger] whites0[i] == game.packer.region_size,
        forall|q: int| 0 <= q < whites1.len() && !(game.layout.groups@[g].start <= q < game.layout.groups@[g].start + game.layout.groups@[g].len)
            ==> #[trigger] whites1[q] == whites0[q],
        forall|q: int| game.layout.groups@[g].start + chosen.len() <= q < game.layout.groups@[g].start + game.layout.groups@[g].len
            ==> #[trigger] whites1[q] == game.packer.region_size,
        forall|a: int| 0 <= a < chosen.len() ==> #[trigger] whites1[game.layout.groups@[g].start + a] == chosen[a],
    ensures
        codes_agree(w, whites1, groups_end(game.layout, g + 1)),
{
    let groups = game.layout.groups@;
    let st = groups[g].start as int;
    let len = groups[g].len as int;
    let k = chosen.len() as int;
    let cap = game.packer.region_size;
    let e = groups_end(game.layout, g + 1);
    assert(st + len <= game.layout.slots@.len());
    if g + 1 < groups.len() {
        assert(groups[g].start + groups[g].len <= groups[g + 1].start);
    }
    assert forall|i: int| 0 <= i < e implies #[trigger] w[i] == whites1[i] by {
        if i < st {
            assert(w[i] == whites0[i]);
        } else if i < st + k {
            assert(group_slot(w, st, i - st) == chosen[i - st]);
            assert(whites1[st + (i - st)] == chosen[i - st]);
        } else if i < st + len {
            assert(w[i] == cap);
        } else {
            if in_some_group(groups, i) {
                let g3 = choose|g3: int| #[trigger] in_group_at(groups, g3, i);
                if g3 < g {
                    assert(groups[g3].start + groups[g3].len <= groups[g].start);
                } else if g3 > g + 1 {
                    assert(groups[g + 1].start + groups[g + 1].len <= groups[g3].start);
                    assert(groups[g + 1].len > 0);
                }
            }
            assert(w[i] == cap);
            assert(whites1[i] == whites0[i]);
        }
    }
}

} // verus!
