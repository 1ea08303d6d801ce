use vstd::prelude::*;
use crate::lod::TerrainLod;
use crate::topology::{indices, lod_topology, VERTICES_PER_SIDE};

verus! {

/// One live tile: its grid coordinate, the level of detail it is drawn with,
/// and the geometry built for it when it entered the window.
pub struct TerrainPatch<P> {
    pub index: (i32, i32),
    pub lod: TerrainLod,
    pub data: P,
}

/// Whether grid coordinate `(ix, iy)` lies in the square window of half-width
/// `half` around `center` (Chebyshev distance at most `half`).
pub open spec fn in_window(center: (int, int), half: int, ix: int, iy: int) -> bool {
    &&& center.0 - half <= ix <= center.0 + half
    &&& center.1 - half <= iy <= center.1 + half
}

/// The grid coordinate of a patch, as a pair of mathematical integers.
pub open spec fn coord<P>(p: TerrainPatch<P>) -> (int, int) {
    (p.index.0 as int, p.index.1 as int)
}

/// The edge of the window of half-width `half` around `center` that faces
/// direction `(dx, dy)`, one of the four unit steps along an axis.
pub open spec fn edge_set(center: (int, int), half: int, dx: int, dy: int) -> Set<(int, int)> {
    Set::new(
        |c: (int, int)|
            if dx != 0 {
                c.0 == center.0 + (if dx > 0 {
                    half
                } else {
                    -half
                }) && center.1 - half <= c.1 <= center.1 + half
            } else {
                c.1 == center.1 + (if dy > 0 {
                    half
                } else {
                    -half
                }) && center.0 - half <= c.0 <= center.0 + half
            },
    )
}

/// Distance of slot position `a` past the ring origin `o` in a ring of `n` slots.
spec fn rel(a: int, o: int, n: int) -> int {
    if a >= o {
        a - o
    } else {
        a - o + n
    }
}

/// `a` when `column`, else `b`.
spec fn pick(column: bool, a: int, b: int) -> int {
    if column {
        a
    } else {
        b
    }
}

/// The coordinate of `c` along the first axis when `column`, else along the
/// second.
spec fn along(column: bool, c: (int, int)) -> int {
    pick(column, c.0, c.1)
}

/// The coordinate of `c` along the other axis than `along`'s.
spec fn across(column: bool, c: (int, int)) -> int {
    pick(column, c.1, c.0)
}

/// Position in the flat patch list of the slot at column `a`, row `b`.
spec fn slot(n: int, a: int, b: int) -> int {
    a * n + b
}

/// Every slot of the ring has a position in the flat list.
proof fn lemma_slot(n: int, a: int, b: int)
    requires
        0 <= a < n,
        0 <= b < n,
    ensures
        0 <= slot(n, a, b) < n * n,
{
    assert(0 <= a * n + b < n * n) by (nonlinear_arith)
        requires
            0 <= a < n,
            0 <= b < n,
    ;
}

/// Distinct slots have distinct positions.
proof fn lemma_slot_unique(n: int, a: int, b: int, a2: int, b2: int)
    requires
        0 <= a < n,
        0 <= b < n,
        0 <= a2 < n,
        0 <= b2 < n,
        slot(n, a, b) == slot(n, a2, b2),
    ensures
        a == a2,
        b == b2,
{
    vstd::arithmetic::div_mod::lemma_fundamental_div_mod_converse(slot(n, a, b), n, a, b);
    vstd::arithmetic::div_mod::lemma_fundamental_div_mod_converse(slot(n, a, b), n, a2, b2);
}

/// Every position of the flat list belongs to a slot.
proof fn lemma_slot_split(n: int, k: int)
    requires
        0 <= k < n * n,
        n > 0,
    ensures
        0 <= k / n < n,
        0 <= k % n < n,
        k == slot(n, k / n, k % n),
{
    vstd::arithmetic::div_mod::lemma_fundamental_div_mod(k, n);
    vstd::arithmetic::div_mod::lemma_div_pos_is_pos(k, n);
    vstd::arithmetic::div_mod::lemma_mod_bound(k, n);
    let q = k / n;
    let r = k % n;
    assert(k == q * n + r && q < n) by (nonlinear_arith)
        requires
            k == n * q + r,
            0 <= r < n,
            k < n * n,
            n > 0,
    ;
}

/// A square window of terrain patches that follows a viewpoint across an
/// unbounded grid, with the three shared triangle topologies its patches are
/// drawn with.
///
/// The patches sit in a ring of `side` by `side` slots: moving the window by
/// one patch overwrites the one column or row of slots that leaves it.
pub struct Terrain<P> {
    center: (i32, i32),
    half: i32,
    side: usize,
    origin: (usize, usize),
    patches: Vec<TerrainPatch<P>>,
    index_buffer: Vec<u32>,
    coarse_index_buffer: Vec<u32>,
    very_coarse_index_buffer: Vec<u32>,
}

impl<P> View for Terrain<P> {
    type V = Seq<TerrainPatch<P>>;

    /// The live patches.
    closed spec fn view(&self) -> Seq<TerrainPatch<P>> {
        self.patches@
    }
}

impl<P> Terrain<P> {
    /// The grid coordinate the window is centred on.
    pub closed spec fn spec_center(self) -> (int, int) {
        (self.center.0 as int, self.center.1 as int)
    }

    /// The window's half-width `H`: it spans `2H + 1` patches per side.
    pub closed spec fn spec_half(self) -> int {
        self.half as int
    }

    /// The coordinate that slot `(a, b)` must hold.
    closed spec fn expected(self, a: int, b: int) -> (int, int) {
        let n = self.side as int;
        (
            self.center.0 - self.half + rel(a, self.origin.0 as int, n),
            self.center.1 - self.half + rel(b, self.origin.1 as int, n),
        )
    }

    /// Internal consistency of the ring of slots.
    pub closed spec fn wf(self) -> bool {
        let n = self.side as int;
        &&& self.half >= 0
        &&& n == 2 * self.half + 1
        &&& self.origin.0 < n
        &&& self.origin.1 < n
        &&& self.patches@.len() == n * n
        &&& n * n <= usize::MAX
        &&& n <= i32::MAX
        &&& self.center.0 - self.half >= i32::MIN
        &&& self.center.0 + self.half <= i32::MAX
        &&& self.center.1 - self.half >= i32::MIN
        &&& self.center.1 + self.half <= i32::MAX
        &&& forall|a: int, b: int|
            0 <= a < n && 0 <= b < n ==> coord(#[trigger] self.patches@[slot(n, a, b)])
                == self.expected(a, b)
        &&& self.index_buffer@ == lod_topology(TerrainLod::Standard)
        &&& self.coarse_index_buffer@ == lod_topology(TerrainLod::Coarse)
        &&& self.very_coarse_index_buffer@ == lod_topology(TerrainLod::VeryCoarse)
    }

    /// The live patches are exactly the window around the centre, each
    /// coordinate once, `(2H + 1)²` of them.
    pub open spec fn window_ok(self) -> bool {
        let h = self.spec_half();
        &&& self@.len() == (2 * h + 1) * (2 * h + 1)
        &&& forall|k: int|
            0 <= k < self@.len() ==> in_window(
                self.spec_center(),
                h,
                coord(#[trigger] self@[k]).0,
                coord(self@[k]).1,
            )
        &&& forall|ix: int, iy: int|
            #![trigger in_window(self.spec_center(), h, ix, iy)]
            in_window(self.spec_center(), h, ix, iy) ==> exists|k: int|
                0 <= k < self@.len() && coord(#[trigger] self@[k]) == (ix, iy)
        &&& forall|k1: int, k2: int|
            0 <= k1 < self@.len() && 0 <= k2 < self@.len() && k1 != k2 ==> coord(
                #[trigger] self@[k1],
            ) != coord(#[trigger] self@[k2])
    }

    /// Whether patch `p`'s coordinate lies in this grid's window.
    pub open spec fn covers(self, p: TerrainPatch<P>) -> bool {
        in_window(self.spec_center(), self.spec_half(), coord(p).0, coord(p).1)
    }

    /// Whether `p`, found at position `k`, is the patch `orig` had there, with
    /// its coordinate in `orig`'s window.
    closed spec fn kept(orig: Self, p: TerrainPatch<P>, k: int) -> bool {
        &&& p.index == orig.patches@[k].index
        &&& p.data == orig.patches@[k].data
        &&& orig.covers(p)
    }

    /// Coordinates of the patches of `after` that lie outside `before`'s
    /// window: those that were built when the window moved.
    pub open spec fn entering(before: Self, after: Self) -> Set<(int, int)> {
        Set::new(
            |c: (int, int)|
                exists|k: int|
                    0 <= k < after@.len() && coord(#[trigger] after@[k]) == c && !before.covers(
                        after@[k],
                    ),
        )
    }

    /// Coordinates of the patches of `before` that lie outside `after`'s
    /// window: those that were dropped when the window moved.
    pub open spec fn leaving(before: Self, after: Self) -> Set<(int, int)> {
        Self::entering(after, before)
    }

    /// Moving the window by one patch along one axis brings in one full edge
    /// of `2H + 1` patches, the new window's edge in the direction moved, and
    /// drops as many, the old window's edge on the opposite side.
    pub proof fn lemma_single_step(before: Self, after: Self)
        requires
            before.wf(),
            after.wf(),
            after.spec_half() == before.spec_half(),
            ({
                let dx = after.spec_center().0 - before.spec_center().0;
                let dy = after.spec_center().1 - before.spec_center().1;
                (dx == 0 && (dy == 1 || dy == -1)) || (dy == 0 && (dx == 1 || dx == -1))
            }),
        ensures
            Self::entering(before, after).finite(),
            Self::entering(before, after).len() == 2 * before.spec_half() + 1,
            Self::leaving(before, after).finite(),
            Self::leaving(before, after).len() == 2 * before.spec_half() + 1,
            Self::entering(before, after) == edge_set(
                after.spec_center(),
                after.spec_half(),
                after.spec_center().0 - before.spec_center().0,
                after.spec_center().1 - before.spec_center().1,
            ),
            Self::leaving(before, after) == edge_set(
                before.spec_center(),
                before.spec_half(),
                before.spec_center().0 - after.spec_center().0,
                before.spec_center().1 - after.spec_center().1,
            ),
    {
        Self::lemma_edge(before, after);
        Self::lemma_edge(after, before);
    }

    /// The patches of `after` outside `before`'s window form one edge of
    /// `after`'s window, when the two windows are one patch apart.
    proof fn lemma_edge(before: Self, after: Self)
        requires
            before.wf(),
            after.wf(),
            after.spec_half() == before.spec_half(),
            ({
                let dx = after.spec_center().0 - before.spec_center().0;
                let dy = after.spec_center().1 - before.spec_center().1;
                (dx == 0 && (dy == 1 || dy == -1)) || (dy == 0 && (dx == 1 || dx == -1))
            }),
        ensures
            Self::entering(before, after).finite(),
            Self::entering(before, after).len() == 2 * before.spec_half() + 1,
            Self::entering(before, after) == edge_set(
                after.spec_center(),
                after.spec_half(),
                after.spec_center().0 - before.spec_center().0,
                after.spec_center().1 - before.spec_center().1,
            ),
    {
        after.lemma_window();
        let h = before.spec_half();
        let b = before.spec_center();
        let a = after.spec_center();
        let vertical = a.1 == b.1;
        let fixed = if vertical {
            if a.0 > b.0 {
                a.0 + h
            } else {
                a.0 - h
            }
        } else if a.1 > b.1 {
            a.1 + h
        } else {
            a.1 - h
        };
        let lo = if vertical {
            a.1 - h
        } else {
            a.0 - h
        };
        let hi = if vertical {
            a.1 + h
        } else {
            a.0 + h
        };
        let line = Set::new(
            |c: (int, int)|
                if vertical {
                    c.0 == fixed && lo <= c.1 <= hi
                } else {
                    c.1 == fixed && lo <= c.0 <= hi
                },
        );
        lemma_line_len(fixed, lo, hi, vertical);
        assert(Self::entering(before, after) =~= line) by {
            assert forall|c: (int, int)| line.contains(c) implies Self::entering(
                before,
                after,
            ).contains(c) by {
                assert(in_window(a, h, c.0, c.1));
            }
        }
        assert(line =~= edge_set(a, h, a.0 - b.0, a.1 - b.1));
    }

    /// Whether `p` was just built on the edge by which a step along the given
    /// axis and direction brought the window here.
    closed spec fn built_edge<F: Fn((i32, i32)) -> P>(
        self,
        p: TerrainPatch<P>,
        column: bool,
        forward: bool,
        build: &F,
    ) -> bool {
        &&& along(column, coord(p)) == along(column, self.spec_center()) + if forward {
            self.half as int
        } else {
            -self.half
        }
        &&& p.lod == TerrainLod::Standard
        &&& build.ensures((p.index,), p.data)
    }

    /// `self` partway through moving `orig`'s window towards `target`: still
    /// well formed, and each patch either the one `orig` had at that position,
    /// inside `orig`'s window, or one built outside that window.
    closed spec fn on_the_way<F: Fn((i32, i32)) -> P>(
        self,
        orig: Self,
        target: (i32, i32),
        build: &F,
    ) -> bool {
        &&& self.wf()
        &&& self.half == orig.half
        &&& self.patches@.len() == orig.patches@.len()
        &&& target.0 - self.half >= i32::MIN
        &&& target.0 + self.half <= i32::MAX
        &&& target.1 - self.half >= i32::MIN
        &&& target.1 + self.half <= i32::MAX
        &&& forall|k: int|
            0 <= k < self.patches@.len() ==> Self::kept(orig, #[trigger] self.patches@[k], k) || (
            !orig.covers(self.patches@[k]) && build.ensures(
                (self.patches@[k].index,),
                self.patches@[k].data,
            ))
    }

    /// A well-formed grid holds exactly its window.
    pub proof fn lemma_window(self)
        requires
            self.wf(),
        ensures
            self.window_ok(),
    {
        let n = self.side as int;
        let h = self.half as int;
        let c = self.spec_center();
        let ox = self.origin.0 as int;
        let oy = self.origin.1 as int;
        assert forall|k: int| 0 <= k < self@.len() implies in_window(
            c,
            h,
            coord(#[trigger] self@[k]).0,
            coord(self@[k]).1,
        ) by {
            lemma_slot_split(n, k);
            assert(coord(self.patches@[slot(n, k / n, k % n)]) == self.expected(k / n, k % n));
        }
        assert forall|ix: int, iy: int|
            #![trigger in_window(c, h, ix, iy)]
            in_window(c, h, ix, iy) implies exists|k: int|
                0 <= k < self@.len() && coord(#[trigger] self@[k]) == (ix, iy) by {
            let da = ix - (c.0 - h);
            let db = iy - (c.1 - h);
            let a = if ox + da < n { ox + da } else { ox + da - n };
            let b = if oy + db < n { oy + db } else { oy + db - n };
            lemma_slot(n, a, b);
            assert(rel(a, ox, n) == da && rel(b, oy, n) == db);
            assert(coord(self.patches@[slot(n, a, b)]) == self.expected(a, b));
            assert(coord(self@[slot(n, a, b)]) == (ix, iy));
        }
        assert forall|k1: int, k2: int|
            0 <= k1 < self@.len() && 0 <= k2 < self@.len() && k1 != k2 implies coord(
                #[trigger] self@[k1],
            ) != coord(#[trigger] self@[k2]) by {
            lemma_slot_split(n, k1);
            lemma_slot_split(n, k2);
            assert(coord(self.patches@[slot(n, k1 / n, k1 % n)]) == self.expected(k1 / n, k1 % n));
            assert(coord(self.patches@[slot(n, k2 / n, k2 % n)]) == self.expected(k2 / n, k2 % n));
        }
    }
}

/// The grid coordinates `(x, y)` with `x == fixed` and `lo <= y <= hi` (or,
/// when `!vertical`, `y == fixed` and `lo <= x <= hi`) number `hi - lo + 1`.
proof fn lemma_line_len(fixed: int, lo: int, hi: int, vertical: bool)
    requires
        lo <= hi + 1,
    ensures
        ({
            let line = Set::new(
                |c: (int, int)|
                    if vertical {
                        c.0 == fixed && lo <= c.1 <= hi
                    } else {
                        c.1 == fixed && lo <= c.0 <= hi
                    },
            );
            line.finite() && line.len() == hi - lo + 1
        }),
{
    let line = Set::new(
        |c: (int, int)|
            if vertical {
                c.0 == fixed && lo <= c.1 <= hi
            } else {
                c.1 == fixed && lo <= c.0 <= hi
            },
    );
    let f = |t: int|
        if vertical {
            (fixed, t)
        } else {
            (t, fixed)
        };
    let range = vstd::set_lib::set_int_range(lo, hi + 1);
    vstd::set_lib::lemma_int_range(lo, hi + 1);
    assert(range.map(f) =~= line) by {
        assert forall|c: (int, int)| line.contains(c) implies range.map(f).contains(c) by {
            let t = if vertical {
                c.1
            } else {
                c.0
            };
            assert(range.contains(t) && f(t) == c);
        }
    }
    assert(vstd::relations::injective_on(f, range));
    vstd::set_lib::lemma_map_size(range, line, f);
}

/// The window half-width for a window `patches_per_side` patches wide.
pub fn half_patches_per_side(patches_per_side: u32) -> (h: i32)
    requires
        1 <= patches_per_side <= i32::MAX,
    ensures
        h == (patches_per_side - 1) / 2,
{
    ((patches_per_side - 1) / 2) as i32
}

impl<P> Terrain<P> {
    /// Builds the window of `patches_per_side` by `patches_per_side` patches
    /// centred on `center`, each made by `build` from its coordinate and drawn
    /// at the standard level of detail, and the three shared topologies.
    pub fn new<F: Fn((i32, i32)) -> P>(patches_per_side: u32, center: (i32, i32), build: &F) -> (t:
        Self)
        requires
            patches_per_side % 2 == 1,
            patches_per_side <= i32::MAX,
            patches_per_side as int * patches_per_side as int <= usize::MAX,
            center.0 - (patches_per_side - 1) / 2 >= i32::MIN,
            center.0 + (patches_per_side - 1) / 2 <= i32::MAX,
            center.1 - (patches_per_side - 1) / 2 >= i32::MIN,
            center.1 + (patches_per_side - 1) / 2 <= i32::MAX,
            forall|i: (i32, i32)| build.requires((i,)),
        ensures
            t.wf(),
            t.window_ok(),
            t.spec_center() == (center.0 as int, center.1 as int),
            t.spec_half() == (patches_per_side - 1) / 2,
            forall|k: int|
                0 <= k < t@.len() ==> (#[trigger] t@[k]).lod == TerrainLod::Standard
                    && build.ensures((t@[k].index,), t@[k].data),
    {
        let half = half_patches_per_side(patches_per_side);
        let n: usize = patches_per_side as usize;
        let ghost ni = n as int;
        let mut patches: Vec<TerrainPatch<P>> = Vec::new();
        let mut a: usize = 0;
        while a < n
            invariant
                ni == n,
                n == 2 * half + 1,
                half >= 0,
                ni * ni <= usize::MAX,
                n <= i32::MAX,
                center.0 - half >= i32::MIN,
                center.0 + half <= i32::MAX,
                center.1 - half >= i32::MIN,
                center.1 + half <= i32::MAX,
                forall|i: (i32, i32)| build.requires((i,)),
                0 <= a <= n,
                patches@.len() == a * ni,
                forall|a2: int, b2: int|
                    0 <= a2 < a && 0 <= b2 < n ==> coord(#[trigger] patches@[slot(ni, a2, b2)])
                        == (center.0 - half + a2, center.1 - half + b2),
                forall|k: int|
                    0 <= k < patches@.len() ==> (#[trigger] patches@[k]).lod
                        == TerrainLod::Standard && build.ensures(
                        (patches@[k].index,),
                        patches@[k].data,
                    ),
            decreases n - a,
        {
            let mut b: usize = 0;
            while b < n
                invariant
                    ni == n,
                    n == 2 * half + 1,
                    half >= 0,
                    ni * ni <= usize::MAX,
                    n <= i32::MAX,
                    center.0 - half >= i32::MIN,
                    center.0 + half <= i32::MAX,
                    center.1 - half >= i32::MIN,
                    center.1 + half <= i32::MAX,
                    forall|i: (i32, i32)| build.requires((i,)),
                    0 <= a < n,
                    0 <= b <= n,
                    patches@.len() == a * ni + b,
                    forall|a2: int, b2: int|
                        (0 <= a2 < a && 0 <= b2 < n) || (a2 == a && 0 <= b2 < b) ==> coord(
                            #[trigger] patches@[slot(ni, a2, b2)],
                        ) == (center.0 - half + a2, center.1 - half + b2),
                    forall|k: int|
                        0 <= k < patches@.len() ==> (#[trigger] patches@[k]).lod
                            == TerrainLod::Standard && build.ensures(
                            (patches@[k].index,),
                            patches@[k].data,
                        ),
                decreases n - b,
            {
                let index: (i32, i32) = (center.0 - half + a as i32, center.1 - half + b as i32);
                let data = build((index));
                patches.push(TerrainPatch { index, lod: TerrainLod::Standard, data });
                proof {
                    assert forall|a2: int, b2: int|
                        (0 <= a2 < a && 0 <= b2 < n) || (a2 == a && 0 <= b2 <= b) implies coord(
                            #[trigger] patches@[slot(ni, a2, b2)],
                        ) == (center.0 - half + a2, center.1 - half + b2) by {
                        lemma_slot(ni, a2, b2);
                        if a2 < a {
                            assert(slot(ni, a2, b2) < a * ni) by (nonlinear_arith)
                                requires
                                    a2 < a,
                                    0 <= b2 < ni,
                                    slot(ni, a2, b2) == a2 * ni + b2,
                            ;
                        }
                    }
                }
                b = b + 1;
            }
            proof {
                assert(a * ni + ni == (a + 1) * ni) by (nonlinear_arith);
            }
            a = a + 1;
        }
        let t = Terrain {
            center,
            half,
            side: n,
            origin: (0, 0),
            patches,
            index_buffer: indices(1, VERTICES_PER_SIDE),
            coarse_index_buffer: indices(4, VERTICES_PER_SIDE),
            very_coarse_index_buffer: indices(8, VERTICES_PER_SIDE),
        };
        proof {
            t.lemma_window();
        }
        t
    }

    /// Recentres the window on grid coordinate `target`, one patch step at a
    /// time along the first axis and then the second: each step builds the
    /// column or row of patches that enters the window and overwrites the one
    /// that leaves it. Patches that were live and stay in the window keep their
    /// geometry. Then every live patch is given the level of detail that
    /// `classify` picks for its coordinate.
    pub fn update<F: Fn((i32, i32)) -> P, G: Fn((i32, i32)) -> TerrainLod>(
        &mut self,
        target: (i32, i32),
        build: &F,
        classify: &G,
    )
        requires
            old(self).wf(),
            target.0 - old(self).spec_half() >= i32::MIN,
            target.0 + old(self).spec_half() <= i32::MAX,
            target.1 - old(self).spec_half() >= i32::MIN,
            target.1 + old(self).spec_half() <= i32::MAX,
            forall|i: (i32, i32)| build.requires((i,)),
            forall|i: (i32, i32)| classify.requires((i,)),
        ensures
            final(self).wf(),
            final(self).window_ok(),
            final(self).spec_center() == (target.0 as int, target.1 as int),
            final(self).spec_half() == old(self).spec_half(),
            forall|k: int|
                0 <= k < final(self)@.len() ==> {
                    let p = #[trigger] final(self)@[k];
                    &&& old(self).covers(p) ==> p.index == old(self)@[k].index && p.data
                        == old(self)@[k].data
                    &&& !old(self).covers(p) ==> build.ensures((p.index,), p.data)
                    &&& classify.ensures((p.index,), p.lod)
                },
            old(self).spec_center() == (target.0 as int, target.1 as int) ==> forall|k: int|
                0 <= k < final(self)@.len() ==> (#[trigger] final(self)@[k]).index
                    == old(self)@[k].index && final(self)@[k].data == old(self)@[k].data,
    {
        proof {
            self.lemma_window();
        }
        let forward_x: bool = self.center.0 < target.0;
        while self.center.0 != target.0
            invariant
                self.on_the_way(*old(self), target, build),
                forall|i: (i32, i32)| build.requires((i,)),
                self.center.1 == old(self).center.1,
                forward_x ==> old(self).center.0 <= self.center.0 <= target.0,
                !forward_x ==> target.0 <= self.center.0 <= old(self).center.0,
            decreases if forward_x {
                target.0 - self.center.0
            } else {
                self.center.0 - target.0
            },
        {
            self.step(true, forward_x, build);
        }
        let forward_y: bool = self.center.1 < target.1;
        while self.center.1 != target.1
            invariant
                self.on_the_way(*old(self), target, build),
                forall|i: (i32, i32)| build.requires((i,)),
                self.center.0 == target.0,
                forward_y ==> old(self).center.1 <= self.center.1 <= target.1,
                !forward_y ==> target.1 <= self.center.1 <= old(self).center.1,
            decreases if forward_y {
                target.1 - self.center.1
            } else {
                self.center.1 - target.1
            },
        {
            self.step(false, forward_y, build);
        }
        let ghost moved = *self;
        let mut k: usize = 0;
        while k < self.patches.len()
            invariant
                self.center == moved.center,
                self.half == moved.half,
                self.side == moved.side,
                self.origin == moved.origin,
                self.index_buffer == moved.index_buffer,
                self.coarse_index_buffer == moved.coarse_index_buffer,
                self.very_coarse_index_buffer == moved.very_coarse_index_buffer,
                self.patches@.len() == moved.patches@.len(),
                forall|j: int|
                    0 <= j < self.patches@.len() ==> (#[trigger] self.patches@[j]).index
                        == moved.patches@[j].index && self.patches@[j].data
                        == moved.patches@[j].data,
                forall|j: int|
                    0 <= j < k ==> classify.ensures(
                        ((#[trigger] self.patches@[j]).index,),
                        self.patches@[j].lod,
                    ),
                forall|i: (i32, i32)| classify.requires((i,)),
                0 <= k <= self.patches@.len(),
            decreases self.patches@.len() - k,
        {
            let lod = classify((self.patches[k].index));
            self.patches[k].lod = lod;
            k = k + 1;
        }
        proof {
            let n = self.side as int;
            assert forall|a: int, b: int|
                0 <= a < n && 0 <= b < n implies coord(#[trigger] self.patches@[slot(n, a, b)])
                == self.expected(a, b) by {
                lemma_slot(n, a, b);
                assert(coord(moved.patches@[slot(n, a, b)]) == moved.expected(a, b));
            }
            self.lemma_window();
        }
    }

    /// The grid coordinate the window is centred on.
    pub fn center(&self) -> (c: (i32, i32))
        ensures
            (c.0 as int, c.1 as int) == self.spec_center(),
    {
        self.center
    }

    /// The live patches, one for each coordinate of the window.
    pub fn patches(&self) -> (r: &Vec<TerrainPatch<P>>)
        ensures
            r@ == self@,
    {
        &self.patches
    }

    /// The triangle list shared by every patch drawn at `lod`.
    pub fn topology(&self, lod: TerrainLod) -> (r: &Vec<u32>)
        requires
            self.wf(),
        ensures
            r@ == lod_topology(lod),
    {
        match lod {
            TerrainLod::Standard => &self.index_buffer,
            TerrainLod::Coarse => &self.coarse_index_buffer,
            TerrainLod::VeryCoarse => &self.very_coarse_index_buffer,
        }
    }

    /// The triangle list the `k`-th live patch is drawn with.
    pub fn patch_topology(&self, k: usize) -> (r: &Vec<u32>)
        requires
            self.wf(),
            k < self@.len(),
        ensures
            r@ == lod_topology(self@[k as int].lod),
    {
        self.topology(self.patches[k].lod)
    }

    /// Moves the window one patch along the first axis when `column`, else
    /// along the second, towards larger coordinates when `forward`. The edge
    /// that enters the window is built into the slots of the edge that leaves.
    fn step<F: Fn((i32, i32)) -> P>(&mut self, column: bool, forward: bool, build: &F)
        requires
            old(self).wf(),
            forward ==> along(column, old(self).spec_center()) + old(self).half < i32::MAX,
            !forward ==> along(column, old(self).spec_center()) - old(self).half > i32::MIN,
            forall|i: (i32, i32)| build.requires((i,)),
        ensures
            final(self).wf(),
            along(column, final(self).spec_center()) == along(column, old(self).spec_center())
                + if forward {
                1int
            } else {
                -1int
            },
            across(column, final(self).spec_center()) == across(column, old(self).spec_center()),
            final(self).half == old(self).half,
            final(self).patches@.len() == old(self).patches@.len(),
            forall|k: int|
                0 <= k < final(self).patches@.len() ==> #[trigger] final(self).patches@[k]
                    == old(self).patches@[k] || final(self).built_edge(
                    final(self).patches@[k],
                    column,
                    forward,
                    build,
                ),
    {
        let n: usize = self.side;
        let ghost ni = n as int;
        let h: i32 = self.half;
        let o: usize = if column {
            self.origin.0
        } else {
            self.origin.1
        };
        let line: usize = if forward {
            o
        } else if o == 0 {
            n - 1
        } else {
            o - 1
        };
        let here: i32 = if column {
            self.center.0
        } else {
            self.center.1
        };
        let moved: i32 = if forward {
            here + 1
        } else {
            here - 1
        };
        let edge: i32 = if forward {
            moved + h
        } else {
            moved - h
        };
        let other_o: usize = if column {
            self.origin.1
        } else {
            self.origin.0
        };
        let other_c: i32 = if column {
            self.center.1
        } else {
            self.center.0
        };
        let mut i: usize = 0;
        while i < n
            invariant
                ni == n,
                self.side == n,
                old(self).side == n,
                self.half == h,
                old(self).half == h,
                self.origin == old(self).origin,
                self.center == old(self).center,
                self.index_buffer == old(self).index_buffer,
                self.coarse_index_buffer == old(self).coarse_index_buffer,
                self.very_coarse_index_buffer == old(self).very_coarse_index_buffer,
                old(self).wf(),
                o == pick(column, self.origin.0 as int, self.origin.1 as int),
                other_o == pick(column, self.origin.1 as int, self.origin.0 as int),
                other_c == pick(column, self.center.1 as int, self.center.0 as int),
                line < n,
                forall|q: (i32, i32)| build.requires((q,)),
                0 <= i <= n,
                self.patches@.len() == ni * ni,
                forall|a: int, b: int|
                    0 <= a < n && 0 <= b < n && (pick(column, a, b) != line || pick(column, b, a)
                        >= i) ==> #[trigger] self.patches@[slot(ni, a, b)]
                        == old(self).patches@[slot(ni, a, b)],
                forall|a: int, b: int|
                    0 <= a < n && 0 <= b < n && pick(column, a, b) == line && pick(column, b, a)
                        < i ==> {
                        let p = #[trigger] self.patches@[slot(ni, a, b)];
                        &&& along(column, coord(p)) == edge
                        &&& across(column, coord(p)) == other_c - h + rel(
                            pick(column, b, a),
                            other_o as int,
                            ni,
                        )
                        &&& p.lod == TerrainLod::Standard
                        &&& build.ensures((p.index,), p.data)
                    },
            decreases n - i,
        {
            let d: usize = if i >= other_o {
                i - other_o
            } else {
                n - other_o + i
            };
            let side_pos: i32 = other_c - h + d as i32;
            let index: (i32, i32) = if column {
                (edge, side_pos)
            } else {
                (side_pos, edge)
            };
            let data = build((index));
            let ghost (sa, sb) = if column {
                (line as int, i as int)
            } else {
                (i as int, line as int)
            };
            proof {
                lemma_slot(ni, sa, sb);
                assert(sa * ni + sb < ni * ni) by (nonlinear_arith)
                    requires
                        0 <= sa < ni,
                        0 <= sb < ni,
                ;
            }
            let k: usize = if column {
                line * n + i
            } else {
                i * n + line
            };
            let ghost before = self.patches@;
            self.patches.set(k, TerrainPatch { index, lod: TerrainLod::Standard, data });
            proof {
                assert forall|a: int, b: int|
                    0 <= a < n && 0 <= b < n && (pick(column, a, b) != line || pick(column, b, a)
                        >= i + 1) implies #[trigger] self.patches@[slot(ni, a, b)]
                        == old(self).patches@[slot(ni, a, b)] by {
                    lemma_slot(ni, a, b);
                    if slot(ni, a, b) != k {
                        assert(self.patches@[slot(ni, a, b)] == before[slot(ni, a, b)]);
                    } else {
                        lemma_slot_unique(ni, a, b, sa, sb);
                    }
                }
                assert forall|a: int, b: int|
                    0 <= a < n && 0 <= b < n && pick(column, a, b) == line && pick(column, b, a)
                        < i + 1 implies {
                        let p = #[trigger] self.patches@[slot(ni, a, b)];
                        &&& along(column, coord(p)) == edge
                        &&& across(column, coord(p)) == other_c - h + rel(
                            pick(column, b, a),
                            other_o as int,
                            ni,
                        )
                        &&& p.lod == TerrainLod::Standard
                        &&& build.ensures((p.index,), p.data)
                    } by {
                    lemma_slot(ni, a, b);
                    if slot(ni, a, b) != k {
                        assert(self.patches@[slot(ni, a, b)] == before[slot(ni, a, b)]);
                    } else {
                        lemma_slot_unique(ni, a, b, sa, sb);
                    }
                }
            }
            i = i + 1;
        }
        let new_o: usize = if forward {
            if line + 1 == n {
                0
            } else {
                line + 1
            }
        } else {
            line
        };
        if column {
            self.center.0 = moved;
            self.origin.0 = new_o;
        } else {
            self.center.1 = moved;
            self.origin.1 = new_o;
        }
        proof {
            assert forall|a: int, b: int|
                0 <= a < ni && 0 <= b < ni implies coord(#[trigger] self.patches@[slot(ni, a, b)])
                == self.expected(a, b) by {
                assert(coord(old(self).patches@[slot(ni, a, b)]) == old(self).expected(a, b));
            }
            assert forall|k: int|
                0 <= k < self.patches@.len() implies #[trigger] self.patches@[k]
                    == old(self).patches@[k] || self.built_edge(
                    self.patches@[k],
                    column,
                    forward,
                    build,
                ) by {
                lemma_slot_split(ni, k);
                assert(self.patches@[slot(ni, k / ni, k % ni)] == self.patches@[k]);
            }
        }
    }
}

} // verus!
