//! Shelf packing: sprites are laid left to right on a shelf, and a new shelf
//! starts below the tallest sprite of the last one when the row is full.

use vstd::prelude::*;
use crate::names::chars_lt;
use crate::order::{as_ints, is_index_perm, is_ranked, names_of, rank_lt, ranked_indices, ranked_order};
use crate::pack::{Frame, FrameSpec, Sprite, SpriteDims, dims_of, frame_specs};
use crate::sizing::{max_int, sat_u32};

verus! {

/// `a - b`, or 0 where that would be negative.
pub open spec fn sat_sub(a: int, b: int) -> int {
    if a < b { 0 } else { a - b }
}

/// The packer's state between two sprites: the next free spot on the current
/// shelf, the height of that shelf so far, and where each placed sprite went.
pub struct ShelfState {
    pub x: int,
    pub y: int,
    pub shelf_h: int,
    pub placed: Seq<(int, int)>,
}

/// Places one `w` by `h` sprite: `None` when it does not fit in a `width` by
/// `height` atlas with `pad` pixels of margin, even on a fresh shelf.
pub open spec fn place_one(
    st: ShelfState,
    w: int,
    h: int,
    width: int,
    height: int,
    pad: int,
) -> Option<ShelfState> {
    let room_w = sat_sub(width, pad);
    let room_h = sat_sub(height, pad);
    if w > room_w || h > room_h {
        None
    } else {
        let wrap = st.x > pad && sat_u32(st.x + w) > room_w;
        let x1 = if wrap { pad } else { st.x };
        let y1 = if wrap { sat_u32(sat_u32(st.y + st.shelf_h) + pad) } else { st.y };
        let sh1 = if wrap { 0 } else { st.shelf_h };
        if sat_u32(y1 + h) > room_h || sat_u32(x1 + w) > room_w {
            None
        } else {
            Some(
                ShelfState {
                    x: sat_u32(x1 + sat_u32(w + pad)),
                    y: y1,
                    shelf_h: max_int(sh1, h),
                    placed: st.placed.push((x1, y1)),
                },
            )
        }
    }
}

/// The state after placing `sizes` (width, height) one after another,
/// starting at `(pad, pad)`; `None` once one does not fit.
pub open spec fn shelf_run(sizes: Seq<(u32, u32)>, width: u32, height: u32, pad: u32) -> Option<
    ShelfState,
>
    decreases sizes.len(),
{
    if sizes.len() == 0 {
        Some(ShelfState { x: pad as int, y: pad as int, shelf_h: 0, placed: seq![] })
    } else {
        match shelf_run(sizes.drop_last(), width, height, pad) {
            None => None,
            Some(st) => place_one(
                st,
                sizes.last().0 as int,
                sizes.last().1 as int,
                width as int,
                height as int,
                pad as int,
            ),
        }
    }
}

/// The sizes of the sprites, taken in the given order.
pub open spec fn order_sizes(dims: Seq<SpriteDims>, order: Seq<int>) -> Seq<(u32, u32)> {
    Seq::new(order.len(), |k: int| (dims[order[k]].w, dims[order[k]].h))
}

/// The frames of the sprites taken in `order`, at the positions `placed`.
pub open spec fn placed_frames(
    dims: Seq<SpriteDims>,
    order: Seq<int>,
    placed: Seq<(int, int)>,
) -> Seq<FrameSpec> {
    Seq::new(
        order.len(),
        |k: int|
            FrameSpec {
                name: dims[order[k]].name,
                x: placed[k].0,
                y: placed[k].1,
                w: dims[order[k]].w as int,
                h: dims[order[k]].h as int,
            },
    )
}

/// The names of a sequence of frames.
pub open spec fn frame_names(fs: Seq<FrameSpec>) -> Seq<Seq<char>> {
    Seq::new(fs.len(), |k: int| fs[k].name)
}

/// `n` zeros.
pub open spec fn zeros(n: nat) -> Seq<u32> {
    Seq::new(n, |k: int| 0u32)
}

/// The frames stably sorted by name.
pub open spec fn by_name(fs: Seq<FrameSpec>) -> Seq<FrameSpec> {
    let p = ranked_order(zeros(fs.len()), frame_names(fs));
    Seq::new(fs.len(), |k: int| fs[p[k]])
}

/// The frame sheet that shelf packing gives for the sprites taken in `order`
/// in a `width` by `height` atlas, sorted by name; `None` when they do not fit.
pub open spec fn shelf_frames(
    dims: Seq<SpriteDims>,
    order: Seq<int>,
    width: u32,
    height: u32,
    pad: u32,
) -> Option<Seq<FrameSpec>> {
    match shelf_run(order_sizes(dims, order), width, height, pad) {
        None => None,
        Some(st) => Some(by_name(placed_frames(dims, order, st.placed))),
    }
}

/// Frames `a` and `b` lie apart with at least `pad` pixels between them, side
/// by side or one above the other.
pub open spec fn frames_apart(a: FrameSpec, b: FrameSpec, pad: int) -> bool {
    ||| a.x + a.w + pad <= b.x
    ||| b.x + b.w + pad <= a.x
    ||| a.y + a.h + pad <= b.y
    ||| b.y + b.h + pad <= a.y
}

/// Every frame keeps `pad` pixels from each edge of a `width` by `height` atlas.
pub open spec fn frames_in_bounds(fs: Seq<FrameSpec>, width: int, height: int, pad: int) -> bool {
    forall|k: int|
        0 <= k < fs.len() ==> {
            &&& pad <= (#[trigger] fs[k]).x
            &&& fs[k].x + fs[k].w + pad <= width
            &&& pad <= fs[k].y
            &&& fs[k].y + fs[k].h + pad <= height
        }
}

/// Any two frames lie apart with `pad` pixels between them.
pub open spec fn frames_separated(fs: Seq<FrameSpec>, pad: int) -> bool {
    forall|k: int, l: int|
        0 <= k < fs.len() && 0 <= l < fs.len() && k != l ==> frames_apart(
            #[trigger] fs[k],
            #[trigger] fs[l],
            pad,
        )
}

/// The frames are in name order.
pub open spec fn frames_sorted_by_name(fs: Seq<FrameSpec>) -> bool {
    forall|k: int, l: int| 0 <= k < l < fs.len() ==> !chars_lt(#[trigger] fs[l].name, #[trigger] fs[k].name)
}

/// The frames are the sprites rearranged: one frame per sprite, with the
/// sprite's name and size.
pub open spec fn frames_cover(fs: Seq<FrameSpec>, dims: Seq<SpriteDims>) -> bool {
    exists|m: Seq<int>|
        is_index_perm(m, dims.len() as int) && forall|k: int|
            0 <= k < fs.len() ==> {
                &&& (#[trigger] fs[k]).name == dims[m[k]].name
                &&& fs[k].w == dims[m[k]].w
                &&& fs[k].h == dims[m[k]].h
            }
}

/// Every position of `order` names a sprite.
pub open spec fn indexes_into(order: Seq<int>, n: int) -> bool {
    forall|k: int| 0 <= k < order.len() ==> 0 <= #[trigger] order[k] < n
}

/// The frames are the sprites that `order` lists, rearranged: one frame per
/// entry of `order`, with that sprite's name and size.
pub open spec fn frames_cover_order(fs: Seq<FrameSpec>, dims: Seq<SpriteDims>, order: Seq<int>) -> bool {
    &&& fs.len() == order.len()
    &&& exists|m: Seq<int>|
        is_index_perm(m, order.len() as int) && forall|k: int|
            0 <= k < fs.len() ==> {
                &&& (#[trigger] fs[k]).name == dims[order[m[k]]].name
                &&& fs[k].w == dims[order[m[k]]].w
                &&& fs[k].h == dims[order[m[k]]].h
            }
}

/// Frames that cover the sprites an order lists cover all sprites when the
/// order lists each sprite once.
pub(crate) proof fn lemma_cover_by_perm(fs: Seq<FrameSpec>, dims: Seq<SpriteDims>, ord: Seq<int>)
    requires
        is_index_perm(ord, dims.len() as int),
        frames_cover_order(fs, dims, ord),
    ensures
        frames_cover(fs, dims),
{
    let n = dims.len() as int;
    let p = choose|m: Seq<int>|
        is_index_perm(m, ord.len() as int) && forall|k: int|
            0 <= k < fs.len() ==> {
                &&& (#[trigger] fs[k]).name == dims[ord[m[k]]].name
                &&& fs[k].w == dims[ord[m[k]]].w
                &&& fs[k].h == dims[ord[m[k]]].h
            };
    let m = Seq::new(ord.len(), |k: int| ord[p[k]]);
    assert forall|k: int| 0 <= k < n implies 0 <= #[trigger] m[k] < n by {
        assert(0 <= p[k] < n);
    }
    assert forall|a: int, b: int| 0 <= a < b < n implies m[a] != m[b] by {
        assert(p[a] != p[b]);
        assert(0 <= p[a] < n && 0 <= p[b] < n);
        if p[a] < p[b] {
            assert(ord[p[a]] != ord[p[b]]);
        } else {
            assert(ord[p[b]] != ord[p[a]]);
        }
    }
    assert forall|k: int| 0 <= k < fs.len() implies {
        &&& (#[trigger] fs[k]).name == dims[m[k]].name
        &&& fs[k].w == dims[m[k]].w
        &&& fs[k].h == dims[m[k]].h
    } by {
        assert(m[k] == ord[p[k]]);
    }
    assert(is_index_perm(m, n));
}

/// What holds of the packer's state after each placed sprite, in an atlas
/// narrower and lower than `u32::MAX`.
pub open spec fn shelf_inv(st: ShelfState, sizes: Seq<(u32, u32)>, width: int, height: int, pad: int) -> bool {
    &&& st.placed.len() == sizes.len()
    &&& pad <= st.x <= u32::MAX
    &&& pad <= st.y <= u32::MAX
    &&& 0 <= st.shelf_h
    &&& (st.x == pad && st.shelf_h == 0) || st.y + st.shelf_h + pad <= height
    &&& forall|k: int|
        0 <= k < sizes.len() ==> {
            &&& pad <= (#[trigger] st.placed[k]).0
            &&& st.placed[k].0 + sizes[k].0 + pad <= width
            &&& pad <= st.placed[k].1
            &&& st.placed[k].1 + sizes[k].1 + pad <= height
        }
    &&& forall|k: int|
        0 <= k < sizes.len() ==> {
            ||| (#[trigger] st.placed[k]).1 + sizes[k].1 + pad <= st.y
            ||| st.placed[k].1 == st.y && st.placed[k].0 + sizes[k].0 + pad <= st.x && sizes[k].1 <= st.shelf_h
        }
    &&& forall|k: int, l: int|
        0 <= k < sizes.len() && 0 <= l < sizes.len() && k != l ==> {
            ||| (#[trigger] st.placed[k]).0 + sizes[k].0 + pad <= (#[trigger] st.placed[l]).0
            ||| st.placed[l].0 + sizes[l].0 + pad <= st.placed[k].0
            ||| st.placed[k].1 + sizes[k].1 + pad <= st.placed[l].1
            ||| st.placed[l].1 + sizes[l].1 + pad <= st.placed[k].1
        }
}

/// Placing one more sprite keeps `shelf_inv`.
proof fn lemma_place_one_inv(
    st: ShelfState,
    sizes: Seq<(u32, u32)>,
    w: u32,
    h: u32,
    width: u32,
    height: u32,
    pad: u32,
)
    requires
        width < u32::MAX,
        height < u32::MAX,
        shelf_inv(st, sizes, width as int, height as int, pad as int),
        place_one(st, w as int, h as int, width as int, height as int, pad as int) is Some,
    ensures
        shelf_inv(
            place_one(st, w as int, h as int, width as int, height as int, pad as int).unwrap(),
            sizes.push((w, h)),
            width as int,
            height as int,
            pad as int,
        ),
{
    let st2 = place_one(st, w as int, h as int, width as int, height as int, pad as int).unwrap();
    let s2 = sizes.push((w, h));
    let n = sizes.len() as int;
    assert(st2.placed[n] == (st2.placed[n].0, st2.placed[n].1));
    assert forall|k: int| 0 <= k < n implies st2.placed[k] == st.placed[k] && s2[k] == sizes[k] by {}
    assert forall|k: int, l: int|
        0 <= k < s2.len() && 0 <= l < s2.len() && k != l implies {
            ||| (#[trigger] st2.placed[k]).0 + s2[k].0 + pad <= (#[trigger] st2.placed[l]).0
            ||| st2.placed[l].0 + s2[l].0 + pad <= st2.placed[k].0
            ||| st2.placed[k].1 + s2[k].1 + pad <= st2.placed[l].1
            ||| st2.placed[l].1 + s2[l].1 + pad <= st2.placed[k].1
        } by {
        if k < n && l < n {
            assert(st2.placed[k] == st.placed[k] && st2.placed[l] == st.placed[l]);
        } else if k < n {
            assert(st2.placed[k] == st.placed[k]);
        } else {
            assert(st2.placed[l] == st.placed[l]);
        }
    }
}

/// After any successful run of placements, `shelf_inv` holds.
proof fn lemma_shelf_run_inv(sizes: Seq<(u32, u32)>, width: u32, height: u32, pad: u32)
    requires
        width < u32::MAX,
        height < u32::MAX,
        shelf_run(sizes, width, height, pad) is Some,
    ensures
        shelf_inv(shelf_run(sizes, width, height, pad).unwrap(), sizes, width as int, height as int, pad as int),
    decreases sizes.len(),
{
    if sizes.len() > 0 {
        let prev = sizes.drop_last();
        lemma_shelf_run_inv(prev, width, height, pad);
        lemma_place_one_inv(
            shelf_run(prev, width, height, pad).unwrap(),
            prev,
            sizes.last().0,
            sizes.last().1,
            width,
            height,
            pad,
        );
        assert(prev.push(sizes.last()) =~= sizes);
    }
}

/// How the shelf packer places each sprite. After the sprites `sizes` have
/// left the packer at `st`, a `w` by `h` sprite goes right after the last one,
/// on the same shelf, when it fits there with `pad` pixels to the atlas edges.
/// Otherwise, when it fits on a new shelf that starts `pad` pixels below the
/// tallest sprite of the current one, it goes there, at `x = pad`. Packing
/// fails only when the sprite fits in neither place.
pub proof fn lemma_shelf_placement(
    sizes: Seq<(u32, u32)>,
    w: u32,
    h: u32,
    width: u32,
    height: u32,
    pad: u32,
)
    requires
        width < u32::MAX,
        height < u32::MAX,
        shelf_run(sizes, width, height, pad) is Some,
    ensures
        ({
            let st = shelf_run(sizes, width, height, pad).unwrap();
            let next = shelf_run(sizes.push((w, h)), width, height, pad);
            let fits_row = st.x + w + pad <= width && st.y + h + pad <= height;
            let new_y = st.y + st.shelf_h + pad;
            let fits_shelf = st.x > pad && w + 2 * pad <= width && new_y + h + pad <= height;
            &&& fits_row ==> next == Some(
                ShelfState {
                    x: st.x + w + pad,
                    y: st.y,
                    shelf_h: max_int(st.shelf_h, h as int),
                    placed: st.placed.push((st.x, st.y)),
                },
            )
            &&& !fits_row && fits_shelf ==> next == Some(
                ShelfState {
                    x: pad + w + pad,
                    y: new_y,
                    shelf_h: h as int,
                    placed: st.placed.push((pad as int, new_y)),
                },
            )
            &&& !fits_row && !fits_shelf ==> next is None
        }),
{
    lemma_shelf_run_inv(sizes, width, height, pad);
    assert(sizes.push((w, h)).drop_last() =~= sizes);
    assert(sizes.push((w, h)).last() == (w, h));
}

/// The first sprite goes in the top left corner, `pad` pixels from both
/// edges, when it fits there; otherwise packing fails.
pub proof fn lemma_shelf_first(w: u32, h: u32, width: u32, height: u32, pad: u32)
    requires
        width < u32::MAX,
        height < u32::MAX,
    ensures
        shelf_run(seq![(w, h)], width, height, pad) == if w + 2 * pad <= width && h + 2 * pad <= height {
            Some(
                ShelfState {
                    x: pad + w + pad,
                    y: pad as int,
                    shelf_h: h as int,
                    placed: seq![(pad as int, pad as int)],
                },
            )
        } else {
            None
        },
{
    let one = seq![(w, h)];
    assert(one.drop_last() =~= Seq::<(u32, u32)>::empty());
    assert(one.last() == (w, h));
    let st0 = ShelfState { x: pad as int, y: pad as int, shelf_h: 0, placed: seq![] };
    assert(shelf_run(one.drop_last(), width, height, pad) == Some(st0));
    assert(shelf_run(one, width, height, pad) == place_one(st0, w as int, h as int, width as int, height as int, pad as int));
    assert(Seq::<(int, int)>::empty().push((pad as int, pad as int)) =~= seq![(pad as int, pad as int)]);
}

/// Reordering the placed frames by a ranked permutation keeps them in bounds
/// and apart, puts them in name order, and leaves one frame per listed sprite.
proof fn lemma_sorted_frames_laws(
    dims: Seq<SpriteDims>,
    ord: Seq<int>,
    st: ShelfState,
    p: Seq<int>,
    width: u32,
    height: u32,
    pad: u32,
)
    requires
        indexes_into(ord, dims.len() as int),
        shelf_run(order_sizes(dims, ord), width, height, pad) == Some(st),
        is_ranked(p, zeros(ord.len()), frame_names(placed_frames(dims, ord, st.placed))),
    ensures
        ({
            let fs = Seq::new(ord.len(), |k: int| placed_frames(dims, ord, st.placed)[p[k]]);
            &&& fs.len() == ord.len()
            &&& frames_cover_order(fs, dims, ord)
            &&& frames_sorted_by_name(fs)
            &&& width < u32::MAX && height < u32::MAX ==> frames_in_bounds(fs, width as int, height as int, pad as int)
                && frames_separated(fs, pad as int)
        }),
{
    let placed = placed_frames(dims, ord, st.placed);
    let names = frame_names(placed);
    let n = ord.len() as int;
    let fs = Seq::new(ord.len(), |k: int| placed[p[k]]);
    assert forall|k: int| 0 <= k < fs.len() implies {
        &&& (#[trigger] fs[k]).name == dims[ord[p[k]]].name
        &&& fs[k].w == dims[ord[p[k]]].w
        &&& fs[k].h == dims[ord[p[k]]].h
    } by {
        assert(0 <= p[k] < n);
    }
    assert(frames_cover_order(fs, dims, ord));
    assert forall|k: int, l: int| 0 <= k < l < fs.len() implies !chars_lt(
        #[trigger] fs[l].name,
        #[trigger] fs[k].name,
    ) by {
        assert(rank_lt(zeros(ord.len()), names, p[k], p[l]));
        assert(0 <= p[k] < n && 0 <= p[l] < n);
        assert(names[p[k]] == fs[k].name && names[p[l]] == fs[l].name);
        crate::names::lemma_chars_lt_asymmetric(fs[k].name, fs[l].name);
        crate::names::lemma_chars_lt_irreflexive(fs[k].name);
    }
    if width < u32::MAX && height < u32::MAX {
        let sizes = order_sizes(dims, ord);
        lemma_shelf_run_inv(sizes, width, height, pad);
        assert forall|k: int| 0 <= k < fs.len() implies {
            &&& pad <= (#[trigger] fs[k]).x
            &&& fs[k].x + fs[k].w + pad <= width
            &&& pad <= fs[k].y
            &&& fs[k].y + fs[k].h + pad <= height
        } by {
            assert(0 <= p[k] < n);
            assert(st.placed[p[k]].0 + sizes[p[k]].0 + pad <= width);
        }
        assert forall|k: int, l: int|
            0 <= k < fs.len() && 0 <= l < fs.len() && k != l implies frames_apart(
            #[trigger] fs[k],
            #[trigger] fs[l],
            pad as int,
        ) by {
            assert(0 <= p[k] < n && 0 <= p[l] < n);
            if k < l {
                assert(p[k] != p[l]);
            } else {
                assert(p[l] != p[k]);
            }
            assert(st.placed[p[k]].0 + sizes[p[k]].0 + pad <= st.placed[p[l]].0
                || st.placed[p[l]].0 + sizes[p[l]].0 + pad <= st.placed[p[k]].0
                || st.placed[p[k]].1 + sizes[p[k]].1 + pad <= st.placed[p[l]].1
                || st.placed[p[l]].1 + sizes[p[l]].1 + pad <= st.placed[p[k]].1);
        }
    }
}

/// The positions of a sequence of frames.
pub open spec fn positions_of(fs: Seq<Frame>) -> Seq<(int, int)> {
    Seq::new(fs.len(), |k: int| (fs[k].x as int, fs[k].y as int))
}

/// Once a prefix of the sizes fails to fit, the whole sequence fails.
proof fn lemma_run_fails_onward(sizes: Seq<(u32, u32)>, i: int, width: u32, height: u32, pad: u32)
    requires
        0 <= i <= sizes.len(),
        shelf_run(sizes.take(i), width, height, pad) is None,
    ensures
        shelf_run(sizes, width, height, pad) is None,
    decreases sizes.len() - i,
{
    if i < sizes.len() {
        assert(sizes.take(i + 1).drop_last() =~= sizes.take(i));
        lemma_run_fails_onward(sizes, i + 1, width, height, pad);
    } else {
        assert(sizes.take(i) =~= sizes);
    }
}

/// Shelf packing of the sprites taken in `order` into a `width` by `height`
/// atlas with `padding` pixels around and between sprites; the frames come
/// back sorted by name (stable), or `None` when a sprite does not fit.
pub(crate) fn try_pack(
    sprites: &[Sprite],
    order: &Vec<usize>,
    width: u32,
    height: u32,
    padding: u32,
) -> (r: Option<Vec<Frame>>)
    requires
        forall|k: int| 0 <= k < order@.len() ==> #[trigger] order@[k] < sprites@.len(),
    ensures
        match shelf_frames(dims_of(sprites@), as_ints(order@), width, height, padding) {
            None => r is None,
            Some(fs) => r matches Some(v) && frame_specs(v@) == fs,
        },
        r matches Some(v) ==> {
            &&& v@.len() == order@.len()
            &&& frames_cover_order(frame_specs(v@), dims_of(sprites@), as_ints(order@))
            &&& frames_sorted_by_name(frame_specs(v@))
            &&& width < u32::MAX && height < u32::MAX ==> frames_in_bounds(
                frame_specs(v@),
                width as int,
                height as int,
                padding as int,
            ) && frames_separated(frame_specs(v@), padding as int)
        },
{
    let ghost dims = dims_of(sprites@);
    let ghost ord = as_ints(order@);
    let ghost sizes = order_sizes(dims, ord);
    let mut frames: Vec<Frame> = Vec::new();
    let mut x: u32 = padding;
    let mut y: u32 = padding;
    let mut shelf_h: u32 = 0;
    let n = order.len();
    let mut i: usize = 0;
    assert(sizes.take(0) =~= Seq::<(u32, u32)>::empty());
    assert(positions_of(frames@) =~= Seq::<(int, int)>::empty());
    assert(indexes_into(ord, sprites@.len() as int)) by {
        assert forall|k: int| 0 <= k < ord.len() implies 0 <= #[trigger] ord[k] < sprites@.len() by {
            assert(order@[k] < sprites@.len());
        }
    }
    while i < n
        invariant
            n == order@.len(),
            dims == dims_of(sprites@),
            ord == as_ints(order@),
            sizes == order_sizes(dims, ord),
            indexes_into(ord, dims.len() as int),
            dims.len() == sprites@.len(),
            i <= n,
            frames@.len() == i,
            shelf_run(sizes.take(i as int), width, height, padding) == Some(
                ShelfState {
                    x: x as int,
                    y: y as int,
                    shelf_h: shelf_h as int,
                    placed: positions_of(frames@),
                },
            ),
            forall|k: int|
                0 <= k < i ==> {
                    &&& (#[trigger] frames@[k]).name@ == dims[ord[k]].name
                    &&& frames@[k].w == dims[ord[k]].w
                    &&& frames@[k].h == dims[ord[k]].h
                },
        decreases n - i,
    {
        let idx = order[i];
        assert(0 <= ord[i as int] < dims.len());
        let s = &sprites[idx];
        let w = s.width();
        let h = s.height();
        let step_x = w.saturating_add(padding);
        let ghost st = ShelfState {
            x: x as int,
            y: y as int,
            shelf_h: shelf_h as int,
            placed: positions_of(frames@),
        };
        assert(sizes.take(i + 1).drop_last() =~= sizes.take(i as int));
        assert(sizes.take(i + 1).last() == (w, h));
        if w > width.saturating_sub(padding) || h > height.saturating_sub(padding) {
            proof {
                lemma_run_fails_onward(sizes, i + 1, width, height, padding);
            }
            return None;
        }
        if x > padding && x.saturating_add(w) > width.saturating_sub(padding) {
            x = padding;
            y = y.saturating_add(shelf_h).saturating_add(padding);
            shelf_h = 0;
        }
        if y.saturating_add(h) > height.saturating_sub(padding) {
            proof {
                lemma_run_fails_onward(sizes, i + 1, width, height, padding);
            }
            return None;
        }
        if x.saturating_add(w) > width.saturating_sub(padding) {
            proof {
                lemma_run_fails_onward(sizes, i + 1, width, height, padding);
            }
            return None;
        }
        frames.push(Frame { name: s.name.clone(), x, y, w, h });
        x = x.saturating_add(step_x);
        shelf_h = if shelf_h >= h { shelf_h } else { h };
        i = i + 1;
        proof {
            assert(positions_of(frames@) =~= st.placed.push((frames@[i - 1].x as int, frames@[i - 1].y as int)));
        }
    }
    assert(sizes.take(n as int) =~= sizes);
    let ghost placed = placed_frames(dims, ord, positions_of(frames@));
    assert(frame_specs(frames@) =~= placed);

    let mut names: Vec<String> = Vec::new();
    let mut zero: Vec<u32> = Vec::new();
    for k in 0..n
        invariant
            n == frames@.len(),
            names@.len() == k,
            zero@.len() == k,
            forall|j: int| 0 <= j < k ==> (#[trigger] names@[j])@ == frames@[j].name@,
            forall|j: int| 0 <= j < k ==> #[trigger] zero@[j] == 0,
    {
        names.push(frames[k].name.clone());
        zero.push(0);
    }
    assert(zero@ =~= zeros(n as nat));
    assert(names_of(names@) =~= frame_names(placed));
    let perm = ranked_indices(&zero, &names);
    let ghost p = as_ints(perm@);
    let mut sorted: Vec<Frame> = Vec::new();
    for k in 0..n
        invariant
            n == frames@.len(),
            n == perm@.len(),
            p == as_ints(perm@),
            p == ranked_order(zeros(n as nat), frame_names(placed)),
            is_index_perm(p, n as int),
            frame_specs(frames@) == placed,
            sorted@.len() == k,
            forall|j: int| 0 <= j < k ==> crate::pack::frame_spec(#[trigger] sorted@[j]) == placed[p[j]],
    {
        assert(0 <= p[k as int] < n);
        let f = &frames[perm[k]];
        sorted.push(Frame { name: f.name.clone(), x: f.x, y: f.y, w: f.w, h: f.h });
        proof {
            assert(crate::pack::frame_spec(sorted@[k as int]) == frame_specs(frames@)[p[k as int]]);
        }
    }
    assert(frame_specs(sorted@) =~= by_name(placed));
    proof {
        let st = shelf_run(sizes, width, height, padding).unwrap();
        assert(st.placed == positions_of(frames@));
        lemma_sorted_frames_laws(dims, ord, st, p, width, height, padding);
        assert(frame_specs(sorted@) =~= Seq::new(ord.len(), |k: int| placed_frames(dims, ord, st.placed)[p[k]]));
    }
    Some(sorted)
}

} // verus!
