//! Packing does not depend on the order in which sprites with distinct names
//! are given.

use vstd::prelude::*;
use crate::blit::{blit_pixel, covering_frame, last_named, lemma_last_named_found};
use crate::error::Error;
use crate::order::{is_index_perm, is_ranked, lemma_perm_contains_all, lemma_ranked_order_ranked, lemma_ranked_unique};
use crate::pack::{
    FrameSpec, PackConfig, PackedAtlas, Sprite, SpriteDims, SearchOutcome, area_keys, dims_names, dims_of,
    frame_specs, lemma_same_pixels_same_bytes, pack_contract, pack_order, pack_search, search_from,
};
use crate::raster::{pixel_of, raster_data, raster_height, raster_width};
use crate::shelf::{frames_cover, order_sizes, placed_frames, shelf_frames, shelf_run};
use crate::sizing::{all_fit, area_sum, max_int, min_side, need, spec_next_size};

verus! {

/// `s2` holds the elements of `s` in the order `p`: `s2[k] == s[p[k]]`.
pub open spec fn is_reordering<T>(s2: Seq<T>, s: Seq<T>, p: Seq<int>) -> bool {
    &&& is_index_perm(p, s.len() as int)
    &&& s2.len() == s.len()
    &&& forall|k: int| 0 <= k < s2.len() ==> #[trigger] s2[k] == s[p[k]]
}

/// No two sprites share a name.
pub open spec fn names_distinct(s: Seq<Sprite>) -> bool {
    forall|i: int, j: int| 0 <= i < j < s.len() ==> s[i].name@ != s[j].name@
}

/// Two packing results are the same: the same atlas (size, image name,
/// padding, frames and pixels), or errors of the same kind (`SpriteTooLarge`
/// names the first oversized sprite of each input, which may differ).
pub open spec fn same_outcome(r1: Result<PackedAtlas, Error>, r2: Result<PackedAtlas, Error>) -> bool {
    match (r1, r2) {
        (Ok(a), Ok(b)) => {
            &&& a.json.atlas.width == b.json.atlas.width
            &&& a.json.atlas.height == b.json.atlas.height
            &&& a.json.atlas.image@ == b.json.atlas.image@
            &&& a.json.atlas.padding == b.json.atlas.padding
            &&& frame_specs(a.json.frames@) == frame_specs(b.json.frames@)
            &&& raster_width(a.image) == raster_width(b.image)
            &&& raster_height(a.image) == raster_height(b.image)
            &&& raster_data(a.image) == raster_data(b.image)
        },
        (Err(Error::NoSprites(x)), Err(Error::NoSprites(y))) => x@ == y@,
        (Err(Error::SpriteTooLarge { .. }), Err(Error::SpriteTooLarge { .. })) => true,
        (
            Err(Error::PackFailed { width: w1, height: h1 }),
            Err(Error::PackFailed { width: w2, height: h2 }),
        ) => w1 == w2 && h1 == h2,
        _ => false,
    }
}

/// The inverse of a permutation of `0..n`.
proof fn lemma_inverse(p: Seq<int>, n: int) -> (q: Seq<int>)
    requires
        is_index_perm(p, n),
    ensures
        is_index_perm(q, n),
        forall|i: int| 0 <= i < n ==> p[#[trigger] q[i]] == i,
        forall|k: int| 0 <= k < n ==> q[#[trigger] p[k]] == k,
{
    assert forall|i: int| 0 <= i < n implies p.contains(i) by {
        lemma_perm_contains_all(p, n, i);
    }
    let q = Seq::new(n as nat, |i: int| choose|k: int| 0 <= k < n && p[k] == i);
    assert forall|i: int| 0 <= i < n implies 0 <= #[trigger] q[i] < n && p[q[i]] == i by {
        assert(p.contains(i));
    }
    assert forall|a: int, b: int| 0 <= a < b < n implies q[a] != q[b] by {
        assert(p[q[a]] == a && p[q[b]] == b);
    }
    assert forall|k: int| 0 <= k < n implies q[#[trigger] p[k]] == k by {
        let i = p[k];
        assert(0 <= i < n);
        let k2 = q[i];
        assert(p[k2] == i);
        if k2 < k {
            assert(p[k2] != p[k]);
        } else if k < k2 {
            assert(p[k] != p[k2]);
        }
    }
    q
}

/// Taking one sprite out of the sums: the total area loses its area, and the
/// largest needed edge is the larger of the rest's and its own.
proof fn lemma_sums_remove(d: Seq<SpriteDims>, pad: u32, j: int)
    requires
        0 <= j < d.len(),
    ensures
        area_sum(d, pad) == area_sum(d.remove(j), pad) + need(d[j].w, pad) * need(d[j].h, pad),
        min_side(d, pad) == max_int(
            max_int(min_side(d.remove(j), pad), need(d[j].w, pad)),
            need(d[j].h, pad),
        ),
    decreases d.len(),
{
    if j == d.len() - 1 {
        assert(d.remove(j) =~= d.drop_last());
    } else {
        lemma_sums_remove(d.drop_last(), pad, j);
        assert(d.drop_last().remove(j) =~= d.remove(j).drop_last());
        assert(d.remove(j).last() == d.last());
        assert(d.drop_last()[j] == d[j]);
    }
}

/// The total area and the largest needed edge do not depend on the order.
proof fn lemma_sums_reorder(d2: Seq<SpriteDims>, d: Seq<SpriteDims>, p: Seq<int>, pad: u32)
    requires
        is_reordering(d2, d, p),
    ensures
        area_sum(d2, pad) == area_sum(d, pad),
        min_side(d2, pad) == min_side(d, pad),
    decreases d.len(),
{
    if d.len() > 0 {
        let n = d.len() - 1;
        let j = p[n];
        assert(0 <= j <= n);
        lemma_sums_remove(d, pad, j);
        let p2 = Seq::new(n as nat, |k: int| if p[k] < j { p[k] } else { p[k] - 1 });
        assert forall|k: int| 0 <= k < n implies 0 <= #[trigger] p2[k] < n by {
            assert(p[k] != p[n]);
            assert(0 <= p[k] <= n);
        }
        assert forall|a: int, b: int| 0 <= a < b < n implies p2[a] != p2[b] by {
            assert(p[a] != p[b]);
            assert(p[a] != p[n] && p[b] != p[n]);
        }
        let dr = d.remove(j);
        let d2r = d2.drop_last();
        assert forall|k: int| 0 <= k < d2r.len() implies #[trigger] d2r[k] == dr[p2[k]] by {
            assert(p[k] != p[n]);
            assert(d2r[k] == d2[k]);
        }
        lemma_sums_reorder(d2r, dr, p2, pad);
        assert(d2.last() == d[j]);
    }
}

/// With distinct names, the placement order of the reordered sprites lists
/// the same sprites as before.
proof fn lemma_pack_order_reorder(d2: Seq<SpriteDims>, d: Seq<SpriteDims>, p: Seq<int>)
    requires
        is_reordering(d2, d, p),
        forall|i: int, j: int| 0 <= i < j < d.len() ==> d[i].name != d[j].name,
    ensures
        pack_order(d2).len() == d.len(),
        pack_order(d).len() == d.len(),
        forall|k: int| 0 <= k < d.len() ==> d2[#[trigger] pack_order(d2)[k]] == d[pack_order(d)[k]],
{
    let n = d.len() as int;
    let q = lemma_inverse(p, n);
    let keys = area_keys(d);
    let names = dims_names(d);
    let keys2 = area_keys(d2);
    let names2 = dims_names(d2);
    let o = pack_order(d);
    lemma_ranked_order_ranked(keys, names);
    let o2 = Seq::new(n as nat, |k: int| q[o[k]]);
    assert forall|i: int| 0 <= i < n implies d2[#[trigger] q[i]] == d[i] && keys2[q[i]] == keys[i]
        && names2[q[i]] == names[i] by {
        assert(d2[q[i]] == d[p[q[i]]]);
    }
    assert forall|k: int| 0 <= k < n implies 0 <= #[trigger] o2[k] < n by {
        assert(0 <= o[k] < n);
    }
    assert forall|a: int, b: int| 0 <= a < b < n implies o2[a] != o2[b] by {
        assert(o[a] != o[b]);
        assert(0 <= o[a] < n && 0 <= o[b] < n);
        assert(p[q[o[a]]] == o[a] && p[q[o[b]]] == o[b]);
    }
    assert forall|a: int, b: int| 0 <= a < b < o2.len() implies crate::order::rank_lt(
        keys2,
        names2,
        #[trigger] o2[a],
        #[trigger] o2[b],
    ) by {
        let i = o[a];
        let j = o[b];
        assert(crate::order::rank_lt(keys, names, i, j));
        assert(i != j);
        assert(0 <= i < n && 0 <= j < n);
        if i < j {
            assert(names[i] != names[j]);
        } else {
            assert(names[j] != names[i]);
        }
    }
    assert(is_ranked(o2, keys2, names2));
    lemma_ranked_unique(o2, keys2, names2);
}

/// The size search only sees the sizes in placement order.
proof fn lemma_search_same(
    d2: Seq<SpriteDims>,
    o2: Seq<int>,
    d: Seq<SpriteDims>,
    o: Seq<int>,
    size: u32,
    pad: u32,
    power_of_two: bool,
    max: u32,
)
    requires
        order_sizes(d2, o2) == order_sizes(d, o),
    ensures
        search_from(d2, o2, size, pad, power_of_two, max) == search_from(d, o, size, pad, power_of_two, max),
    decreases u32::MAX - size,
{
    if size <= max && shelf_run(order_sizes(d, o), size, size, pad) is None && size < u32::MAX {
        lemma_search_same(
            d2,
            o2,
            d,
            o,
            spec_next_size(size, power_of_two, max) as u32,
            pad,
            power_of_two,
            max,
        );
    }
}

/// With distinct names, each frame draws the same sprite whatever the order.
proof fn lemma_blit_reorder(
    s2: Seq<Sprite>,
    s: Seq<Sprite>,
    p: Seq<int>,
    fs: Seq<FrameSpec>,
    x: int,
    y: int,
)
    requires
        is_reordering(s2, s, p),
        names_distinct(s),
        fs.len() == s.len(),
        frames_cover(fs, dims_of(s)),
    ensures
        blit_pixel(s2, fs, x, y) == blit_pixel(s, fs, x, y),
{
    let k = covering_frame(fs, x, y);
    if k >= 0 {
        crate::blit::lemma_covering_frame_range(fs, x, y);
        let n = s.len() as int;
        let m = choose|m: Seq<int>|
            is_index_perm(m, dims_of(s).len() as int) && forall|k: int|
                0 <= k < fs.len() ==> {
                    &&& (#[trigger] fs[k]).name == dims_of(s)[m[k]].name
                    &&& fs[k].w == dims_of(s)[m[k]].w
                    &&& fs[k].h == dims_of(s)[m[k]].h
                };
        assert(fs[k].name == dims_of(s)[m[k]].name);
        let i = m[k];
        assert(0 <= i < n);
        let name = s[i].name@;
        lemma_last_named_found(s, i);
        let j = last_named(s, name);
        if j < i {
            assert(s[j].name@ != s[i].name@);
        } else if i < j {
            assert(s[i].name@ != s[j].name@);
        }
        let q = lemma_inverse(p, n);
        let i2 = q[i];
        assert(s2[i2] == s[p[i2]]);
        assert(s2[i2] == s[i]);
        lemma_last_named_found(s2, i2);
        let j2 = last_named(s2, name);
        assert(0 <= j2 < n);
        assert(s2[j2] == s[p[j2]]);
        if p[j2] != i {
            if p[j2] < i {
                assert(s[p[j2]].name@ != s[i].name@);
            } else {
                assert(s[i].name@ != s[p[j2]].name@);
            }
        }
    }
}

/// Order does not matter: packing a reordering of sprites whose names are all
/// different, with the same config, gives the same atlas and sheet, or an
/// error of the same kind.
pub proof fn lemma_pack_reorder(
    sprites: Seq<Sprite>,
    sprites2: Seq<Sprite>,
    p: Seq<int>,
    config: PackConfig,
    r1: Result<PackedAtlas, Error>,
    r2: Result<PackedAtlas, Error>,
)
    requires
        names_distinct(sprites),
        is_reordering(sprites2, sprites, p),
        pack_contract(sprites, config, r1),
        pack_contract(sprites2, config, r2),
    ensures
        same_outcome(r1, r2),
{
    let d = dims_of(sprites);
    let d2 = dims_of(sprites2);
    let n = sprites.len() as int;
    let pad = config.padding;
    let max = config.max_size;
    assert forall|k: int| 0 <= k < d2.len() implies #[trigger] d2[k] == d[p[k]] by {
        assert(sprites2[k] == sprites[p[k]]);
    }
    assert(is_reordering(d2, d, p));
    let q = lemma_inverse(p, n);
    assert(all_fit(d2, max) == all_fit(d, max)) by {
        if all_fit(d, max) {
            assert forall|k: int| 0 <= k < d2.len() implies crate::sizing::fits_max(#[trigger] d2[k],
                max,
            ) by {
                assert(0 <= p[k] < n);
            }
        }
        if all_fit(d2, max) {
            assert forall|i: int| 0 <= i < d.len() implies crate::sizing::fits_max(#[trigger] d[i],
                max,
            ) by {
                assert(d2[q[i]] == d[p[q[i]]]);
            }
        }
    }
    if n > 0 && all_fit(d, max) {
        lemma_sums_reorder(d2, d, p, pad);
        lemma_pack_order_reorder(d2, d, p);
        let o = pack_order(d);
        let o2 = pack_order(d2);
        assert forall|k: int| 0 <= k < n implies order_sizes(d2, o2)[k] == order_sizes(d, o)[k] by {
            assert(d2[o2[k]] == d[o[k]]);
        }
        assert(order_sizes(d2, o2) =~= order_sizes(d, o));
        let start = crate::sizing::initial_size_of(d, pad, config.power_of_two, max);
        assert(start == crate::sizing::initial_size_of(d2, pad, config.power_of_two, max));
        let cap = crate::sizing::edge_cap(config.power_of_two, max) as u32;
        lemma_search_same(d2, o2, d, o, start as u32, pad, config.power_of_two, cap);
        assert(pack_search(d2, config) == pack_search(d, config));
        if let SearchOutcome::Packed(e) = pack_search(d, config) {
            assert(r1 is Ok);
            assert(r2 is Ok);
            let a = r1->Ok_0;
            let b = r2->Ok_0;
            assert forall|pl: Seq<(int, int)>| placed_frames(d2, o2, pl) == placed_frames(d, o, pl) by {
                assert(placed_frames(d2, o2, pl) =~= placed_frames(d, o, pl));
            }
            assert(shelf_frames(d2, o2, e, e, pad) == shelf_frames(d, o, e, e, pad));
            let fs = frame_specs(a.json.frames@);
            assert(frame_specs(b.json.frames@) == fs);
            let w = e as int;
            assert forall|x: int, y: int| 0 <= x < w && 0 <= y < w implies #[trigger] pixel_of(
                raster_data(a.image),
                w,
                x,
                y,
            ) == pixel_of(raster_data(b.image), w, x, y) by {
                lemma_blit_reorder(sprites2, sprites, p, fs, x, y);
                assert(pixel_of(raster_data(a.image), w, x, y) == blit_pixel(sprites, fs, x, y));
                assert(pixel_of(raster_data(b.image), w, x, y) == blit_pixel(sprites2, fs, x, y));
            }
            lemma_same_pixels_same_bytes(raster_data(a.image), raster_data(b.image), w, w);
        }
    }
}

} // verus!
