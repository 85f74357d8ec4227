//! The atlas packer: sprites in, one atlas image and a frame sheet out.

use vstd::prelude::*;
use crate::blit::{atlas_shows_frames, blit, blit_pixel, holds_pixels, last_named, lemma_frame_pixels};
use crate::error::Error;
use crate::names::chars_lt;
use crate::order::{
    as_ints, is_index_perm, is_ranked, lemma_ranked_order_ranked, lemma_ranked_unique, names_of, rank_lt,
    ranked_indices, ranked_order,
};
use crate::raster::{Raster, buffer_len, pixel_of, raster_data, raster_height, raster_width};
use crate::shelf::{
    frames_cover, frames_in_bounds, frames_separated, frames_sorted_by_name, order_sizes,
    shelf_frames, shelf_run, try_pack,
};
use crate::sizing::{
    all_fit, edge_cap, first_too_large, initial_size, initial_size_of, is_pow2, largest_pow2_within,
    lemma_pow2_double_within, next_size, sizing_defined, spec_next_size,
};

verus! {

/// One input sprite after load.
#[derive(Clone)]
pub struct Sprite {
    /// Stable name (relative path without `.png`).
    pub name: String,
    /// Pixel data.
    pub image: Raster,
}

/// What the packer reads of a sprite: its name and its size.
pub struct SpriteDims {
    pub name: Seq<char>,
    pub w: u32,
    pub h: u32,
}

/// The name and size of a sprite.
pub open spec fn sprite_dims(s: Sprite) -> SpriteDims {
    SpriteDims { name: s.name@, w: raster_width(s.image), h: raster_height(s.image) }
}

/// The names and sizes of a sequence of sprites.
pub open spec fn dims_of(sprites: Seq<Sprite>) -> Seq<SpriteDims> {
    Seq::new(sprites.len(), |i: int| sprite_dims(sprites[i]))
}

impl Sprite {
    /// Width in pixels.
    pub fn width(&self) -> (r: u32)
        ensures
            r == raster_width(self.image),
    {
        self.image.width()
    }

    /// Height in pixels.
    pub fn height(&self) -> (r: u32)
        ensures
            r == raster_height(self.image),
    {
        self.image.height()
    }
}

/// Where a sprite landed in the atlas.
#[derive(Debug, Clone, PartialEq, Eq)]
pub struct Frame {
    /// Sprite name (matches [`Sprite::name`]).
    pub name: String,
    /// Left edge in the atlas (pixels).
    pub x: u32,
    /// Top edge in the atlas (pixels).
    pub y: u32,
    /// Width in pixels.
    pub w: u32,
    /// Height in pixels.
    pub h: u32,
}

/// A frame as a mathematical value.
pub struct FrameSpec {
    pub name: Seq<char>,
    pub x: int,
    pub y: int,
    pub w: int,
    pub h: int,
}

/// The value of a frame.
pub open spec fn frame_spec(f: Frame) -> FrameSpec {
    FrameSpec { name: f.name@, x: f.x as int, y: f.y as int, w: f.w as int, h: f.h as int }
}

/// The values of a sequence of frames.
pub open spec fn frame_specs(fs: Seq<Frame>) -> Seq<FrameSpec> {
    Seq::new(fs.len(), |i: int| frame_spec(fs[i]))
}

/// Packer options.
#[derive(Debug, Clone)]
pub struct PackConfig {
    /// Pixels of empty space between sprites.
    pub padding: u32,
    /// Max atlas width/height. Packer grows in power-of-two steps up to this.
    pub max_size: u32,
    /// Force power-of-two atlas dimensions.
    pub power_of_two: bool,
    /// File name stored in JSON `atlas.image` (not a path).
    pub image_name: String,
}

impl Default for PackConfig {
    /// Padding 2, edges up to 4096, power-of-two sizes, image `atlas.png`.
    fn default() -> (r: Self)
        ensures
            r.padding == 2,
            r.max_size == 4096,
            r.power_of_two,
            r.image_name@ == "atlas.png"@,
    {
        let name = String::from_str("atlas.png");
        PackConfig { padding: 2, max_size: 4096, power_of_two: true, image_name: name }
    }
}

/// JSON sidecar written next to the atlas PNG.
#[derive(Debug, Clone, PartialEq, Eq)]
pub struct AtlasJson {
    /// Atlas-level metadata.
    pub atlas: AtlasMeta,
    /// Per-sprite rectangles, sorted by name.
    pub frames: Vec<Frame>,
}

/// Metadata about the packed atlas image.
#[derive(Debug, Clone, PartialEq, Eq)]
pub struct AtlasMeta {
    /// File name of the atlas image (not a full path).
    pub image: String,
    /// Atlas width in pixels.
    pub width: u32,
    /// Atlas height in pixels.
    pub height: u32,
    /// Padding used between sprites.
    pub padding: u32,
}

/// Result of packing: image pixels plus JSON metadata.
pub struct PackedAtlas {
    /// Combined atlas image (RGBA).
    pub image: Raster,
    /// Frame sheet for loaders.
    pub json: AtlasJson,
}

/// The sort key of each sprite: its area.
pub open spec fn area_keys(dims: Seq<SpriteDims>) -> Seq<u32> {
    Seq::new(dims.len(), |i: int| (dims[i].w * dims[i].h) as u32)
}

/// The names of the sprites.
pub open spec fn dims_names(dims: Seq<SpriteDims>) -> Seq<Seq<char>> {
    Seq::new(dims.len(), |i: int| dims[i].name)
}

/// The order in which sprites are placed: largest area first, then by name,
/// then as given.
pub open spec fn pack_order(dims: Seq<SpriteDims>) -> Seq<int> {
    ranked_order(area_keys(dims), dims_names(dims))
}

/// Sprites are placed largest area (width times height) first, then by
/// name, then in the order given; each sprite is placed once.
pub proof fn lemma_pack_order_by_area(dims: Seq<SpriteDims>)
    requires
        dims.len() >= 2 ==> forall|i: int|
            0 <= i < dims.len() ==> (#[trigger] dims[i]).w * dims[i].h <= u32::MAX,
    ensures
        is_index_perm(pack_order(dims), dims.len() as int),
        forall|a: int, b: int|
            #![trigger pack_order(dims)[a], pack_order(dims)[b]]
            0 <= a < b < dims.len() ==> {
                let i = pack_order(dims)[a];
                let j = pack_order(dims)[b];
                ||| dims[i].w * dims[i].h > dims[j].w * dims[j].h
                ||| dims[i].w * dims[i].h == dims[j].w * dims[j].h && chars_lt(dims[i].name, dims[j].name)
                ||| dims[i].w * dims[i].h == dims[j].w * dims[j].h && dims[i].name == dims[j].name && i < j
            },
{
    let keys = area_keys(dims);
    let names = dims_names(dims);
    let o = pack_order(dims);
    let n = dims.len() as int;
    lemma_ranked_order_ranked(keys, names);
    assert forall|a: int, b: int|
        #![trigger o[a], o[b]]
        0 <= a < b < n implies {
            let i = o[a];
            let j = o[b];
            ||| dims[i].w * dims[i].h > dims[j].w * dims[j].h
            ||| dims[i].w * dims[i].h == dims[j].w * dims[j].h && chars_lt(dims[i].name, dims[j].name)
            ||| dims[i].w * dims[i].h == dims[j].w * dims[j].h && dims[i].name == dims[j].name && i < j
        } by {
        let i = o[a];
        let j = o[b];
        assert(rank_lt(keys, names, i, j));
        assert(0 <= i < n && 0 <= j < n);
        assert(keys[i] == dims[i].w * dims[i].h);
        assert(keys[j] == dims[j].w * dims[j].h);
    }
}

/// How the search for an atlas size ends.
pub enum SearchOutcome {
    /// The sprites fit in a square atlas of this edge.
    Packed(u32),
    /// No edge up to the maximum fits.
    Exhausted,
    /// The edge would grow past `u32::MAX`.
    Overflow,
}

/// The search for an atlas edge, starting at `size`: the first edge, in the
/// sequence that `spec_next_size` grows, at which shelf packing succeeds.
pub open spec fn search_from(
    dims: Seq<SpriteDims>,
    order: Seq<int>,
    size: u32,
    pad: u32,
    power_of_two: bool,
    max: u32,
) -> SearchOutcome
    decreases u32::MAX - size,
{
    if size > max {
        SearchOutcome::Exhausted
    } else if shelf_run(order_sizes(dims, order), size, size, pad) is Some {
        SearchOutcome::Packed(size)
    } else if size == u32::MAX {
        SearchOutcome::Overflow
    } else {
        search_from(dims, order, spec_next_size(size, power_of_two, max) as u32, pad, power_of_two, max)
    }
}

/// The search for an atlas edge that packing the sprites with `config` runs.
/// It tries edges up to `edge_cap`; in power-of-two mode with `max_size` 0 no
/// power of two is allowed, so it tries none.
pub open spec fn pack_search(dims: Seq<SpriteDims>, config: PackConfig) -> SearchOutcome {
    if config.power_of_two && config.max_size == 0 {
        SearchOutcome::Exhausted
    } else {
        search_from(
            dims,
            pack_order(dims),
            initial_size_of(dims, config.padding, config.power_of_two, config.max_size) as u32,
            config.padding,
            config.power_of_two,
            edge_cap(config.power_of_two, config.max_size) as u32,
        )
    }
}

/// Every sprite with pixels is no larger than the last sprite that has its
/// name (whose pixels the atlas shows for that name).
pub open spec fn names_drawable(sprites: Seq<Sprite>) -> bool {
    forall|i: int|
        0 <= i < sprites.len() ==> fits_last_named(sprites, i)
}

/// Sprite `i` has no pixels, or it is no larger than the last sprite with its
/// name.
pub open spec fn fits_last_named(sprites: Seq<Sprite>, i: int) -> bool {
    let j = last_named(sprites, sprites[i].name@);
    let w = raster_width(sprites[i].image);
    let h = raster_height(sprites[i].image);
    w > 0 && h > 0 ==> w <= raster_width(sprites[j].image) && h <= raster_height(sprites[j].image)
}

/// The inputs on which choosing the layout runs without an overflow: sprite
/// areas fit in `u32` when sorting compares them, the first edge can be
/// computed, and the search does not grow the edge past `u32::MAX`.
pub open spec fn plan_defined(sprites: Seq<Sprite>, config: PackConfig) -> bool {
    let dims = dims_of(sprites);
    &&& sprites.len() >= 2 ==> forall|i: int|
        0 <= i < sprites.len() ==> (#[trigger] dims[i]).w * dims[i].h <= u32::MAX
    &&& sprites.len() > 0 ==> sizing_defined(dims, config.padding, config.power_of_two, config.max_size)
    &&& sprites.len() > 0 && all_fit(dims, config.max_size) ==> !(pack_search(
        dims,
        config,
    ) is Overflow)
}

/// The inputs on which drawing the atlas runs without a panic: the atlas
/// buffer can be allocated, and each sprite fits the sprite whose pixels are
/// drawn for its name.
pub open spec fn draw_defined(sprites: Seq<Sprite>, config: PackConfig) -> bool {
    let dims = dims_of(sprites);
    sprites.len() > 0 && all_fit(dims, config.max_size) ==> (pack_search(
        dims,
        config,
    ) matches SearchOutcome::Packed(s) ==> buffer_len(s as int, s as int) <= isize::MAX as int
        && names_drawable(sprites))
}

/// The inputs on which packing runs without a panic.
pub open spec fn pack_defined(sprites: Seq<Sprite>, config: PackConfig) -> bool {
    plan_defined(sprites, config) && draw_defined(sprites, config)
}

/// What packing `sprites` with `config` returns. `NoSprites("<memory>")` for
/// no sprites; `SpriteTooLarge` for the first sprite wider or taller than
/// `max_size`; `PackFailed` when no edge the search tries fits; otherwise the
/// atlas that `packs_into` describes. Its frames are the sprites rearranged,
/// sorted by name, inside the atlas with `padding` pixels of margin and apart
/// by `padding` pixels; its edge is at most `max_size`, and in power-of-two
/// mode a power of two; each frame shows its sprite.
pub open spec fn pack_contract(sprites: Seq<Sprite>, config: PackConfig, r: Result<PackedAtlas, Error>) -> bool {
    let dims = dims_of(sprites);
    &&& (sprites.len() == 0) == (r matches Err(Error::NoSprites(_)))
    &&& r matches Err(Error::NoSprites(p)) ==> p@ == "<memory>"@
    &&& (sprites.len() > 0 && !all_fit(dims, config.max_size)) == (r matches Err(
        Error::SpriteTooLarge { .. },
    ))
    &&& r matches Err(Error::SpriteTooLarge { name, sw, sh, aw, ah }) ==> {
        let d = dims[first_too_large(dims, config.max_size)];
        name@ == d.name && sw == d.w && sh == d.h && aw == config.max_size && ah == config.max_size
    }
    &&& (sprites.len() > 0 && all_fit(dims, config.max_size) && pack_search(dims, config)
        is Exhausted) == (r matches Err(Error::PackFailed { .. }))
    &&& r matches Err(Error::PackFailed { width, height }) ==> width == config.max_size && height
        == config.max_size
    &&& r matches Ok(p) ==> packs_into(sprites, config, p)
    &&& r matches Ok(p) ==> {
        let edge = p.json.atlas.width;
        let fs = frame_specs(p.json.frames@);
        &&& fs.len() == sprites.len()
        &&& frames_cover(fs, dims)
        &&& frames_sorted_by_name(fs)
        &&& frames_in_bounds(fs, edge as int, edge as int, config.padding as int)
        &&& frames_separated(fs, config.padding as int)
        &&& edge <= config.max_size
        &&& config.power_of_two ==> is_pow2(edge as int)
    }
    &&& r matches Ok(p) ==> atlas_shows_frames(
        sprites,
        frame_specs(p.json.frames@),
        raster_data(p.image),
        p.json.atlas.width as int,
    )
}

/// `p` is what packing `sprites` with `config` gives: the edge that the search
/// finds, the shelf-packed frames at that edge, the configured image name and
/// padding, and an atlas of that edge whose pixels are the drawn frames.
pub open spec fn packs_into(sprites: Seq<Sprite>, config: PackConfig, p: PackedAtlas) -> bool {
    let dims = dims_of(sprites);
    let edge = p.json.atlas.width;
    let fs = frame_specs(p.json.frames@);
    &&& pack_search(dims, config) == SearchOutcome::Packed(edge)
    &&& p.json.atlas.height == edge
    &&& p.json.atlas.image@ == config.image_name@
    &&& p.json.atlas.padding == config.padding
    &&& shelf_frames(dims, pack_order(dims), edge, edge, config.padding) == Some(fs)
    &&& raster_width(p.image) == edge
    &&& raster_height(p.image) == edge
    &&& holds_pixels(raster_data(p.image), edge as int, edge as int, |x: int, y: int| blit_pixel(sprites, fs, x, y))
}

/// Two buffers of the same size with the same pixels are equal.
pub(crate) proof fn lemma_same_pixels_same_bytes(a: Seq<u8>, b: Seq<u8>, w: int, h: int)
    requires
        0 <= w,
        0 <= h,
        a.len() == buffer_len(w, h),
        b.len() == buffer_len(w, h),
        forall|x: int, y: int| 0 <= x < w && 0 <= y < h ==> #[trigger] pixel_of(a, w, x, y) == pixel_of(b, w, x, y),
    ensures
        a == b,
{
    assert forall|i: int| 0 <= i < a.len() implies a[i] == b[i] by {
        let q = i / 4;
        let c = i % 4;
        let x = q % w;
        let y = q / w;
        assert(w > 0 && h > 0) by (nonlinear_arith)
            requires
                0 <= i < 4 * w * h,
                0 <= w,
                0 <= h,
        ;
        assert(0 <= x < w && 0 <= y < h && (y * w + x) * 4 + c == i && 0 <= c < 4) by (nonlinear_arith)
            requires
                0 <= i < 4 * w * h,
                w > 0,
                q == i / 4,
                c == i % 4,
                x == q % w,
                y == q / w,
        ;
        crate::blit::lemma_pixel_in_buffer(w, h, x, y);
        assert(pixel_of(a, w, x, y)[c] == a[i]);
        assert(pixel_of(b, w, x, y)[c] == b[i]);
    }
    assert(a =~= b);
}

/// Deterministic: packing the same sprites with the same config gives the same
/// JSON (atlas size, image name, padding, frames) and the same pixels.
pub proof fn lemma_pack_deterministic(sprites: Seq<Sprite>, config: PackConfig, p1: PackedAtlas, p2: PackedAtlas)
    requires
        packs_into(sprites, config, p1),
        packs_into(sprites, config, p2),
    ensures
        p1.json.atlas.width == p2.json.atlas.width,
        p1.json.atlas.height == p2.json.atlas.height,
        p1.json.atlas.image@ == p2.json.atlas.image@,
        p1.json.atlas.padding == p2.json.atlas.padding,
        frame_specs(p1.json.frames@) == frame_specs(p2.json.frames@),
        raster_width(p1.image) == raster_width(p2.image),
        raster_height(p1.image) == raster_height(p2.image),
        raster_data(p1.image) == raster_data(p2.image),
{
    let e = p1.json.atlas.width as int;
    let fs = frame_specs(p1.json.frames@);
    assert(frame_specs(p2.json.frames@) == fs);
    assert forall|x: int, y: int| 0 <= x < e && 0 <= y < e implies #[trigger] pixel_of(raster_data(p1.image), e, x, y)
        == pixel_of(raster_data(p2.image), e, x, y) by {
        assert(pixel_of(raster_data(p1.image), e, x, y) == blit_pixel(sprites, fs, x, y));
        assert(pixel_of(raster_data(p2.image), e, x, y) == blit_pixel(sprites, fs, x, y));
    }
    lemma_same_pixels_same_bytes(raster_data(p1.image), raster_data(p2.image), e, e);
}

/// An atlas whose buffer can be allocated is narrower than `u32::MAX`.
proof fn lemma_allocatable_edge(s: u32)
    requires
        buffer_len(s as int, s as int) <= isize::MAX as int,
    ensures
        s < u32::MAX,
{
    if s == u32::MAX {
        assert(4 * (s as int) * (s as int) > isize::MAX as int) by (nonlinear_arith)
            requires
                s == 0xFFFF_FFFFu32,
        ;
    }
}

/// In power-of-two mode, with a power-of-two cap, every edge the search
/// reaches from a power of two is a power of two.
proof fn lemma_search_pow2(dims: Seq<SpriteDims>, order: Seq<int>, size: u32, pad: u32, cap: u32)
    requires
        is_pow2(size as int),
        is_pow2(cap as int),
    ensures
        search_from(dims, order, size, pad, true, cap) matches SearchOutcome::Packed(s) ==> is_pow2(
            s as int,
        ),
    decreases u32::MAX - size,
{
    if size <= cap && shelf_run(order_sizes(dims, order), size, size, pad) is None && size < u32::MAX {
        let next = spec_next_size(size, true, cap);
        if size < cap {
            lemma_pow2_double_within(size as int, cap as int);
            let k = choose|k: nat| size == vstd::arithmetic::power2::pow2(k);
            vstd::arithmetic::power2::lemma_pow2_pos(k);
            vstd::arithmetic::power2::lemma_pow2_unfold(k + 1);
            assert(next == 2 * size);
            assert(is_pow2(next));
            lemma_search_pow2(dims, order, next as u32, pad, cap);
        } else {
            assert(search_from(dims, order, next as u32, pad, true, cap) is Exhausted);
        }
    }
}

/// Chooses the layout: the error, or the atlas edge and the frames; `None`
/// where the packing arithmetic would overflow.
fn plan(sprites: &[Sprite], config: &PackConfig) -> (r: Option<Result<(u32, Vec<Frame>), Error>>)
    ensures
        r is None <==> !plan_defined(sprites@, *config),
        r matches Some(res) ==> ({
            let dims = dims_of(sprites@);
            &&& (sprites@.len() == 0) == (res matches Err(Error::NoSprites(_)))
            &&& res matches Err(Error::NoSprites(p)) ==> p@ == "<memory>"@
            &&& (sprites@.len() > 0 && !all_fit(dims, config.max_size)) == (res matches Err(
                Error::SpriteTooLarge { .. },
            ))
            &&& res matches Err(Error::SpriteTooLarge { name, sw, sh, aw, ah }) ==> {
                let d = dims[first_too_large(dims, config.max_size)];
                name@ == d.name && sw == d.w && sh == d.h && aw == config.max_size && ah
                    == config.max_size
            }
            &&& (sprites@.len() > 0 && all_fit(dims, config.max_size) && pack_search(
                dims,
                *config,
            ) is Exhausted) == (res matches Err(Error::PackFailed { .. }))
            &&& res matches Err(Error::PackFailed { width, height }) ==> width == config.max_size
                && height == config.max_size
            &&& res matches Ok((edge, frames)) ==> {
                let fs = frame_specs(frames@);
                &&& sprites@.len() > 0
                &&& all_fit(dims, config.max_size)
                &&& pack_search(dims, *config) == SearchOutcome::Packed(edge)
                &&& shelf_frames(dims, pack_order(dims), edge, edge, config.padding) == Some(fs)
                &&& fs.len() == sprites@.len()
                &&& frames_cover(fs, dims)
                &&& frames_sorted_by_name(fs)
                &&& edge < u32::MAX ==> frames_in_bounds(fs, edge as int, edge as int, config.padding as int)
                    && frames_separated(fs, config.padding as int)
                &&& edge <= config.max_size
                &&& config.power_of_two ==> is_pow2(edge as int)
            }
        }),
{
    let ghost dims = dims_of(sprites@);
    if sprites.len() == 0 {
        return Some(Err(Error::NoSprites(String::from_str("<memory>"))));
    }
    let n = sprites.len();
    let mut keys: Vec<u32> = Vec::new();
    let mut names: Vec<String> = Vec::new();
    for i in 0..n
        invariant
            n == sprites@.len(),
            dims == dims_of(sprites@),
            keys@.len() == i,
            names@.len() == i,
            forall|j: int| 0 <= j < i ==> (#[trigger] names@[j])@ == dims[j].name,
            n >= 2 ==> forall|j: int| 0 <= j < i ==> #[trigger] keys@[j] == area_keys(dims)[j],
            n >= 2 ==> forall|j: int| 0 <= j < i ==> (#[trigger] dims[j]).w * dims[j].h <= u32::MAX,
    {
        let s = &sprites[i];
        if n >= 2 {
            match s.width().checked_mul(s.height()) {
                Some(a) => {
                    keys.push(a);
                },
                None => {
                    assert(dims[i as int].w * dims[i as int].h > u32::MAX);
                    return None;
                },
            }
        } else {
            keys.push(0);
        }
        names.push(s.name.clone());
    }
    assert(names_of(names@) =~= dims_names(dims));
    let order = ranked_indices(&keys, &names);
    proof {
        if n >= 2 {
            assert(keys@ =~= area_keys(dims));
        } else {
            let one = seq![0int];
            assert(is_ranked(one, keys@, dims_names(dims)));
            assert(is_ranked(one, area_keys(dims), dims_names(dims)));
            lemma_ranked_unique(one, keys@, dims_names(dims));
            lemma_ranked_unique(one, area_keys(dims), dims_names(dims));
        }
    }
    let ghost ord = as_ints(order@);
    assert(ord == pack_order(dims));
    let mut size = match initial_size(sprites, config) {
        None => {
            return None;
        },
        Some(Ok(s)) => s,
        Some(Err(e)) => {
            return Some(Err(e));
        },
    };
    let ghost first_size = size;
    let max = config.max_size;
    let pad = config.padding;
    if config.power_of_two && max == 0 {
        return Some(Err(Error::PackFailed { width: max, height: max }));
    }
    assert forall|k: int| 0 <= k < order@.len() implies #[trigger] order@[k] < sprites@.len() by {
        assert(ord[k] == order@[k] as int);
    }
    let cap: u32 = if config.power_of_two { largest_pow2_within(max) } else { max };
    assert(cap as int == edge_cap(config.power_of_two, max));
    while size <= cap
        invariant
            n == sprites@.len(),
            n > 0,
            dims == dims_of(sprites@),
            ord == as_ints(order@),
            ord == pack_order(dims),
            is_index_perm(ord, n as int),
            order@.len() == n,
            forall|k: int| 0 <= k < order@.len() ==> #[trigger] order@[k] < sprites@.len(),
            max == config.max_size,
            pad == config.padding,
            n >= 2 ==> forall|j: int| 0 <= j < n ==> (#[trigger] dims[j]).w * dims[j].h <= u32::MAX,
            sizing_defined(dims, pad, config.power_of_two, max),
            all_fit(dims, max),
            cap as int == edge_cap(config.power_of_two, max),
            cap <= max,
            !(config.power_of_two && max == 0),
            config.power_of_two ==> is_pow2(cap as int),
            search_from(dims, ord, size, pad, config.power_of_two, cap) == pack_search(dims, *config),
            first_size as int == initial_size_of(dims, pad, config.power_of_two, max),
            config.power_of_two ==> is_pow2(first_size as int),
        decreases cap + 1 - size,
    {
        match try_pack(sprites, &order, size, size, pad) {
            Some(frames) => {
                proof {
                    crate::shelf::lemma_cover_by_perm(frame_specs(frames@), dims, ord);
                    assert(pack_search(dims, *config) == SearchOutcome::Packed(size));
                    if config.power_of_two {
                        lemma_search_pow2(dims, ord, first_size, pad, cap);
                    }
                }
                return Some(Ok((size, frames)));
            },
            None => {
                if size == u32::MAX {
                    return None;
                }
                size = next_size(size, config.power_of_two, cap);
            },
        }
    }
    Some(Err(Error::PackFailed { width: max, height: max }))
}

/// Draws the planned frames into an atlas of the planned edge.
fn draw(sprites: &[Sprite], config: &PackConfig, edge: u32, frames: Vec<Frame>) -> (p: PackedAtlas)
    requires
        sprites@.len() > 0,
        pack_search(dims_of(sprites@), *config) == SearchOutcome::Packed(edge),
        shelf_frames(dims_of(sprites@), pack_order(dims_of(sprites@)), edge, edge, config.padding)
            == Some(frame_specs(frames@)),
        frames_cover(frame_specs(frames@), dims_of(sprites@)),
        frames@.len() == sprites@.len(),
        edge < u32::MAX ==> frames_in_bounds(
            frame_specs(frames@),
            edge as int,
            edge as int,
            config.padding as int,
        ) && frames_separated(frame_specs(frames@), config.padding as int),
        buffer_len(edge as int, edge as int) <= isize::MAX as int,
        names_drawable(sprites@),
    ensures
        packs_into(sprites@, *config, p),
        p.json.atlas.width == edge,
        p.json.frames@ == frames@,
        atlas_shows_frames(sprites@, frame_specs(frames@), raster_data(p.image), edge as int),
{
    let ghost dims = dims_of(sprites@);
    let ghost fs = frame_specs(frames@);
    let ghost n = sprites@.len();
    proof {
        lemma_allocatable_edge(edge);
        let m = choose|m: Seq<int>|
            is_index_perm(m, dims.len() as int) && forall|k: int|
                0 <= k < fs.len() ==> {
                    &&& (#[trigger] fs[k]).name == dims[m[k]].name
                    &&& fs[k].w == dims[m[k]].w
                    &&& fs[k].h == dims[m[k]].h
                };
        assert forall|k: int| 0 <= k < frames@.len() implies crate::blit::frame_drawable(
            sprites@,
            #[trigger] frame_specs(frames@)[k],
            edge as int,
            edge as int,
        ) by {
            let i = m[k];
            assert(0 <= i < n);
            crate::blit::lemma_last_named_found(sprites@, i);
            assert(fs[k].name == sprites@[i].name@);
            assert(fits_last_named(sprites@, i));
        }
    }
    let image = blit(sprites, &frames, edge, edge);
    let meta = AtlasMeta {
        image: config.image_name.clone(),
        width: edge,
        height: edge,
        padding: config.padding,
    };
    proof {
        lemma_frame_pixels(sprites@, fs, config.padding as int, raster_data(image), edge as int);
    }
    PackedAtlas { image, json: AtlasJson { atlas: meta, frames } }
}

/// Pack sprites already in memory into a single atlas.
///
/// Output is **deterministic**: the same sprites and config always produce the
/// same pixel layout and JSON (frames are sorted by name).
pub fn pack_images(sprites: &[Sprite], config: &PackConfig) -> (r: Result<PackedAtlas, Error>)
    requires
        pack_defined(sprites@, *config),
    ensures
        pack_contract(sprites@, *config, r),
{
    match plan(sprites, config) {
        None => {
            assert(false);
            Err(Error::NoSprites(String::new()))
        },
        Some(Err(e)) => Err(e),
        Some(Ok((edge, frames))) => {
            proof {
                lemma_allocatable_edge(edge);
            }
            Ok(draw(sprites, config, edge, frames))
        },
    }
}

/// Whether each sprite fits the sprite whose pixels are drawn for its name.
fn check_names_drawable(sprites: &[Sprite]) -> (r: bool)
    ensures
        r == names_drawable(sprites@),
{
    let n = sprites.len();
    for i in 0..n
        invariant
            n == sprites@.len(),
            forall|k: int| 0 <= k < i ==> #[trigger] fits_last_named(sprites@, k),
    {
        let mut last: usize = i;
        for j in 0..n
            invariant
                n == sprites@.len(),
                i < n,
                last < n,
                last_named(sprites@.take(j as int), sprites@[i as int].name@) >= 0 ==> last as int
                    == last_named(sprites@.take(j as int), sprites@[i as int].name@),
                j > i ==> last_named(sprites@.take(j as int), sprites@[i as int].name@) >= 0,
        {
            assert(sprites@.take(j + 1).drop_last() =~= sprites@.take(j as int));
            if sprites[j].name == sprites[i].name {
                last = j;
            }
        }
        assert(sprites@.take(n as int) =~= sprites@);
        proof {
            crate::blit::lemma_last_named_found(sprites@, i as int);
        }
        let w = sprites[i].width();
        let h = sprites[i].height();
        if w > 0 && h > 0 && (w > sprites[last].width() || h > sprites[last].height()) {
            assert(!fits_last_named(sprites@, i as int));
            return false;
        }
    }
    true
}

/// `pack_images` on every input: `None` exactly where the packing arithmetic
/// or the atlas allocation would fail (those inputs `pack_images` excludes),
/// else what `pack_images` returns.
pub fn pack_images_checked(sprites: &[Sprite], config: &PackConfig) -> (r: Option<Result<PackedAtlas, Error>>)
    ensures
        r is None <==> !pack_defined(sprites@, *config),
        r matches Some(res) ==> pack_contract(sprites@, *config, res),
{
    match plan(sprites, config) {
        None => None,
        Some(Err(e)) => Some(Err(e)),
        Some(Ok((edge, frames))) => {
            let e = edge as u128;
            assert(4 * e * e <= 4 * 0xFFFF_FFFFu128 * 0xFFFF_FFFFu128) by (nonlinear_arith)
                requires
                    e <= 0xFFFF_FFFFu128,
            ;
            if 4 * e * e > isize::MAX as u128 {
                return None;
            }
            if !check_names_drawable(sprites) {
                return None;
            }
            proof {
                lemma_allocatable_edge(edge);
            }
            Some(Ok(draw(sprites, config, edge, frames)))
        },
    }
}

} // verus!
