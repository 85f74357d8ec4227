//! Copying sprite pixels into the atlas at their frames.

use vstd::prelude::*;
use crate::pack::{Frame, FrameSpec, Sprite, frame_specs};
use crate::shelf::{frames_apart, frames_separated};
use crate::raster::{
    Raster, buffer_len, pixel_of, pixel_offset, raster_data, raster_height, raster_width,
    raw_from_pixel, raw_get_pixel, raw_put_pixel,
};

verus! {

/// Frame `f` covers atlas pixel `(x, y)`.
pub open spec fn covers(f: FrameSpec, x: int, y: int) -> bool {
    f.x <= x < f.x + f.w && f.y <= y < f.y + f.h
}

/// The last of `frames` that covers `(x, y)`, or -1 when none does.
pub open spec fn covering_frame(frames: Seq<FrameSpec>, x: int, y: int) -> int
    decreases frames.len(),
{
    if frames.len() == 0 {
        -1
    } else if covers(frames.last(), x, y) {
        frames.len() - 1
    } else {
        covering_frame(frames.drop_last(), x, y)
    }
}

/// The last sprite named `name`, or -1 when none is.
pub open spec fn last_named(sprites: Seq<Sprite>, name: Seq<char>) -> int
    decreases sprites.len(),
{
    if sprites.len() == 0 {
        -1
    } else if sprites.last().name@ == name {
        sprites.len() - 1
    } else {
        last_named(sprites.drop_last(), name)
    }
}

/// A sprite's name finds the last sprite with that name.
pub proof fn lemma_last_named_found(sprites: Seq<Sprite>, i: int)
    requires
        0 <= i < sprites.len(),
    ensures
        0 <= last_named(sprites, sprites[i].name@) < sprites.len(),
        sprites[last_named(sprites, sprites[i].name@)].name@ == sprites[i].name@,
    decreases sprites.len(),
{
    if sprites.last().name@ != sprites[i].name@ {
        assert(i < sprites.len() - 1);
        lemma_last_named_found(sprites.drop_last(), i);
    }
}

/// The pixel that sprite `s` shows at `(x, y)` of the atlas when drawn at frame `f`.
pub open spec fn sprite_pixel(s: Sprite, f: FrameSpec, x: int, y: int) -> Seq<u8> {
    pixel_of(raster_data(s.image), raster_width(s.image) as int, x - f.x, y - f.y)
}

/// A fully transparent pixel.
pub open spec fn clear_pixel() -> Seq<u8> {
    seq![0u8, 0u8, 0u8, 0u8]
}

/// The atlas pixel at `(x, y)` after drawing `frames` in turn, each with the
/// pixels of the last sprite of its name: the last frame covering the spot
/// wins, and a spot no frame covers stays transparent.
pub open spec fn blit_pixel(sprites: Seq<Sprite>, frames: Seq<FrameSpec>, x: int, y: int) -> Seq<u8> {
    let k = covering_frame(frames, x, y);
    if k < 0 {
        clear_pixel()
    } else {
        sprite_pixel(sprites[last_named(sprites, frames[k].name)], frames[k], x, y)
    }
}

/// Frame `f` lies in the atlas, a sprite has its name, and unless the frame
/// is empty that sprite is at least as large as `f`.
pub open spec fn frame_drawable(sprites: Seq<Sprite>, f: FrameSpec, width: int, height: int) -> bool {
    let j = last_named(sprites, f.name);
    &&& 0 <= f.x && 0 <= f.y && 0 <= f.w && 0 <= f.h
    &&& f.x + f.w <= width
    &&& f.y + f.h <= height
    &&& 0 <= j < sprites.len()
    &&& f.w > 0 && f.h > 0 ==> f.w <= raster_width(sprites[j].image) && f.h <= raster_height(
        sprites[j].image,
    )
}

/// `(x, y)` is among the pixels of frame `f` drawn so far: the first `row`
/// rows and the first `col` pixels of the next row.
pub open spec fn drawn_part(f: FrameSpec, row: int, col: int, x: int, y: int) -> bool {
    &&& covers(f, x, y)
    &&& (y - f.y < row || (y - f.y == row && x - f.x < col))
}

/// The atlas pixel at `(x, y)` after the first `k` frames and part of frame `k`.
pub open spec fn painted(
    sprites: Seq<Sprite>,
    frames: Seq<FrameSpec>,
    k: int,
    row: int,
    col: int,
    x: int,
    y: int,
) -> Seq<u8> {
    if k < frames.len() && drawn_part(frames[k], row, col, x, y) {
        sprite_pixel(sprites[last_named(sprites, frames[k].name)], frames[k], x, y)
    } else {
        blit_pixel(sprites, frames.take(k), x, y)
    }
}

/// The bytes of a `width` by `height` buffer are the pixels of `pixel`.
pub open spec fn holds_pixels(
    data: Seq<u8>,
    width: int,
    height: int,
    pixel: spec_fn(int, int) -> Seq<u8>,
) -> bool {
    &&& data.len() == buffer_len(width, height)
    &&& forall|x: int, y: int|
        0 <= x < width && 0 <= y < height ==> #[trigger] pixel_of(data, width, x, y) == pixel(x, y)
}

/// The frame found covering a pixel is one of the frames, or -1.
pub proof fn lemma_covering_frame_range(frames: Seq<FrameSpec>, x: int, y: int)
    ensures
        -1 <= covering_frame(frames, x, y) < frames.len(),
        covering_frame(frames, x, y) >= 0 ==> covers(frames[covering_frame(frames, x, y)], x, y),
    decreases frames.len(),
{
    if frames.len() > 0 && !covers(frames.last(), x, y) {
        lemma_covering_frame_range(frames.drop_last(), x, y);
    }
}

/// Among frames that lie apart, the one covering a pixel is the only one.
pub proof fn lemma_covering_frame_unique(fs: Seq<FrameSpec>, pad: int, k: int, x: int, y: int)
    requires
        0 <= pad,
        frames_separated(fs, pad),
        0 <= k < fs.len(),
        covers(fs[k], x, y),
    ensures
        covering_frame(fs, x, y) == k,
    decreases fs.len(),
{
    let n = fs.len() - 1;
    if k < n {
        assert(frames_apart(fs[k], fs[n], pad));
        let d = fs.drop_last();
        assert forall|a: int, b: int| 0 <= a < d.len() && 0 <= b < d.len() && a != b implies frames_apart(
            #[trigger] d[a],
            #[trigger] d[b],
            pad,
        ) by {
            assert(frames_apart(fs[a], fs[b], pad));
        }
        lemma_covering_frame_unique(d, pad, k, x, y);
    }
}

/// Each frame shows, at every atlas pixel it covers, the pixels of the last
/// sprite with its name; pixels outside every frame are transparent.
pub open spec fn atlas_shows_frames(sprites: Seq<Sprite>, fs: Seq<FrameSpec>, data: Seq<u8>, edge: int) -> bool {
    &&& forall|k: int, x: int, y: int|
        0 <= k < fs.len() && 0 <= x < edge && 0 <= y < edge && covers(#[trigger] fs[k], x, y)
            ==> #[trigger] pixel_of(data, edge, x, y) == sprite_pixel(
            sprites[last_named(sprites, fs[k].name)],
            fs[k],
            x,
            y,
        )
    &&& forall|x: int, y: int|
        0 <= x < edge && 0 <= y < edge && (forall|k: int| 0 <= k < fs.len() ==> !covers(#[trigger] fs[k], x, y))
            ==> #[trigger] pixel_of(data, edge, x, y) == clear_pixel()
}

/// In an atlas drawn from frames that lie apart, each frame shows the pixels
/// of the last sprite with its name, and pixels outside every frame are
/// transparent.
pub proof fn lemma_frame_pixels(
    sprites: Seq<Sprite>,
    fs: Seq<FrameSpec>,
    pad: int,
    data: Seq<u8>,
    edge: int,
)
    requires
        0 <= pad,
        frames_separated(fs, pad),
        holds_pixels(data, edge, edge, |x: int, y: int| blit_pixel(sprites, fs, x, y)),
    ensures
        atlas_shows_frames(sprites, fs, data, edge),
{
    assert forall|k: int, x: int, y: int|
        0 <= k < fs.len() && 0 <= x < edge && 0 <= y < edge && covers(#[trigger] fs[k], x, y)
        implies #[trigger] pixel_of(data, edge, x, y) == sprite_pixel(
            sprites[last_named(sprites, fs[k].name)],
            fs[k],
            x,
            y,
        ) by {
        lemma_covering_frame_unique(fs, pad, k, x, y);
    }
    assert forall|x: int, y: int|
        0 <= x < edge && 0 <= y < edge && (forall|k: int| 0 <= k < fs.len() ==> !covers(#[trigger] fs[k], x, y))
        implies #[trigger] pixel_of(data, edge, x, y) == clear_pixel() by {
        lemma_covering_frame_range(fs, x, y);
    }
}

/// The four bytes of an in-bounds pixel lie inside the buffer.
pub(crate) proof fn lemma_pixel_in_buffer(width: int, height: int, x: int, y: int)
    requires
        0 <= x < width,
        0 <= y < height,
    ensures
        0 <= pixel_offset(width, x, y),
        pixel_offset(width, x, y) + 4 <= buffer_len(width, height),
{
    assert(y * width + x + 1 <= width * height) by (nonlinear_arith)
        requires
            0 <= x < width,
            0 <= y < height,
    ;
    assert(0 <= y * width + x) by (nonlinear_arith)
        requires
            0 <= x < width,
            0 <= y < height,
    ;
    assert((y * width + x) * 4 + 4 <= 4 * width * height) by (nonlinear_arith)
        requires
            y * width + x + 1 <= width * height,
    ;
}

/// Overwriting pixel `(px, py)` changes only its own four bytes.
proof fn lemma_pixel_update(
    data: Seq<u8>,
    width: int,
    height: int,
    px: int,
    py: int,
    v: Seq<u8>,
    x: int,
    y: int,
)
    requires
        data.len() == buffer_len(width, height),
        0 <= px < width,
        0 <= py < height,
        0 <= x < width,
        0 <= y < height,
        v.len() == 4,
    ensures
        ({
            let o = pixel_offset(width, px, py);
            let nd = data.take(o) + v + data.skip(o + 4);
            &&& nd.len() == data.len()
            &&& pixel_of(nd, width, x, y) == if x == px && y == py {
                v
            } else {
                pixel_of(data, width, x, y)
            }
        }),
{
    let o = pixel_offset(width, px, py);
    let q = pixel_offset(width, x, y);
    assert(o + 4 <= buffer_len(width, height) && q + 4 <= buffer_len(width, height)
        && 0 <= o && 0 <= q) by (nonlinear_arith)
        requires
            0 <= px < width,
            0 <= py < height,
            0 <= x < width,
            0 <= y < height,
            o == (py * width + px) * 4,
            q == (y * width + x) * 4,
    {
        assert(py * width + px + 1 <= width * height) by (nonlinear_arith)
            requires
                0 <= px < width,
                0 <= py < height,
        ;
        assert(y * width + x + 1 <= width * height) by (nonlinear_arith)
            requires
                0 <= x < width,
                0 <= y < height,
        ;
    }
    let nd = data.take(o) + v + data.skip(o + 4);
    if !(x == px && y == py) {
        assert(q + 4 <= o || o + 4 <= q) by (nonlinear_arith)
            requires
                0 <= px < width,
                0 <= py < height,
                0 <= x < width,
                0 <= y < height,
                !(x == px && y == py),
                o == (py * width + px) * 4,
                q == (y * width + x) * 4,
        {
            if y < py {
                assert(y * width + x < py * width + px) by (nonlinear_arith)
                    requires
                        y < py,
                        0 <= x < width,
                        0 <= px,
                ;
            } else if py < y {
                assert(py * width + px < y * width + x) by (nonlinear_arith)
                    requires
                        py < y,
                        0 <= px < width,
                        0 <= x,
                ;
            }
        }
        assert(pixel_of(nd, width, x, y) =~= pixel_of(data, width, x, y));
    } else {
        assert(pixel_of(nd, width, x, y) =~= v);
    }
}

/// Draws each frame's sprite into a new transparent `width` by `height` atlas,
/// pixel by pixel, taking the pixels of the last sprite with the frame's name.
pub(crate) fn blit(sprites: &[Sprite], frames: &Vec<Frame>, width: u32, height: u32) -> (atlas: Raster)
    requires
        buffer_len(width as int, height as int) <= isize::MAX as int,
        forall|k: int|
            0 <= k < frames@.len() ==> frame_drawable(
                sprites@,
                #[trigger] frame_specs(frames@)[k],
                width as int,
                height as int,
            ),
    ensures
        raster_width(atlas) == width,
        raster_height(atlas) == height,
        holds_pixels(
            raster_data(atlas),
            width as int,
            height as int,
            |x: int, y: int| blit_pixel(sprites@, frame_specs(frames@), x, y),
        ),
{
    let ghost fs = frame_specs(frames@);
    let ghost ss = sprites@;
    let ghost w = width as int;
    let ghost h = height as int;
    let mut atlas = raw_from_pixel(width, height, [0u8, 0u8, 0u8, 0u8]);
    proof {
        assert forall|x: int, y: int| 0 <= x < w && 0 <= y < h implies #[trigger] pixel_of(
            raster_data(atlas),
            w,
            x,
            y,
        ) == painted(ss, fs, 0, 0, 0, x, y) by {
            lemma_pixel_in_buffer(w, h, x, y);
            let o = pixel_offset(w, x, y);
            assert forall|i: int| 0 <= i < 4 implies #[trigger] pixel_of(raster_data(atlas), w, x, y)[i] == 0u8 by {
                assert(raster_data(atlas)[o + i] == [0u8, 0u8, 0u8, 0u8]@[(o + i) % 4]);
            }
            assert(pixel_of(raster_data(atlas), w, x, y) =~= clear_pixel());
            assert(fs.take(0) =~= Seq::<FrameSpec>::empty());
        }
    }
    let nf = frames.len();
    for k in 0..nf
        invariant
            nf == frames@.len(),
            fs == frame_specs(frames@),
            ss == sprites@,
            w == width,
            h == height,
            buffer_len(w, h) <= isize::MAX as int,
            forall|j: int| 0 <= j < nf ==> frame_drawable(ss, #[trigger] fs[j], w, h),
            raster_width(atlas) == width,
            raster_height(atlas) == height,
            raster_data(atlas).len() == buffer_len(w, h),
            forall|x: int, y: int|
                0 <= x < w && 0 <= y < h ==> #[trigger] pixel_of(raster_data(atlas), w, x, y)
                    == painted(ss, fs, k as int, 0, 0, x, y),
    {
        let frame = &frames[k];
        assert(frame_drawable(ss, fs[k as int], w, h));
        let mut si: usize = 0;
        let mut found = false;
        let ns = sprites.len();
        for j in 0..ns
            invariant
                ns == sprites@.len(),
                ss == sprites@,
                found ==> si < j,
                (if found { si as int } else { -1 }) == last_named(ss.take(j as int), frame.name@),
        {
            assert(ss.take(j + 1).drop_last() =~= ss.take(j as int));
            if sprites[j].name == frame.name {
                si = j;
                found = true;
            }
        }
        assert(ss.take(ns as int) =~= ss);
        let sprite = &sprites[si];
        let ghost f = fs[k as int];
        for row in 0..frame.h
            invariant
                nf == frames@.len(),
                k < nf,
                fs == frame_specs(frames@),
                ss == sprites@,
                f == fs[k as int],
                frame == frames@[k as int],
                si == last_named(ss, f.name),
                sprite == ss[si as int],
                w == width,
                h == height,
                frame_drawable(ss, f, w, h),
                raster_width(atlas) == width,
                raster_height(atlas) == height,
                raster_data(atlas).len() == buffer_len(w, h),
                forall|x: int, y: int|
                    0 <= x < w && 0 <= y < h ==> #[trigger] pixel_of(raster_data(atlas), w, x, y)
                        == painted(ss, fs, k as int, row as int, 0, x, y),
        {
            for col in 0..frame.w
                invariant
                    nf == frames@.len(),
                    k < nf,
                    fs == frame_specs(frames@),
                    ss == sprites@,
                    f == fs[k as int],
                    frame == frames@[k as int],
                    si == last_named(ss, f.name),
                    sprite == ss[si as int],
                    w == width,
                    h == height,
                    row < f.h,
                    frame_drawable(ss, f, w, h),
                    raster_width(atlas) == width,
                    raster_height(atlas) == height,
                    raster_data(atlas).len() == buffer_len(w, h),
                    forall|x: int, y: int|
                        0 <= x < w && 0 <= y < h ==> #[trigger] pixel_of(raster_data(atlas), w, x, y)
                            == painted(ss, fs, k as int, row as int, col as int, x, y),
            {
                let px = raw_get_pixel(&sprite.image, col, row);
                let ghost before = raster_data(atlas);
                let ax = frame.x + col;
                let ay = frame.y + row;
                raw_put_pixel(&mut atlas, ax, ay, px);
                proof {
                    lemma_pixel_update(before, w, h, ax as int, ay as int, px@, ax as int, ay as int);
                    assert forall|x: int, y: int| 0 <= x < w && 0 <= y < h implies #[trigger] pixel_of(
                        raster_data(atlas),
                        w,
                        x,
                        y,
                    ) == painted(ss, fs, k as int, row as int, col + 1, x, y) by {
                        lemma_pixel_update(before, w, h, ax as int, ay as int, px@, x, y);
                    }
                }
            }
            proof {
                assert forall|x: int, y: int| 0 <= x < w && 0 <= y < h implies painted(
                    ss,
                    fs,
                    k as int,
                    row as int,
                    f.w,
                    x,
                    y,
                ) == painted(ss, fs, k as int, row + 1, 0, x, y) by {}
            }
        }
        proof {
            assert(fs.take(k + 1).drop_last() =~= fs.take(k as int));
            assert forall|x: int, y: int| 0 <= x < w && 0 <= y < h implies painted(
                ss,
                fs,
                k as int,
                f.h,
                0,
                x,
                y,
            ) == painted(ss, fs, k + 1, 0, 0, x, y) by {
                assert(fs.take(k + 1).last() == f);
                if covers(f, x, y) {
                    assert(covering_frame(fs.take(k + 1), x, y) == k);
                    assert(fs.take(k + 1)[k as int] == f);
                } else {
                    lemma_covering_frame_range(fs.take(k as int), x, y);
                    let c = covering_frame(fs.take(k as int), x, y);
                    assert(covering_frame(fs.take(k + 1), x, y) == c);
                    if c >= 0 {
                        assert(fs.take(k + 1)[c] == fs.take(k as int)[c]);
                    }
                }
            }
        }
    }
    proof {
        assert(fs.take(nf as int) =~= fs);
    }
    atlas
}

} // verus!
