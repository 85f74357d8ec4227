use atlaspack::{pack_images, Error, Frame, PackConfig, Raster, Sprite};

fn solid(name: &str, w: u32, h: u32, c: [u8; 4]) -> Sprite {
    Sprite {
        name: name.into(),
        image: Raster::from_pixel(w, h, c),
    }
}

fn frame(name: &str, x: u32, y: u32, w: u32, h: u32) -> Frame {
    Frame {
        name: name.into(),
        x,
        y,
        w,
        h,
    }
}

fn pixel(raw: &[u8], width: u32, x: u32, y: u32) -> [u8; 4] {
    let i = ((y * width + x) * 4) as usize;
    [raw[i], raw[i + 1], raw[i + 2], raw[i + 3]]
}

#[test]
fn packs_deterministically() {
    let sprites = vec![
        solid("b", 8, 8, [1, 0, 0, 255]),
        solid("a", 4, 4, [0, 1, 0, 255]),
        solid("c", 6, 10, [0, 0, 1, 255]),
    ];
    let cfg = PackConfig {
        padding: 1,
        max_size: 256,
        power_of_two: true,
        image_name: "atlas.png".into(),
    };
    let a = pack_images(&sprites, &cfg).unwrap();
    let b = pack_images(&sprites, &cfg).unwrap();
    assert_eq!(a.json, b.json);
    assert_eq!(a.image.into_raw(), b.image.into_raw());
}

#[test]
fn frames_cover_all_sprites() {
    let sprites = vec![
        solid("hero", 16, 16, [255, 0, 0, 255]),
        solid("coin", 8, 8, [255, 215, 0, 255]),
    ];
    let packed = pack_images(&sprites, &PackConfig::default()).unwrap();
    assert_eq!(packed.json.frames.len(), 2);
    let names: Vec<_> = packed.json.frames.iter().map(|f| f.name.as_str()).collect();
    assert_eq!(names, vec!["coin", "hero"]);
}

#[test]
fn default_config_packs_hero_and_coin_on_one_shelf() {
    let sprites = vec![
        solid("hero", 16, 16, [255, 0, 0, 255]),
        solid("coin", 8, 8, [255, 215, 0, 255]),
    ];
    let packed = pack_images(&sprites, &PackConfig::default()).unwrap();
    assert_eq!(packed.json.atlas.width, 32);
    assert_eq!(packed.json.atlas.height, 32);
    assert_eq!(packed.json.atlas.padding, 2);
    assert_eq!(packed.json.atlas.image, "atlas.png");
    assert_eq!(
        packed.json.frames,
        vec![frame("coin", 20, 2, 8, 8), frame("hero", 2, 2, 16, 16)]
    );
    assert_eq!(packed.image.width(), 32);
    assert_eq!(packed.image.height(), 32);
    let raw = packed.image.into_raw();
    assert_eq!(raw.len(), 32 * 32 * 4);
    assert_eq!(pixel(&raw, 32, 2, 2), [255, 0, 0, 255]);
    assert_eq!(pixel(&raw, 32, 17, 17), [255, 0, 0, 255]);
    assert_eq!(pixel(&raw, 32, 18, 2), [0, 0, 0, 0]);
    assert_eq!(pixel(&raw, 32, 20, 2), [255, 215, 0, 255]);
    assert_eq!(pixel(&raw, 32, 27, 9), [255, 215, 0, 255]);
    assert_eq!(pixel(&raw, 32, 28, 9), [0, 0, 0, 0]);
    assert_eq!(pixel(&raw, 32, 0, 0), [0, 0, 0, 0]);
    assert_eq!(pixel(&raw, 32, 31, 31), [0, 0, 0, 0]);
}

#[test]
fn grows_the_atlas_until_the_sprites_fit() {
    let sprites = vec![
        solid("b", 8, 8, [1, 0, 0, 255]),
        solid("a", 4, 4, [0, 1, 0, 255]),
        solid("c", 6, 10, [0, 0, 1, 255]),
    ];
    let cfg = PackConfig {
        padding: 1,
        max_size: 256,
        power_of_two: true,
        image_name: "sheet.png".into(),
    };
    let packed = pack_images(&sprites, &cfg).unwrap();
    assert_eq!(packed.json.atlas.width, 32);
    assert_eq!(packed.json.atlas.image, "sheet.png");
    assert_eq!(
        packed.json.frames,
        vec![
            frame("a", 17, 1, 4, 4),
            frame("b", 1, 1, 8, 8),
            frame("c", 10, 1, 6, 10),
        ]
    );
}

#[test]
fn non_power_of_two_sizes_follow_the_area() {
    let sprites = vec![
        solid("hero", 16, 16, [255, 0, 0, 255]),
        solid("coin", 8, 8, [255, 215, 0, 255]),
    ];
    let cfg = PackConfig {
        padding: 2,
        max_size: 4096,
        power_of_two: false,
        image_name: "atlas.png".into(),
    };
    let packed = pack_images(&sprites, &cfg).unwrap();
    // Area (18*18 + 10*10 = 424) needs an edge of 21; hero and coin share a
    // shelf only from 2 + 18 + 8 + 2 = 30 on, so the search grows 21 -> 37.
    assert_eq!(packed.json.atlas.width, 37);
    assert_eq!(
        packed.json.frames,
        vec![frame("coin", 20, 2, 8, 8), frame("hero", 2, 2, 16, 16)]
    );
}

#[test]
fn no_sprites_is_an_error() {
    let sprites: Vec<Sprite> = Vec::new();
    let r = pack_images(&sprites, &PackConfig::default());
    assert!(matches!(r, Err(Error::NoSprites(ref p)) if p == "<memory>"));
}

#[test]
fn first_oversized_sprite_is_reported() {
    let sprites = vec![
        solid("ok", 4, 4, [1, 1, 1, 1]),
        solid("wide", 20, 3, [1, 1, 1, 1]),
        solid("tall", 3, 30, [1, 1, 1, 1]),
    ];
    let cfg = PackConfig {
        padding: 0,
        max_size: 16,
        power_of_two: true,
        image_name: "atlas.png".into(),
    };
    match pack_images(&sprites, &cfg) {
        Err(Error::SpriteTooLarge { name, sw, sh, aw, ah }) => {
            assert_eq!(name, "wide");
            assert_eq!((sw, sh, aw, ah), (20, 3, 16, 16));
        }
        _ => panic!("expected SpriteTooLarge"),
    }
}

#[test]
fn a_sprite_that_fits_only_without_padding_fails_to_pack() {
    // 15 fits in 16, so the sprite is not too large; with 2 pixels of margin
    // it needs 19 and no edge up to 16 holds it.
    let sprites = vec![solid("s", 15, 15, [1, 1, 1, 1])];
    let cfg = PackConfig {
        padding: 2,
        max_size: 16,
        power_of_two: false,
        image_name: "atlas.png".into(),
    };
    match pack_images(&sprites, &cfg) {
        Err(Error::PackFailed { width, height }) => assert_eq!((width, height), (16, 16)),
        _ => panic!("expected PackFailed"),
    }
}

#[test]
fn a_sprite_exactly_as_large_as_the_maximum_is_not_too_large() {
    let sprites = vec![solid("s", 16, 16, [1, 1, 1, 1])];
    let cfg = PackConfig {
        padding: 2,
        max_size: 16,
        power_of_two: true,
        image_name: "atlas.png".into(),
    };
    assert!(matches!(
        pack_images(&sprites, &cfg),
        Err(Error::PackFailed { width: 16, height: 16 })
    ));
    let cfg = PackConfig { padding: 0, ..cfg };
    let packed = pack_images(&sprites, &cfg).unwrap();
    assert_eq!(packed.json.atlas.width, 16);
    assert_eq!(packed.json.frames, vec![frame("s", 0, 0, 16, 16)]);
}

#[test]
fn power_of_two_atlases_stay_powers_of_two_below_the_maximum() {
    // The maximum 20 is no power of two: the largest edge tried is 16, and a
    // 20 by 20 sprite does not fit in it.
    let sprites = vec![solid("big", 20, 20, [1, 1, 1, 1])];
    let cfg = PackConfig {
        padding: 0,
        max_size: 20,
        power_of_two: true,
        image_name: "atlas.png".into(),
    };
    match pack_images(&sprites, &cfg) {
        Err(Error::PackFailed { width, height }) => assert_eq!((width, height), (20, 20)),
        _ => panic!("expected PackFailed"),
    }
    // Without power-of-two sizes the same sprite fills a 20 by 20 atlas.
    let cfg = PackConfig { power_of_two: false, ..cfg };
    let packed = pack_images(&sprites, &cfg).unwrap();
    assert_eq!(packed.json.atlas.width, 20);
    // A 33 pixel wide sprite rounds up to 64, past the cap of 32.
    let sprites = vec![solid("wide", 33, 5, [1, 1, 1, 1])];
    let cfg = PackConfig { max_size: 40, power_of_two: true, ..cfg };
    assert!(matches!(
        pack_images(&sprites, &cfg),
        Err(Error::PackFailed { width: 40, height: 40 })
    ));
}

#[test]
fn power_of_two_first_edge_rounds_up_within_the_maximum() {
    // Two 12 by 12 sprites: the first edge, 17, rounds up to 32, which is
    // also the largest power of two up to 40.
    let sprites = vec![solid("a", 12, 12, [1, 0, 0, 255]), solid("b", 12, 12, [0, 1, 0, 255])];
    let cfg = PackConfig {
        padding: 0,
        max_size: 40,
        power_of_two: true,
        image_name: "atlas.png".into(),
    };
    let packed = pack_images(&sprites, &cfg).unwrap();
    assert_eq!(packed.json.atlas.width, 32);
    assert_eq!(packed.json.atlas.height, 32);
    assert_eq!(
        packed.json.frames,
        vec![frame("a", 0, 0, 12, 12), frame("b", 12, 0, 12, 12)]
    );
}

#[test]
fn power_of_two_with_zero_maximum_fails_to_pack() {
    let sprites = vec![solid("empty", 0, 0, [0, 0, 0, 0])];
    let cfg = PackConfig {
        padding: 0,
        max_size: 0,
        power_of_two: true,
        image_name: "atlas.png".into(),
    };
    assert!(matches!(
        pack_images(&sprites, &cfg),
        Err(Error::PackFailed { width: 0, height: 0 })
    ));
}

#[test]
fn empty_sprites_sharing_a_name_with_a_smaller_one_still_pack() {
    // Nothing of the 1 by 0 sprite is drawn, so it does not matter that the
    // last sprite named "x" is smaller.
    let sprites = vec![solid("x", 1, 0, [1, 1, 1, 1]), solid("x", 0, 0, [2, 2, 2, 2])];
    let cfg = PackConfig {
        padding: 0,
        max_size: 16,
        power_of_two: false,
        image_name: "atlas.png".into(),
    };
    let checked = atlaspack::pack_images_checked(&sprites, &cfg).unwrap().unwrap();
    let packed = pack_images(&sprites, &cfg).unwrap();
    assert_eq!(packed.json.atlas.width, 16);
    assert_eq!(packed.json.frames.len(), 2);
    assert_eq!(checked.json, packed.json);
    assert!(packed.image.into_raw().iter().all(|&b| b == 0));
}

#[test]
fn error_messages_describe_the_error() {
    assert_eq!(
        Error::NoSprites("sprites/".into()).message(),
        "no PNG sprites found in sprites/"
    );
    assert_eq!(
        Error::PackFailed { width: 4096, height: 20 }.message(),
        "failed to pack sprites into 4096x20 (try a larger --max-size)"
    );
    assert_eq!(
        Error::SpriteTooLarge { name: "hero".into(), sw: 5000, sh: 7, aw: 4096, ah: 0 }.message(),
        "sprite 'hero' is larger than the atlas (5000x7 > 4096x0)"
    );
    assert_eq!(
        Error::PackFailed { width: u32::MAX, height: 10 }.message(),
        "failed to pack sprites into 4294967295x10 (try a larger --max-size)"
    );
}

#[test]
fn sprites_can_be_cloned() {
    let s = solid("hero", 3, 2, [9, 8, 7, 6]);
    let c = s.clone();
    assert_eq!(c.name, "hero");
    assert_eq!((c.width(), c.height()), (3, 2));
    assert_eq!(c.image.into_raw(), s.image.into_raw());
}

#[test]
fn too_many_sprites_fail_to_pack() {
    let sprites = vec![
        solid("a", 16, 16, [1, 1, 1, 1]),
        solid("b", 16, 16, [1, 1, 1, 1]),
        solid("c", 16, 16, [1, 1, 1, 1]),
    ];
    let cfg = PackConfig {
        padding: 0,
        max_size: 20,
        power_of_two: true,
        image_name: "atlas.png".into(),
    };
    match pack_images(&sprites, &cfg) {
        Err(Error::PackFailed { width, height }) => assert_eq!((width, height), (20, 20)),
        _ => panic!("expected PackFailed"),
    }
}

#[test]
fn duplicate_names_draw_the_last_sprite() {
    let sprites = vec![
        solid("x", 4, 4, [255, 0, 0, 255]),
        solid("x", 4, 4, [0, 0, 255, 255]),
    ];
    let cfg = PackConfig {
        padding: 0,
        max_size: 64,
        power_of_two: true,
        image_name: "atlas.png".into(),
    };
    let packed = pack_images(&sprites, &cfg).unwrap();
    assert_eq!(packed.json.atlas.width, 16);
    assert_eq!(
        packed.json.frames,
        vec![frame("x", 0, 0, 4, 4), frame("x", 4, 0, 4, 4)]
    );
    let raw = packed.image.into_raw();
    assert_eq!(pixel(&raw, 16, 0, 0), [0, 0, 255, 255]);
    assert_eq!(pixel(&raw, 16, 5, 3), [0, 0, 255, 255]);
    assert_eq!(pixel(&raw, 16, 8, 0), [0, 0, 0, 0]);
}

#[test]
fn frames_keep_padding_apart_and_inside() {
    let mut sprites = Vec::new();
    for i in 0..12u32 {
        sprites.push(solid(&format!("s{:02}", i), 3 + i % 5, 2 + (i * 7) % 6, [i as u8, 0, 0, 255]));
    }
    let cfg = PackConfig {
        padding: 3,
        max_size: 512,
        power_of_two: false,
        image_name: "atlas.png".into(),
    };
    let packed = pack_images(&sprites, &cfg).unwrap();
    let edge = packed.json.atlas.width;
    let fs = &packed.json.frames;
    assert_eq!(fs.len(), 12);
    for (k, f) in fs.iter().enumerate() {
        assert!(f.x >= 3 && f.y >= 3);
        assert!(f.x + f.w + 3 <= edge && f.y + f.h + 3 <= edge);
        for g in fs.iter().skip(k + 1) {
            assert!(
                f.x + f.w + 3 <= g.x
                    || g.x + g.w + 3 <= f.x
                    || f.y + f.h + 3 <= g.y
                    || g.y + g.h + 3 <= f.y
            );
        }
    }
    for w in fs.windows(2) {
        assert!(w[0].name <= w[1].name);
    }
}

#[test]
fn default_config_values() {
    let c = PackConfig::default();
    assert_eq!(c.padding, 2);
    assert_eq!(c.max_size, 4096);
    assert!(c.power_of_two);
    assert_eq!(c.image_name, "atlas.png");
}

#[test]
fn checked_packing_matches_unchecked_packing() {
    let sprites = vec![
        solid("hero", 16, 16, [255, 0, 0, 255]),
        solid("coin", 8, 8, [255, 215, 0, 255]),
    ];
    let cfg = PackConfig::default();
    let a = atlaspack::pack_images_checked(&sprites, &cfg).unwrap().unwrap();
    let b = pack_images(&sprites, &cfg).unwrap();
    assert_eq!(a.json, b.json);
    assert_eq!(a.image.into_raw(), b.image.into_raw());
}

#[test]
fn checked_packing_refuses_an_unroundable_first_edge() {
    // 1 + 3_000_000_000 rounded up to a power of two does not fit in u32.
    let sprites = vec![solid("dot", 1, 1, [1, 2, 3, 4])];
    let cfg = PackConfig {
        padding: 3_000_000_000,
        max_size: u32::MAX,
        power_of_two: true,
        image_name: "atlas.png".into(),
    };
    assert!(atlaspack::pack_images_checked(&sprites, &cfg).is_none());
}

#[test]
fn checked_packing_refuses_growing_past_u32() {
    // The padded sprite never fits, and the search reaches u32::MAX.
    let sprites = vec![solid("dot", 1, 1, [1, 2, 3, 4])];
    let cfg = PackConfig {
        padding: 3_000_000_000,
        max_size: u32::MAX,
        power_of_two: false,
        image_name: "atlas.png".into(),
    };
    assert!(atlaspack::pack_images_checked(&sprites, &cfg).is_none());
}

#[test]
fn checked_packing_reports_errors_like_unchecked() {
    let cfg = PackConfig {
        padding: 0,
        max_size: 20,
        power_of_two: true,
        image_name: "atlas.png".into(),
    };
    let sprites = vec![
        solid("a", 16, 16, [1, 1, 1, 1]),
        solid("b", 16, 16, [1, 1, 1, 1]),
    ];
    assert!(matches!(
        atlaspack::pack_images_checked(&sprites, &cfg),
        Some(Err(Error::PackFailed { width: 20, height: 20 }))
    ));
}

#[test]
fn input_order_does_not_change_the_atlas() {
    let forward = vec![
        solid("hero", 16, 16, [255, 0, 0, 255]),
        solid("coin", 8, 8, [255, 215, 0, 255]),
        solid("tree", 12, 20, [0, 128, 0, 255]),
        solid("heart", 8, 8, [255, 0, 128, 255]),
    ];
    let backward = vec![
        solid("heart", 8, 8, [255, 0, 128, 255]),
        solid("tree", 12, 20, [0, 128, 0, 255]),
        solid("coin", 8, 8, [255, 215, 0, 255]),
        solid("hero", 16, 16, [255, 0, 0, 255]),
    ];
    let cfg = PackConfig::default();
    let a = pack_images(&forward, &cfg).unwrap();
    let b = pack_images(&backward, &cfg).unwrap();
    assert_eq!(a.json, b.json);
    assert_eq!(a.image.into_raw(), b.image.into_raw());
}
