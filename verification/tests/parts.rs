use atlaspack::names::str_less;
use atlaspack::order::ranked_indices;
use atlaspack::sizing::{area_side_of, largest_pow2_within};
use atlaspack::{collect_sprites, next_size, path_order, sprite_name, Error, Raster, Sprite};

fn parts(p: &[&str]) -> Vec<String> {
    p.iter().map(|s| s.to_string()).collect()
}

#[test]
fn next_size_doubles_in_power_of_two_mode() {
    assert_eq!(next_size(16, true, 4096), 32);
    assert_eq!(next_size(3000, true, 4096), 4096);
    assert_eq!(next_size(4096, true, 4096), 4097);
    assert_eq!(next_size(3_000_000_000, true, u32::MAX), u32::MAX);
}

#[test]
fn next_size_grows_by_a_quarter_otherwise() {
    assert_eq!(next_size(100, false, 4096), 125);
    assert_eq!(next_size(10, false, 4096), 26);
    assert_eq!(next_size(4000, false, 4096), 4096);
    assert_eq!(next_size(20, false, 20), 21);
}

#[test]
fn sprite_names_drop_the_png_extension() {
    assert_eq!(sprite_name(&parts(&["hero.png"])), Some("hero".to_string()));
    assert_eq!(sprite_name(&parts(&["sub", "deep", "coin.PNG"])), Some("sub/deep/coin".to_string()));
    assert_eq!(sprite_name(&parts(&["x.tar.Png"])), Some("x.tar".to_string()));
    assert_eq!(sprite_name(&parts(&["dir", "..png"])), Some("dir".to_string()));
    assert_eq!(sprite_name(&parts(&["..png"])), Some(".".to_string()));
}

#[test]
fn only_png_files_are_sprites() {
    assert_eq!(sprite_name(&parts(&["notes.txt"])), None);
    assert_eq!(sprite_name(&parts(&[".png"])), None);
    assert_eq!(sprite_name(&parts(&["png"])), None);
    assert_eq!(sprite_name(&parts(&["a.pnga"])), None);
    assert_eq!(sprite_name(&parts(&[])), None);
}

#[test]
fn collected_sprites_are_sorted_by_name_stably() {
    let s = |n: &str, w: u32| Sprite {
        name: n.into(),
        image: Raster::from_pixel(w, 1, [0, 0, 0, 0]),
    };
    let v = collect_sprites(vec![s("b", 1), s("a", 2), s("b", 3), s("B", 4)], "dir".into()).unwrap();
    let got: Vec<(String, u32)> = v.iter().map(|s| (s.name.clone(), s.width())).collect();
    assert_eq!(
        got,
        vec![
            ("B".to_string(), 4),
            ("a".to_string(), 2),
            ("b".to_string(), 1),
            ("b".to_string(), 3)
        ]
    );
}

#[test]
fn collecting_nothing_names_the_directory() {
    let r = collect_sprites(Vec::new(), "sprites/dir".into());
    assert!(matches!(r, Err(Error::NoSprites(ref d)) if d == "sprites/dir"));
}

#[test]
fn names_compare_like_strings() {
    assert!(str_less("a", "b"));
    assert!(str_less("ab", "b"));
    assert!(str_less("", "a"));
    assert!(str_less("Z", "a"));
    assert!(str_less("z", "é"));
    assert!(str_less("hero", "hero2"));
    assert!(!str_less("b", "a"));
    assert!(!str_less("same", "same"));
}

#[test]
fn ranked_indices_sort_by_key_then_name_then_position() {
    let keys = vec![4, 9, 4, 9, 1];
    let names = parts(&["d", "b", "a", "b", "a"]);
    assert_eq!(ranked_indices(&keys, &names), vec![1, 3, 2, 0, 4]);
}

#[test]
fn raster_round_trips_raw_bytes() {
    let bytes: Vec<u8> = (0..8).collect();
    let r = Raster::from_raw(2, 1, bytes.clone()).unwrap();
    assert_eq!(r.width(), 2);
    assert_eq!(r.height(), 1);
    assert_eq!(r.into_raw(), bytes);
    assert!(Raster::from_raw(2, 2, bytes).is_none());
    let filled = Raster::from_pixel(2, 1, [1, 2, 3, 4]);
    assert_eq!(filled.into_raw(), vec![1, 2, 3, 4, 1, 2, 3, 4]);
}

#[test]
fn area_side_is_the_ceiling_of_the_double_square_root() {
    assert_eq!(area_side_of(0), 0);
    assert_eq!(area_side_of(1), 1);
    assert_eq!(area_side_of(424), 21);
    assert_eq!(area_side_of(441), 21);
    assert_eq!(area_side_of(442), 22);
    // 2^52 + 1: the exact ceiling is 2^26 + 1, but the square root rounds
    // down onto 2^26 in double precision.
    assert_eq!(area_side_of(4_503_599_627_370_497), 67_108_864);
    assert_eq!(area_side_of(4_503_599_627_370_496), 67_108_864);
    // 2^53 + 1 is rounded to 2^53 before the root is taken.
    assert_eq!(area_side_of(9_007_199_254_740_993), 94_906_266);
    assert_eq!(area_side_of(4_611_686_018_427_400_249), 2_147_483_649);
    assert_eq!(area_side_of(18_446_744_065_119_617_025), u32::MAX);
    assert_eq!(area_side_of(u64::MAX), u32::MAX);
}

#[test]
fn largest_power_of_two_within_a_maximum() {
    assert_eq!(largest_pow2_within(1), 1);
    assert_eq!(largest_pow2_within(20), 16);
    assert_eq!(largest_pow2_within(4096), 4096);
    assert_eq!(largest_pow2_within(u32::MAX), 0x8000_0000);
}

#[test]
fn sprite_files_sort_by_path_components() {
    // "a" is a prefix of "a-b", so a/b.png comes before a-b/c.png although
    // '-' sorts before '/'; equal paths keep their order.
    let paths = vec![
        parts(&["a-b", "c.png"]),
        parts(&["a", "b.png"]),
        parts(&["a.png"]),
        parts(&["a", "b.png"]),
        parts(&["B.png"]),
    ];
    assert_eq!(path_order(&paths), vec![4, 1, 3, 0, 2]);
    assert_eq!(path_order(&Vec::new()), Vec::<usize>::new());
}

#[test]
fn path_order_agrees_with_std_path_order() {
    let rels: Vec<Vec<&str>> = vec![
        vec!["z.png"],
        vec!["a", "b", "c.png"],
        vec!["a-b", "c.png"],
        vec!["a", "b.png"],
        vec!["a.png"],
        vec!["A", "x.png"],
        vec!["a", "b", "c.png"],
        vec!["é.png"],
        vec!["a", "bb.png"],
    ];
    let parts_list: Vec<Vec<String>> = rels.iter().map(|r| parts(r)).collect();
    let paths: Vec<std::path::PathBuf> = rels
        .iter()
        .map(|r| r.iter().collect::<std::path::PathBuf>())
        .collect();
    let mut expected: Vec<usize> = (0..paths.len()).collect();
    expected.sort_by(|&i, &j| paths[i].cmp(&paths[j]));
    assert_eq!(path_order(&parts_list), expected);
}
