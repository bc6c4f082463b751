use gravitate::board_util::{get_tile_size, ripple, Size};
use gravitate::fixed::{initialize_colors, APRICOT, BEIGE, GREEN, PINK, TEAL, WHITE};
use gravitate::palette::{get_colors, palette_ok, safe_palette};
use gravitate::util::{capitalize_first, get_num, Pos};

#[test]
fn ripple_of_nine() {
    assert_eq!(ripple(9), vec![4, 3, 5, 2, 6, 1, 7, 0, 8]);
}

#[test]
fn ripple_of_small_and_even_sizes() {
    assert_eq!(ripple(0), Vec::<usize>::new());
    assert_eq!(ripple(1), vec![0]);
    assert_eq!(ripple(2), vec![1, 0]);
    assert_eq!(ripple(8), vec![4, 3, 5, 2, 6, 1, 7, 0]);
}

#[test]
fn ripple_visits_every_index_once() {
    for n in 0..40 {
        let mut r = ripple(n);
        r.sort();
        assert_eq!(r, (0..n).collect::<Vec<usize>>());
    }
}

#[test]
fn tile_size_is_floor_of_extent_over_cells() {
    assert_eq!(get_tile_size(9, 9, 450, 360), (50, 40));
    assert_eq!(get_tile_size(7, 3, 100, 10), (14, 3));
    assert_eq!(get_tile_size(5, 5, 4, 0), (0, 0));
}

#[test]
fn size_new_keeps_its_fields() {
    let s = Size::new(9, 7);
    assert_eq!((s.columns, s.rows), (9, 7));
}

#[test]
fn positions() {
    let p = Pos::new(3, -2);
    assert_eq!((p.x, p.y), (3, -2));
    assert!(Pos::new(0, 0).is_valid());
    assert!(!Pos::default().is_valid());
    assert!(!Pos::new(Pos::INVALID, 4).is_valid());
    assert_eq!(Pos::default(), Pos::new(-1, -1));
}

#[test]
fn capitalize_first_letter() {
    assert_eq!(capitalize_first("linux"), "Linux");
    assert_eq!(capitalize_first("macos"), "Macos");
    assert_eq!(capitalize_first(""), "");
    assert_eq!(capitalize_first("Windows"), "Windows");
    assert_eq!(capitalize_first("ßa"), "SSa");
    assert_eq!(capitalize_first("élan"), "Élan");
}

#[test]
fn get_num_in_range_or_default() {
    assert_eq!(get_num("42", 0, 100, 7), 42);
    assert_eq!(get_num("200", 0, 100, 7), 7);
    assert_eq!(get_num("abc", 0, 100, 7), 7);
    assert_eq!(get_num("", 0, 100, 7), 7);
    assert_eq!(get_num("-5", -10, 10, 0), -5);
    assert_eq!(get_num("+3", 0, 10, 0), 3);
    assert_eq!(get_num(" 3", 0, 10, 9), 9);
    assert_eq!(get_num("5", 5, 5, 0), 5);
    assert_eq!(get_num("99999999999999999999", 0, 10, 1), 1);
}

#[test]
fn colors_are_distinct() {
    let all = initialize_colors();
    assert_eq!(all.len(), 22);
    for i in 0..all.len() {
        for j in 0..i {
            assert_ne!(all[i], all[j]);
        }
    }
}

#[test]
fn drawn_palettes_are_valid() {
    let all = initialize_colors();
    for maxcolors in [1u8, 3, 4, 10, 18, 19, 20, 22, 30, 255] {
        for _ in 0..5 {
            let p = get_colors(maxcolors);
            assert_eq!(p.len(), (maxcolors as usize).min(19));
            assert!(palette_ok(&p));
            for (i, c) in p.iter().enumerate() {
                assert!(all.contains(c));
                assert!(!p[..i].contains(c));
            }
        }
    }
}

#[test]
fn fallback_palette_skips_the_second_of_each_pair() {
    let p = safe_palette(19);
    assert_eq!(p.len(), 19);
    assert!(!p.contains(&WHITE) && !p.contains(&GREEN) && !p.contains(&APRICOT));
    assert!(p.contains(&BEIGE) && p.contains(&TEAL) && p.contains(&PINK));
    assert!(palette_ok(&p));
    let all = initialize_colors();
    assert_eq!(safe_palette(3), all[..3].to_vec());
    assert_eq!(safe_palette(12), [&all[..10], &all[11..13]].concat());
    assert!(safe_palette(0).is_empty());
}
