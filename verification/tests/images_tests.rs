use nexis_ml::images::{
    class_list, grid_size, image_grid, image_list, load_images, write_example_images, Decoded, ImageFile,
    ImagesError, Raster,
};

fn strings(list: &[&str]) -> Vec<String> {
    list.iter().map(|s| s.to_string()).collect()
}

fn color(r: &Raster, x: usize, y: usize) -> (u8, u8, u8) {
    let at = 3 * (y * r.width as usize + x);
    (r.bytes[at], r.bytes[at + 1], r.bytes[at + 2])
}

const GROUND: (u8, u8, u8) = (24, 24, 28);
const RIGHT: (u8, u8, u8) = (52, 168, 108);
const WRONG: (u8, u8, u8) = (220, 76, 76);

#[test]
fn classes_are_directories_in_order() {
    assert_eq!(class_list(&strings(&["b", "a", "c"])).unwrap(), vec!["a", "b", "c"]);
    let (error, classes) = class_list(&strings(&["only"])).err().unwrap();
    assert_eq!(error, ImagesError::TooFewClasses);
    assert_eq!(
        error.message("data", &classes),
        "need at least 2 class sub-folders in data — found [\"only\"]"
    );
}

#[test]
fn images_are_listed_class_by_class() {
    let names = vec![strings(&["2.png", "notes.txt", "10.PNG", "1.bmp"]), Vec::new(), strings(&["z.jpg"])];
    let files = image_list(&names).unwrap();
    let list: Vec<(usize, &str)> = files.iter().map(|f| (f.class, f.name.as_str())).collect();
    assert_eq!(list, vec![(0, "1.bmp"), (0, "10.PNG"), (0, "2.png"), (2, "z.jpg")]);
    let none = image_list(&vec![strings(&["a.txt"]), Vec::new()]).err().unwrap();
    assert_eq!(none, ImagesError::NoImages);
    assert_eq!(none.message("data", &Vec::new()), "no images found under data/<class>/");
}

#[test]
fn images_take_the_size_of_the_first() {
    let decoded = vec![
        Decoded { width: 2, height: 1, levels: vec![10, 20] },
        Decoded { width: 2, height: 1, levels: vec![30, 40] },
        Decoded { width: 4, height: 2, levels: vec![80; 8] },
        Decoded { width: 1, height: 1, levels: vec![200] },
    ];
    let files: Vec<ImageFile> = [0usize, 0, 1, 1]
        .iter()
        .map(|c| ImageFile { class: *c, name: "x.png".to_string() })
        .collect();
    for d in &decoded {
        assert!(d.can_fit(2, 1));
    }
    let loaded = load_images(&decoded, &files);
    assert_eq!((loaded.width, loaded.height), (2, 1));
    assert_eq!(loaded.labels, vec![0, 0, 1, 1]);
    assert_eq!(loaded.images, vec![vec![10, 20], vec![30, 40], vec![80, 80], vec![200, 200]]);
}

#[test]
fn an_image_is_resampled_with_the_triangle_filter() {
    let decoded = vec![
        Decoded { width: 1, height: 1, levels: vec![0] },
        Decoded { width: 2, height: 1, levels: vec![0, 100] },
    ];
    let files = vec![
        ImageFile { class: 0, name: "a.png".to_string() },
        ImageFile { class: 1, name: "b.png".to_string() },
    ];
    let loaded = load_images(&decoded, &files);
    assert_eq!(loaded.images, vec![vec![0], vec![50]]);
}

#[test]
fn very_long_sides_are_not_resampled() {
    let long = Decoded { width: 0x40_0000, height: 1, levels: Vec::new() };
    assert!(long.can_fit(0x40_0000, 1));
    assert!(!long.can_fit(1, 1));
}

#[test]
fn long_sides_are_resampled() {
    let side = 0x3F_FFFF;
    let long = Decoded { width: side, height: 1, levels: vec![7; side as usize] };
    let short = Decoded { width: 3, height: 1, levels: vec![9; 3] };
    assert!(long.can_fit(3, 1) && short.can_fit(side, 1));
    let files = |n: usize| -> Vec<ImageFile> {
        (0..n).map(|_| ImageFile { class: 0, name: "a.png".to_string() }).collect()
    };
    let loaded = load_images(&vec![short, long], &files(2));
    assert_eq!(loaded.images[1], vec![7; 3]);
    let long = Decoded { width: side, height: 1, levels: vec![7; side as usize] };
    let short = Decoded { width: 3, height: 1, levels: vec![9; 3] };
    let loaded = load_images(&vec![long, short], &files(2));
    assert!(loaded.images[1].iter().all(|&l| l == 9));
}

#[test]
fn example_images_are_always_the_same() {
    let images = write_example_images();
    assert_eq!(images.len(), 144);
    let classes = ["horizontal", "vertical", "diagonal", "checker"];
    for (j, image) in images.iter().enumerate() {
        assert_eq!(image.class, classes[j / 36]);
        assert_eq!(image.name, format!("img_{:03}.png", j % 36));
        assert_eq!(image.levels.len(), 24 * 24);
    }
    assert_eq!(images[0].levels[..8], [222, 232, 226, 230, 217, 223, 215, 210]);
    assert_eq!(images[0].levels[24..28], [45, 31, 22, 26]);
    assert_eq!(images[37].levels[..8], [44, 32, 202, 211, 44, 18, 208, 217]);
    assert_eq!(images[80].levels[..8], [44, 28, 229, 220, 18, 47, 18, 215]);
    assert_eq!(images[143].levels[572..], [27, 40, 228, 228]);
    let total: u64 = images.iter().flat_map(|i| &i.levels).map(|v| u64::from(*v)).sum();
    assert_eq!(total, 9_302_988);
}

#[test]
fn example_images_are_found() {
    let images = write_example_images();
    let classes = class_list(&strings(&["horizontal", "vertical", "diagonal", "checker"])).unwrap();
    assert_eq!(classes, vec!["checker", "diagonal", "horizontal", "vertical"]);
    let names: Vec<Vec<String>> = classes
        .iter()
        .map(|c| images.iter().filter(|i| i.class == c).map(|i| i.name.clone()).collect())
        .collect();
    assert_eq!(image_list(&names).unwrap().len(), 144);
}

#[test]
fn bright_places_stand_out() {
    for image in write_example_images() {
        for level in image.levels {
            assert!((12..=48).contains(&level) || (202..=238).contains(&level));
        }
    }
}

#[test]
fn a_grid_shows_every_tile() {
    // Nine tiles of 16x16 pixels, each enlarged to 32x32: two rows of eight and one.
    let images: Vec<Vec<u8>> = (0..9).map(|i| vec![i * 10; 256]).collect();
    let preds = [0i64, 1, 0, 1, 0, 1, 0, 1];
    let targets = [0usize; 9];
    assert_eq!(grid_size(9, 16, 16), Some((8 * 38, 2 * 38)));
    let grid = image_grid(&images, 16, 16, &preds, &targets, 16).unwrap();
    assert_eq!((grid.width, grid.height), (8 * 38, 2 * 38));
    assert_eq!(grid.bytes.len(), 3 * 8 * 38 * 2 * 38);
    for i in 0..9 {
        let (x, y) = ((i % 8) * 38 + 3, (i / 8) * 38 + 3);
        let border = if i % 2 == 0 && i < 8 { RIGHT } else { WRONG };
        let g = (i * 10) as u8;
        for (dx, dy) in [(0, 0), (1, 1), (31, 0), (30, 5), (9, 31), (0, 30)] {
            assert_eq!(color(&grid, x + dx, y + dy), border, "tile {i}");
        }
        for (dx, dy) in [(2, 2), (29, 29), (15, 7)] {
            assert_eq!(color(&grid, x + dx, y + dy), (g, g, g), "tile {i}");
        }
        assert_eq!(color(&grid, x - 1, y), GROUND);
        assert_eq!(color(&grid, x + 32, y + 4), GROUND);
    }
    assert_eq!(color(&grid, 100, 60), GROUND);
}

#[test]
fn a_grid_enlarges_small_images() {
    let grid = image_grid(&vec![vec![1, 2, 3, 4, 5, 6]], 2, 3, &[7], &[7], 1).unwrap();
    // A tile of 3x2 pixels is enlarged ten times.
    assert_eq!((grid.width, grid.height), (36, 26));
    for (sx, sy, level) in [(1, 0, 2u8), (1, 1, 5)] {
        let at = (3 + sx * 10 + 5, 3 + sy * 10 + 5);
        assert_eq!(color(&grid, at.0, at.1), (level, level, level));
    }
    assert_eq!(color(&grid, 3 + 2, 3 + 2), (1, 1, 1));
    assert_eq!(color(&grid, 3 + 27, 3 + 17), (6, 6, 6));
    assert_eq!(color(&grid, 3, 3), RIGHT);
}

#[test]
fn a_tiny_tile_is_all_border() {
    let grid = image_grid(&vec![vec![9; 40 * 1]], 1, 40, &[], &[0], 16).unwrap();
    assert_eq!((grid.width, grid.height), (46, 7));
    for y in 2..5 {
        assert_eq!(color(&grid, 20, y), WRONG, "row {y}");
    }
    assert_eq!(color(&grid, 20, 1), GROUND);
    assert_eq!(color(&grid, 20, 5), GROUND);
    assert_eq!(color(&grid, 2, 3), GROUND);
}

#[test]
fn no_image_no_grid() {
    assert!(image_grid(&Vec::new(), 4, 4, &[], &[], 16).is_none());
    assert!(image_grid(&vec![vec![0; 16]], 4, 4, &[], &[], 0).is_none());
    assert!(grid_size(1, usize::MAX, 1).is_none());
    assert!(grid_size(16, 1 << 31, 1).is_none());
}
