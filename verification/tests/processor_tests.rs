use pixel_grid::db::{resolve_project_settings, Project, ProjectSettings, StoredSettings};
use pixel_grid::packer::{layout_sprites, PackerSettings, SortOrder, SpriteMetadata};
use pixel_grid::processor::{get_neighbors, normalize_alpha, AlphaSettings, Connectivity, OutlineSettings};
use pixel_grid::raster::{Pixel, PixelBuffer};
use pixel_grid::settings::{BgRemovalMode, DownscalerSettings};
use pixel_grid::state::{ExportNaming, ExportSettings, SourceType, VersionType};

#[test]
fn test_default_settings() {
    let settings = PackerSettings::default();
    assert_eq!(settings.max_width, 2048);
    assert_eq!(settings.item_padding, 2);
}

#[test]
fn test_neighbors_4way() {
    let neighbors = get_neighbors(5, 5, 10, 10, &Connectivity::Four);
    assert_eq!(neighbors.len(), 4);
}

#[test]
fn test_neighbors_8way() {
    let neighbors = get_neighbors(5, 5, 10, 10, &Connectivity::Eight);
    assert_eq!(neighbors.len(), 8);
}

#[test]
fn test_neighbors_corner() {
    let n4 = get_neighbors(0, 0, 10, 10, &Connectivity::Four);
    assert_eq!(n4.len(), 2);
    let n8 = get_neighbors(0, 0, 10, 10, &Connectivity::Eight);
    assert_eq!(n8.len(), 3);
}

#[test]
fn neighbors_come_in_a_fixed_order() {
    assert_eq!(get_neighbors(5, 5, 10, 10, &Connectivity::Four), vec![(4, 5), (6, 5), (5, 4), (5, 6)]);
    assert_eq!(
        get_neighbors(5, 5, 10, 10, &Connectivity::Eight),
        vec![(4, 4), (4, 5), (4, 6), (5, 4), (5, 6), (6, 4), (6, 5), (6, 6)]
    );
    assert_eq!(get_neighbors(9, 9, 10, 10, &Connectivity::Four), vec![(8, 9), (9, 8)]);
    assert_eq!(get_neighbors(9, 0, 10, 10, &Connectivity::Eight), vec![(8, 0), (8, 1), (9, 1)]);
    assert_eq!(get_neighbors(0, 4, 1, 10, &Connectivity::Eight), vec![(0, 3), (0, 5)]);
    assert!(get_neighbors(0, 0, 1, 1, &Connectivity::Eight).is_empty());
    assert!(get_neighbors(0, 0, 1, 1, &Connectivity::Four).is_empty());
}

#[test]
fn alpha_is_made_binary() {
    let mut img = PixelBuffer::new(5, 1);
    for (x, a) in [0u8, 199, 200, 230, 255].iter().enumerate() {
        img.put_pixel(x as u32, 0, Pixel::new(1, 2, 3, *a));
    }
    normalize_alpha(&mut img, &AlphaSettings::default());
    let alphas: Vec<u8> = (0..5).map(|x| img.get_pixel(x, 0).a).collect();
    assert_eq!(alphas, vec![0, 0, 255, 255, 255]);
    assert_eq!(img.get_pixel(1, 0), Pixel::new(1, 2, 3, 0));
}

#[test]
fn alpha_between_the_ranges_stays() {
    let settings = AlphaSettings { low_cutoff: 50, high_min: 200, high_max: 250 };
    let mut img = PixelBuffer::new(6, 1);
    for (x, a) in [49u8, 50, 199, 200, 250, 251].iter().enumerate() {
        img.put_pixel(x as u32, 0, Pixel::new(1, 2, 3, *a));
    }
    normalize_alpha(&mut img, &settings);
    let alphas: Vec<u8> = (0..6).map(|x| img.get_pixel(x, 0).a).collect();
    assert_eq!(alphas, vec![0, 50, 199, 255, 255, 251]);
    normalize_alpha(&mut img, &settings);
    let again: Vec<u8> = (0..6).map(|x| img.get_pixel(x, 0).a).collect();
    assert_eq!(again, alphas);
}

#[test]
fn default_settings_of_the_stages() {
    let s = DownscalerSettings::default();
    assert_eq!(s.bg_removal_mode, BgRemovalMode::Conservative);
    assert_eq!((s.bg_tolerance, s.bg_edge_tolerance), (15, 30));
    assert!(s.preserve_dark_lines);
    assert_eq!(s.dark_line_threshold, 100);
    assert!(s.auto_trim && s.enable_fine_tune && s.pad_canvas);
    assert_eq!(s.canvas_multiple, 16);
    let a = AlphaSettings::default();
    assert_eq!((a.low_cutoff, a.high_min, a.high_max), (200, 200, 255));
    let o = OutlineSettings::default();
    assert_eq!(o.color, (17, 6, 2, 255));
    assert_eq!(o.connectivity, Connectivity::Four);
    assert_eq!((o.thickness, o.edge_transparent_cutoff), (1, 0));
    let p = PackerSettings::default();
    assert_eq!((p.row_padding, p.border_padding), (2, 4));
    assert_eq!(p.background_color, (0, 0, 0, 0));
    assert_eq!(p.sort_order, SortOrder::Height);
    assert!(p.export_metadata);
    let e = ExportSettings::default();
    assert!(e.destination.is_none());
    assert!(matches!(e.naming, ExportNaming::Same));
    assert!(matches!(ExportNaming::default(), ExportNaming::Same));
    assert_ne!(VersionType::Original, VersionType::Downscaled);
    assert_ne!(SourceType::Unknown, SourceType::AiUpscaled);
}

#[test]
fn sprites_are_laid_out_in_rows() {
    let mut settings = PackerSettings::default();
    settings.max_width = 100;
    let sizes = vec![(40, 30), (40, 20), (40, 10), (90, 5), (200, 8), (10, 10)];
    let layout = layout_sprites(&sizes, &settings).expect("a layout");
    // border 4, padding 2: the second sprite ends at 46 + 40 + 4 = 90, the third
    // would end at 88 + 40 + 4 and begins a row below the 30 + 2 pixels of the first
    assert_eq!(layout.positions, vec![(4, 4), (46, 4), (4, 38), (4, 52), (4, 61), (4, 73)]);
    assert_eq!(layout.height, 73 + 12 + 4);
    let m = SpriteMetadata { x: 4, y: 4, w: 40, h: 30 };
    assert_eq!(m, SpriteMetadata { x: layout.positions[0].0, y: layout.positions[0].1, w: 40, h: 30 });
}

#[test]
fn a_sheet_without_sprites_is_its_border() {
    let layout = layout_sprites(&Vec::new(), &PackerSettings::default()).expect("a layout");
    assert!(layout.positions.is_empty());
    assert_eq!(layout.height, 8);
}

#[test]
fn a_wide_sprite_stays_in_an_empty_row() {
    let mut settings = PackerSettings::default();
    settings.max_width = 50;
    let layout = layout_sprites(&vec![(300, 10), (300, 10)], &settings).expect("a layout");
    assert_eq!(layout.positions, vec![(4, 4), (4, 18)]);
    assert_eq!(layout.height, 18 + 12 + 4);
}

#[test]
fn a_layout_beyond_32_bits_is_refused() {
    let settings = PackerSettings::default();
    assert!(layout_sprites(&vec![(u32::MAX, 1)], &settings).is_none());
    assert!(layout_sprites(&vec![(1, u32::MAX)], &settings).is_none());
    // the right end with the border, 4 + w + 4, must fit
    assert!(layout_sprites(&vec![(u32::MAX - 7, 1)], &settings).is_none());
    assert!(layout_sprites(&vec![(u32::MAX - 8, 1)], &settings).is_some());
    assert!(layout_sprites(&vec![(1, u32::MAX - 10)], &settings).is_some());
    assert!(layout_sprites(&vec![(1, u32::MAX - 9)], &settings).is_none());
    let tall = vec![(3000, 2_000_000_000), (3000, 2_000_000_000), (3000, 2_000_000_000)];
    assert!(layout_sprites(&tall, &settings).is_none());
}

#[test]
fn stored_settings_override_the_defaults() {
    let defaults = ProjectSettings::default();
    assert!(defaults.downscale_folder.is_none());
    assert_eq!(defaults.downscale_output_folder, "downscaled");
    assert_eq!(defaults.process_output_folder, "processed");
    assert_eq!(defaults.pack_output_filename, "spritesheet.png");
    let settings = resolve_project_settings(StoredSettings {
        downscale_folder: Some("/in".to_string()),
        process_folder: None,
        pack_folder: None,
        downscale_output_folder: None,
        process_output_folder: Some("done".to_string()),
        pack_output_filename: None,
    });
    assert_eq!(settings.downscale_folder, Some("/in".to_string()));
    assert!(settings.process_folder.is_none());
    assert_eq!(settings.downscale_output_folder, "downscaled");
    assert_eq!(settings.process_output_folder, "done");
    assert_eq!(settings.pack_output_filename, "spritesheet.png");
    let project = Project { id: 3, name: "Test Project".to_string(), path: "/path/to/project".to_string() };
    assert_eq!(project.clone().name, "Test Project");
}
