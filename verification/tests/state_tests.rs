use pixel_grid::outline::{add_outline, edge_pixels};
use pixel_grid::processor::{Connectivity, OutlineSettings};
use pixel_grid::raster::{Pixel, PixelBuffer};
use pixel_grid::state::{
    backup_name, cache_filename, decimal, hash_bytes, GlobalSettings, ImageVersion, SourceState, SourceType,
    VersionType, WorkspaceState,
};

#[test]
fn test_hash_bytes() {
    let hash1 = hash_bytes(b"hello");
    let hash2 = hash_bytes(b"hello");
    let hash3 = hash_bytes(b"world");

    assert_eq!(hash1, hash2);
    assert_ne!(hash1, hash3);
    assert_eq!(hash1.len(), 64); // SHA-256 produces 64 hex chars
}

#[test]
fn hash_of_known_content() {
    assert_eq!(hash_bytes(b""), "e3b0c44298fc1c149afbf4c8996fb92427ae41e4649b934ca495991b7852b855");
    assert_eq!(hash_bytes(b"abc"), "ba7816bf8f01cfea414140de5dae2223b00361a396177a9cb410ff61f20015ad");
}

#[test]
fn backup_is_named_by_the_hash() {
    assert_eq!(backup_name(b"abc"), "ba7816bf8f01cfea_original.png");
    assert_eq!(backup_name(b""), "e3b0c44298fc1c14_original.png");
}

#[test]
fn cache_file_is_named_by_hash_version_and_suffix() {
    let hash = hash_bytes(b"abc");
    assert_eq!(cache_filename(&hash, "v2", "_down"), "ba7816bf8f01_v2_down.png");
    assert_eq!(cache_filename("0123456789ab", "v1", ""), "0123456789ab_v1.png");
    assert_eq!(cache_filename("0123456789abcdef", "", "x"), "0123456789ab_x.png");
}

fn now_iso() -> String {
    chrono::Utc::now().to_rfc3339()
}

fn sprite(rows: &[&str]) -> PixelBuffer {
    let mut img = PixelBuffer::new(rows[0].len() as u32, rows.len() as u32);
    for (y, row) in rows.iter().enumerate() {
        for (x, c) in row.chars().enumerate() {
            let alpha = match c {
                '#' => 255,
                '+' => 100,
                _ => 0,
            };
            img.put_pixel(x as u32, y as u32, Pixel::new(200, 100, 50, alpha));
        }
    }
    img
}

/// `o` where the outline colour was painted, `#` where a pixel is visible
/// otherwise, `.` elsewhere.
fn painted(img: &PixelBuffer, color: (u8, u8, u8, u8)) -> Vec<String> {
    (0..img.height())
        .map(|y| {
            (0..img.width())
                .map(|x| {
                    let p = img.get_pixel(x, y);
                    if (p.r, p.g, p.b, p.a) == color {
                        'o'
                    } else if p.a > 0 {
                        '#'
                    } else {
                        '.'
                    }
                })
                .collect()
        })
        .collect()
}

fn outline(rows: &[&str], connectivity: Connectivity, thickness: u32, cutoff: u8) -> Vec<String> {
    let mut img = sprite(rows);
    let settings = OutlineSettings { color: (17, 6, 2, 255), connectivity, thickness, edge_transparent_cutoff: cutoff };
    add_outline(&mut img, &settings);
    painted(&img, settings.color)
}

const BLOCK: [&str; 7] = [".......", ".#####.", ".#####.", ".#####.", ".#####.", ".#####.", "......."];

#[test]
fn outline_follows_the_border() {
    assert_eq!(
        outline(&BLOCK, Connectivity::Four, 1, 0),
        vec![".......", ".ooooo.", ".o###o.", ".o###o.", ".o###o.", ".ooooo.", "......."]
    );
    assert_eq!(
        outline(&BLOCK, Connectivity::Four, 2, 0),
        vec![".......", ".ooooo.", ".ooooo.", ".oo#oo.", ".ooooo.", ".ooooo.", "......."]
    );
    assert_eq!(
        outline(&BLOCK, Connectivity::Four, 3, 0),
        vec![".......", ".ooooo.", ".ooooo.", ".ooooo.", ".ooooo.", ".ooooo.", "......."]
    );
    assert_eq!(outline(&BLOCK, Connectivity::Four, 1000, 0), outline(&BLOCK, Connectivity::Four, 3, 0));
    assert_eq!(outline(&BLOCK, Connectivity::Four, u32::MAX, 0), outline(&BLOCK, Connectivity::Four, 3, 0));
}

#[test]
fn outline_of_thickness_zero_paints_nothing() {
    assert_eq!(
        outline(&BLOCK, Connectivity::Eight, 0, 0),
        vec![".......", ".#####.", ".#####.", ".#####.", ".#####.", ".#####.", "......."]
    );
}

#[test]
fn outline_sees_corners_with_eight_neighbours() {
    let notch = ["#####", "#####", "####.", "#####", "#####"];
    // only the pixel beside the notch, above and below it are on the border
    // with four neighbours; the diagonal ones join with eight
    assert_eq!(outline(&notch, Connectivity::Four, 1, 0), vec!["#####", "####o", "###o.", "####o", "#####"]);
    assert_eq!(outline(&notch, Connectivity::Eight, 1, 0), vec!["#####", "###oo", "###o.", "###oo", "#####"]);
    assert_eq!(outline(&notch, Connectivity::Four, 2, 0), vec!["####o", "###oo", "##oo.", "###oo", "####o"]);
    assert_eq!(outline(&notch, Connectivity::Eight, 2, 0), vec!["##ooo", "##ooo", "##oo.", "##ooo", "##ooo"]);
}

#[test]
fn outline_ignores_the_edge_of_the_image() {
    let full = ["###", "###", "###"];
    assert_eq!(outline(&full, Connectivity::Eight, 3, 0), vec!["###", "###", "###"]);
}

#[test]
fn outline_counts_faint_pixels_as_clear_above_the_cutoff() {
    let faded = ["+####", "+####", "+####"];
    assert_eq!(outline(&faded, Connectivity::Four, 1, 0), vec!["#####", "#####", "#####"]);
    assert_eq!(outline(&faded, Connectivity::Four, 1, 100), vec!["#o###", "#o###", "#o###"]);
    assert_eq!(outline(&faded, Connectivity::Four, 1, 99), vec!["#####", "#####", "#####"]);
    assert_eq!(outline(&faded, Connectivity::Four, 2, 100), vec!["#oo##", "#oo##", "#oo##"]);
}

#[test]
fn edge_pixels_come_row_by_row() {
    let mut img = PixelBuffer::new(5, 5);
    for y in 0..5u32 {
        for x in 0..5u32 {
            img.put_pixel(x, y, Pixel::new(x as u8, y as u8, 0, 255));
        }
    }
    // every pixel on the rim of the image is an edge pixel
    let edges: Vec<(u8, u8)> = edge_pixels(&img).iter().map(|p| (p.r, p.g)).collect();
    let rim: Vec<(u8, u8)> = (0..5u8)
        .flat_map(|y| (0..5u8).map(move |x| (x, y)))
        .filter(|&(x, y)| x == 0 || y == 0 || x == 4 || y == 4)
        .collect();
    assert_eq!(edges, rim);
    // a hole makes its four neighbours edge pixels, not the diagonal ones
    img.put_pixel(2, 2, Pixel::new(9, 9, 9, 0));
    let edges: Vec<(u8, u8)> = edge_pixels(&img).iter().map(|p| (p.r, p.g)).collect();
    assert_eq!(edges.len(), 16 + 4);
    assert!(edges.contains(&(2, 1)) && edges.contains(&(1, 2)) && edges.contains(&(3, 2)) && edges.contains(&(2, 3)));
    assert!(!edges.contains(&(1, 1)) && !edges.contains(&(2, 2)));
    assert!(edge_pixels(&PixelBuffer::new(4, 4)).is_empty());
    assert!(edge_pixels(&PixelBuffer::new(0, 0)).is_empty());
    let single = PixelBuffer::from_pixel(1, 1, Pixel::new(1, 2, 3, 4));
    assert_eq!(edge_pixels(&single), vec![Pixel::new(1, 2, 3, 4)]);
}

#[test]
fn test_source_state_new() {
    let state = SourceState::new("abc123".to_string(), now_iso());
    assert_eq!(state.hash, "abc123");
    assert_eq!(state.current_version, "v1");
    assert_eq!(state.versions.len(), 1);
    assert_eq!(state.versions[0].version_type, VersionType::Original);
}

#[test]
fn test_next_version_id() {
    let mut state = SourceState::new("abc123".to_string(), now_iso());
    assert_eq!(state.next_version_id(), "v2");

    state.versions.push(ImageVersion {
        id: "v2".to_string(),
        version_type: VersionType::Downscaled,
        cache_path: Some("test.png".to_string()),
        parent: Some("v1".to_string()),
        post_process_settings: None,
        downscale_settings: None,
        created: now_iso(),
    });

    assert_eq!(state.next_version_id(), "v3");
}

#[test]
fn test_global_settings_default() {
    let settings = GlobalSettings::default();
    assert_eq!(f32::from_bits(settings.merge_threshold_bits), 3.0);
    assert_eq!(settings.outline_color, (17, 6, 2, 255));
    assert_eq!(settings.outline_thickness, 1);
}

#[test]
fn new_source_has_its_first_version_only() {
    let state = SourceState::new("h".to_string(), "2024-01-02T03:04:05+00:00".to_string());
    assert_eq!(state.detected_type, SourceType::Unknown);
    assert!(state.detected_scale.is_none());
    let first = &state.versions[0];
    assert_eq!(first.id, "v1");
    assert_eq!(first.created, "2024-01-02T03:04:05+00:00");
    assert!(first.cache_path.is_none() && first.parent.is_none());
    assert!(first.post_process_settings.is_none() && first.downscale_settings.is_none());
}

#[test]
fn numbers_are_written_in_decimal() {
    assert_eq!(decimal(0), "0");
    assert_eq!(decimal(7), "7");
    assert_eq!(decimal(10), "10");
    assert_eq!(decimal(1203), "1203");
    assert_eq!(decimal(9_007_199_254_740_993), "9007199254740993");
    assert_eq!(decimal(usize::MAX), usize::MAX.to_string());
}

#[test]
fn versions_are_found_by_name() {
    let mut state = SourceState::new("h".to_string(), "t0".to_string());
    for (id, created) in [("v2", "t1"), ("v3", "t2"), ("v2", "t3")] {
        state.add_version(ImageVersion {
            id: id.to_string(),
            version_type: VersionType::PostProcessed,
            cache_path: None,
            parent: Some("v1".to_string()),
            post_process_settings: None,
            downscale_settings: None,
            created: created.to_string(),
        });
    }
    assert_eq!(state.versions.len(), 4);
    assert_eq!(state.next_version_id(), "v5");
    assert_eq!(state.get_version("v1").expect("a version").created, "t0");
    assert_eq!(state.get_version("v2").expect("a version").created, "t1");
    assert_eq!(state.get_version("v3").expect("a version").created, "t2");
    assert!(state.get_version("v4").is_none());
    assert!(state.get_version("").is_none());
    assert_eq!(state.hash, "h");
    assert_eq!(state.current_version, "v1");
}

#[test]
fn sources_are_found_by_path() {
    let mut state = WorkspaceState::new("/work");
    assert_eq!(state.version, 1);
    assert_eq!(state.workspace, "/work");
    assert!(state.sources.is_empty());
    assert!(state.export_settings.destination.is_none());
    assert_eq!(f32::from_bits(state.global_settings.merge_threshold_bits), 3.0);
    assert!(state.find_source("a.png").is_none());
    let a = state.add_source("a.png".to_string(), SourceState::new("ha".to_string(), "t".to_string()));
    let b = state.add_source("dir/b.png".to_string(), SourceState::new("hb".to_string(), "t".to_string()));
    assert_eq!((a, b), (0, 1));
    assert_eq!(state.find_source("a.png"), Some(0));
    assert_eq!(state.find_source("dir/b.png"), Some(1));
    assert!(state.find_source("b.png").is_none());
    assert_eq!(state.sources[1].1.hash, "hb");
}
