use std::collections::BTreeMap;

use puddle_core::droplet::{Blob, Droplet, DropletId};
use puddle_core::errordetection::{assign, get_similarity, match_views, ViewError};
use puddle_core::location::Location;

fn loc(y: i32, x: i32) -> Location {
    Location { y, x }
}

/// Reads one blob per letter of a picture of the board: its top-left
/// corner, its extent, and unit volume.
fn parse_strings(strs: &[&str]) -> BTreeMap<char, Blob> {
    let mut bounds: BTreeMap<char, (i32, i32, i32, i32)> = BTreeMap::new();
    for (y, row) in strs.iter().enumerate() {
        for (x, ch) in row.chars().enumerate() {
            if ch == '.' {
                continue;
            }
            let (y, x) = (y as i32, x as i32);
            let e = bounds.entry(ch).or_insert((y, x, y, x));
            e.0 = e.0.min(y);
            e.1 = e.1.min(x);
            e.2 = e.2.max(y);
            e.3 = e.3.max(x);
        }
    }
    bounds
        .into_iter()
        .map(|(ch, (y0, x0, y1, x1))| {
            (ch, Blob { location: loc(y0, x0), dimensions: loc(y1 - y0 + 1, x1 - x0 + 1), volume: 1 })
        })
        .collect()
}

fn blob_map_to_droplets(blobs: &BTreeMap<char, Blob>) -> (Vec<Droplet>, Vec<char>) {
    let mut droplets = vec![];
    let mut char_to_id = vec![];
    for (c, blob) in blobs {
        let id = DropletId { id: char_to_id.len(), process_id: 0 };
        droplets.push(Droplet::new(id, 1, blob.location, blob.dimensions));
        char_to_id.push(*c);
    }
    (droplets, char_to_id)
}

fn check_views(exec_strs: &[&str], chip_strs: &[&str]) {
    let exec_blobs = parse_strings(exec_strs);
    let chip_blobs = parse_strings(chip_strs);
    let (exec_view, char_to_id) = blob_map_to_droplets(&exec_blobs);
    let chip_view: Vec<Blob> = chip_blobs.values().cloned().collect();
    let result = match_views(exec_view.clone(), chip_view).unwrap();
    assert_eq!(result.len(), exec_view.len());
    for (id, blob) in &result {
        assert_eq!(*blob, chip_blobs[&char_to_id[id.id]]);
    }
}

#[test]
fn test_no_diff() {
    let strs = ["aa..........c", ".....bb......", "............."];
    check_views(&strs, &strs);
}

#[test]
fn test_location_diff() {
    let exec_strs = ["aa..........c", ".....bb......", "............."];
    let chip_strs = ["aa...........", "............c", ".....bb......"];
    check_views(&exec_strs, &chip_strs);
}

#[test]
fn test_dimension_diff() {
    let exec_strs = ["aa..........c", ".....bb......", "............."];
    let chip_strs = ["aa.........cc", ".....b.......", ".....b......."];
    check_views(&exec_strs, &chip_strs);
}

#[test]
#[should_panic(expected = "Expected and actual droplets are of different lengths")]
fn test_mix_split_diff() {
    let exec_strs = ["aa...........", ".....bb..c...", "............."];
    let chip_strs = ["aa...........", ".....bbb.....", "............."];
    let exec_blobs = parse_strings(&exec_strs);
    let chip_blobs = parse_strings(&chip_strs);
    let (exec_view, _) = blob_map_to_droplets(&exec_blobs);
    let chip_view: Vec<Blob> = chip_blobs.values().cloned().collect();
    if match_views(exec_view, chip_view).is_err() {
        panic!("Expected and actual droplets are of different lengths");
    }
}

#[test]
fn mismatched_counts_are_an_error() {
    let exec_strs = ["a..b", "....", "c..."];
    let chip_strs = ["a..b", "....", "...."];
    let (exec_view, _) = blob_map_to_droplets(&parse_strings(&exec_strs));
    let chip_view: Vec<Blob> = parse_strings(&chip_strs).values().cloned().collect();
    assert_eq!(
        match_views(exec_view.clone(), chip_view.clone()),
        Err(ViewError::LengthMismatch { expected: 3, observed: 2 })
    );
    assert!(assign(&exec_view, &chip_view).is_err());
}

#[test]
fn two_droplets_on_a_small_board() {
    let strs = ["a............", ".....b.......", "............."];
    let blobs = parse_strings(&strs);
    let (exec_view, _) = blob_map_to_droplets(&blobs);
    // observed in the opposite order
    let chip_view = vec![blobs[&'b'], blobs[&'a']];
    let result = match_views(exec_view.clone(), chip_view).unwrap();
    assert_eq!(result[0], (exec_view[0].id, Blob { location: loc(0, 0), dimensions: loc(1, 1), volume: 1 }));
    assert_eq!(result[1], (exec_view[1].id, Blob { location: loc(1, 5), dimensions: loc(1, 1), volume: 1 }));
}

#[test]
fn empty_views_match() {
    assert_eq!(match_views(vec![], vec![]), Ok(vec![]));
}

#[test]
fn similarity_sums_three_distances() {
    let blob = Blob { location: loc(1, 2), dimensions: loc(2, 2), volume: 5 };
    let droplet = Droplet::new(DropletId { id: 0, process_id: 0 }, 2, loc(4, 0), loc(1, 3));
    assert_eq!(get_similarity(&blob, &droplet), 5 + 2 + 3);
}

#[test]
fn one_shifted_droplet_keeps_the_others() {
    let a = Droplet::new(DropletId { id: 0, process_id: 0 }, 1, loc(0, 0), loc(1, 1));
    let b = Droplet::new(DropletId { id: 1, process_id: 0 }, 1, loc(0, 10), loc(1, 1));
    let c = Droplet::new(DropletId { id: 2, process_id: 0 }, 1, loc(5, 5), loc(1, 1));
    let observed = vec![
        Blob { location: loc(0, 0), dimensions: loc(1, 1), volume: 1 },
        Blob { location: loc(1, 10), dimensions: loc(1, 1), volume: 1 },
        Blob { location: loc(5, 5), dimensions: loc(1, 1), volume: 1 },
    ];
    let expected = vec![a, b, c];
    let p = assign(&expected, &observed).unwrap();
    assert_eq!(p, vec![0, 1, 2]);
    let cost = |p: &[usize]| -> i64 {
        p.iter().enumerate().map(|(i, &j)| get_similarity(&observed[j], &expected[i])).sum()
    };
    assert_eq!(cost(&p), 1);
    for i in 0..3 {
        for j in 0..3 {
            let mut q = p.clone();
            q.swap(i, j);
            assert!(cost(&p) <= cost(&q));
        }
    }
}
