use nymx::icon::{has_whole_palettes, load_icon_data, pick_icon, Icon};

/// A PNG file of two pixels in a row, with opacity.
const RGBA: &[u8] = &[
    137, 80, 78, 71, 13, 10, 26, 10, 0, 0, 0, 13, 73, 72, 68, 82, 0, 0, 0, 2, 0, 0, 0, 1, 8, 6, 0,
    0, 0, 244, 34, 127, 138, 0, 0, 0, 17, 73, 68, 65, 84, 120, 218, 99, 96, 100, 98, 102, 249, 245,
    251, 207, 95, 0, 10, 19, 3, 249, 53, 254, 230, 249, 0, 0, 0, 0, 73, 69, 78, 68, 174, 66, 96,
    130,
];

/// A PNG file of two pixels in a column, without opacity.
const RGB: &[u8] = &[
    137, 80, 78, 71, 13, 10, 26, 10, 0, 0, 0, 13, 73, 72, 68, 82, 0, 0, 0, 1, 0, 0, 0, 2, 8, 2, 0,
    0, 0, 22, 227, 33, 112, 0, 0, 0, 16, 73, 68, 65, 84, 120, 218, 99, 224, 18, 145, 99, 208, 48,
    178, 1, 0, 2, 116, 0, 211, 150, 77, 204, 149, 0, 0, 0, 0, 73, 69, 78, 68, 174, 66, 96, 130,
];

/// An ICO file of one pixel.
const ICO: &[u8] = &[
    0, 0, 1, 0, 1, 0, 1, 1, 0, 0, 1, 0, 32, 0, 70, 0, 0, 0, 22, 0, 0, 0, 137, 80, 78, 71, 13, 10,
    26, 10, 0, 0, 0, 13, 73, 72, 68, 82, 0, 0, 0, 1, 0, 0, 0, 1, 8, 6, 0, 0, 0, 31, 21, 196, 137,
    0, 0, 0, 13, 73, 68, 65, 84, 120, 218, 99, 224, 228, 96, 103, 3, 0, 0, 85, 0, 31, 114, 148, 80,
    225, 0, 0, 0, 0, 73, 69, 78, 68, 174, 66, 96, 130,
];

/// A PNG file of one pixel, whose colour is the second of a palette.
const INDEXED: &[u8] = &[
    137, 80, 78, 71, 13, 10, 26, 10, 0, 0, 0, 13, 73, 72, 68, 82, 0, 0, 0, 1, 0, 0, 0, 1, 8, 3, 0,
    0, 0, 40, 203, 52, 187, 0, 0, 0, 6, 80, 76, 84, 69, 1, 2, 3, 70, 80, 90, 67, 92, 130, 40, 0, 0,
    0, 10, 73, 68, 65, 84, 120, 218, 99, 96, 4, 0, 0, 3, 0, 2, 230, 125, 167, 103, 0, 0, 0, 0, 73,
    69, 78, 68, 174, 66, 96, 130,
];

/// A PNG file of one pixel, whose palette ends within the second colour.
const TORN: &[u8] = &[
    137, 80, 78, 71, 13, 10, 26, 10, 0, 0, 0, 13, 73, 72, 68, 82, 0, 0, 0, 1, 0, 0, 0, 1, 8, 3, 0,
    0, 0, 40, 203, 52, 187, 0, 0, 0, 4, 80, 76, 84, 69, 1, 2, 3, 70, 187, 9, 170, 23, 0, 0, 0, 10,
    73, 68, 65, 84, 120, 218, 99, 96, 0, 0, 0, 2, 0, 1, 229, 39, 222, 252, 0, 0, 0, 0, 73, 69, 78,
    68, 174, 66, 96, 130,
];

/// A PNG file of one pixel, with a palette that ends within a colour and that it does not use.
const TORN_UNUSED: &[u8] = &[
    137, 80, 78, 71, 13, 10, 26, 10, 0, 0, 0, 13, 73, 72, 68, 82, 0, 0, 0, 1, 0, 0, 0, 1, 8, 2, 0,
    0, 0, 144, 119, 83, 222, 0, 0, 0, 4, 80, 76, 84, 69, 1, 2, 3, 70, 187, 9, 170, 23, 0, 0, 0, 12,
    73, 68, 65, 84, 120, 218, 99, 224, 22, 83, 4, 0, 0, 114, 0, 67, 14, 52, 186, 38, 0, 0, 0, 0, 73,
    69, 78, 68, 174, 66, 96, 130,
];

/// An ICO file of one pixel, whose colour is in a palette.
const ICO_INDEXED: &[u8] = &[
    0, 0, 1, 0, 1, 0, 1, 1, 0, 0, 1, 0, 32, 0, 99, 0, 0, 0, 22, 0, 0, 0, 137, 80, 78, 71, 13, 10,
    26, 10, 0, 0, 0, 13, 73, 72, 68, 82, 0, 0, 0, 1, 0, 0, 0, 1, 8, 3, 0, 0, 0, 40, 203, 52, 187, 0,
    0, 0, 6, 80, 76, 84, 69, 1, 2, 3, 70, 80, 90, 67, 92, 130, 40, 0, 0, 0, 2, 116, 82, 78, 83, 5,
    6, 226, 135, 156, 72, 0, 0, 0, 10, 73, 68, 65, 84, 120, 218, 99, 96, 4, 0, 0, 3, 0, 2, 230, 125,
    167, 103, 0, 0, 0, 0, 73, 69, 78, 68, 174, 66, 96, 130,
];

/// An ICO file of one pixel, whose palette ends within the second colour.
const ICO_TORN: &[u8] = &[
    0, 0, 1, 0, 1, 0, 1, 1, 0, 0, 1, 0, 32, 0, 97, 0, 0, 0, 22, 0, 0, 0, 137, 80, 78, 71, 13, 10,
    26, 10, 0, 0, 0, 13, 73, 72, 68, 82, 0, 0, 0, 1, 0, 0, 0, 1, 8, 3, 0, 0, 0, 40, 203, 52, 187, 0,
    0, 0, 5, 80, 76, 84, 69, 1, 2, 3, 70, 80, 58, 1, 50, 20, 0, 0, 0, 1, 116, 82, 78, 83, 5, 48,
    140, 44, 233, 0, 0, 0, 10, 73, 68, 65, 84, 120, 218, 99, 96, 0, 0, 0, 2, 0, 1, 229, 39, 222,
    252, 0, 0, 0, 0, 73, 69, 78, 68, 174, 66, 96, 130,
];

fn decoded(files: Vec<Option<&[u8]>>) -> Option<(Vec<u8>, u32, u32)> {
    let files: Vec<Option<Vec<u8>>> = files.into_iter().map(|f| f.map(|d| d.to_vec())).collect();
    load_icon_data(&files).map(|i| (i.rgba, i.width, i.height))
}

#[test]
fn pictures_are_decoded() {
    assert_eq!(decoded(vec![Some(RGBA)]), Some((vec![1, 2, 3, 4, 250, 251, 252, 253], 2, 1)));
    assert_eq!(decoded(vec![Some(RGB)]), Some((vec![10, 20, 30, 255, 40, 50, 60, 255], 1, 2)));
    assert_eq!(decoded(vec![Some(ICO)]), Some((vec![9, 8, 7, 6], 1, 1)));
}

#[test]
fn the_first_file_that_can_be_decoded_counts() {
    assert_eq!(
        decoded(vec![None, Some(b"no picture"), Some(ICO), Some(RGB)]),
        Some((vec![9, 8, 7, 6], 1, 1))
    );
    assert_eq!(decoded(vec![None, Some(b""), Some(&RGBA[..40])]), None);
    assert_eq!(decoded(vec![None, None]), None);
    assert_eq!(decoded(vec![]), None);
}

#[test]
fn bitmaps_without_width_are_no_pictures() {
    let mut bitmap = vec![0u8; 60];
    bitmap[..2].copy_from_slice(b"BM");
    bitmap[10] = 54;
    bitmap[14] = 40;
    bitmap[22] = 1;
    bitmap[26] = 1;
    bitmap[28] = 24;
    assert_eq!(decoded(vec![Some(&bitmap)]), None);
    bitmap[18] = 1;
    bitmap[54..57].copy_from_slice(&[3, 2, 1]);
    assert_eq!(decoded(vec![Some(&bitmap)]), Some((vec![1, 2, 3, 255], 1, 1)));
}

#[test]
fn the_first_icon_is_picked() {
    let icon = |n: u8| Some(Icon { rgba: vec![n; 4], width: 1, height: 1 });
    assert_eq!(pick_icon(vec![None, icon(5), None, icon(6)]).map(|i| i.rgba), Some(vec![5; 4]));
    assert!(pick_icon(vec![None, None]).is_none());
    assert!(pick_icon(vec![]).is_none());
}

#[test]
fn colours_are_taken_from_palettes() {
    assert_eq!(decoded(vec![Some(INDEXED)]), Some((vec![70, 80, 90, 255], 1, 1)));
    assert_eq!(decoded(vec![Some(ICO_INDEXED)]), Some((vec![70, 80, 90, 6], 1, 1)));
    assert_eq!(decoded(vec![Some(TORN_UNUSED)]), Some((vec![11, 22, 33, 255], 1, 1)));
}

#[test]
fn files_with_torn_palettes_are_no_pictures() {
    assert_eq!(decoded(vec![Some(TORN)]), None);
    assert_eq!(decoded(vec![Some(ICO_TORN)]), None);
    assert_eq!(decoded(vec![Some(TORN), Some(ICO)]), Some((vec![9, 8, 7, 6], 1, 1)));
    assert_eq!(decoded(vec![Some(ICO), Some(TORN)]), Some((vec![9, 8, 7, 6], 1, 1)));
}

#[test]
fn palettes_are_scanned() {
    for data in [RGBA, RGB, ICO, INDEXED, ICO_INDEXED, TORN_UNUSED, b"", b"no picture"] {
        assert!(has_whole_palettes(data));
    }
    assert!(!has_whole_palettes(TORN));
    assert!(!has_whole_palettes(ICO_TORN));
    assert!(has_whole_palettes(&TORN[1..]));
    assert!(has_whole_palettes(&TORN[..40]));
    assert!(!has_whole_palettes(&TORN[..41]));
}

#[test]
fn palettes_after_the_pixels_do_not_count() {
    let mut data = INDEXED.to_vec();
    let torn = TORN[33..49].to_vec();
    let end = data.len() - 12;
    data.splice(end..end, torn);
    assert!(has_whole_palettes(&data));
}
