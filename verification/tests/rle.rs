use mslicer::rle::{decode_layer_pixels, Run};

#[test]
fn decode_fills_rows_in_order() {
    let runs = vec![Run { length: 3, value: 7 }, Run { length: 2, value: 0 }, Run { length: 1, value: 255 }];
    assert_eq!(decode_layer_pixels(&runs, 3, 2), vec![7, 7, 7, 0, 0, 255]);
}

#[test]
fn decode_leaves_unreached_pixels_black() {
    let runs = vec![Run { length: 2, value: 9 }];
    assert_eq!(decode_layer_pixels(&runs, 2, 2), vec![9, 9, 0, 0]);
}

#[test]
fn decode_no_runs() {
    assert_eq!(decode_layer_pixels(&Vec::new(), 2, 1), vec![0, 0]);
    assert_eq!(decode_layer_pixels(&Vec::new(), 0, 5), Vec::<u8>::new());
}

#[test]
fn decode_skips_empty_runs() {
    let runs = vec![Run { length: 0, value: 4 }, Run { length: 1, value: 5 }];
    assert_eq!(decode_layer_pixels(&runs, 1, 1), vec![5]);
}
