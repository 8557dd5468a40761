use isg::embedsource::{EmbedSource, Image, Size};
use isg::etcher::{
    check_ripped, etch_bw, etch_color, etch_pixel, get_pixel, read_bw, read_color, EtchError,
};

fn channel(src: &EmbedSource, x: i32, y: i32, c: usize) -> u8 {
    let w = src.image.width as usize;
    src.image.data[(y as usize * w + x as usize) * 3 + c]
}

#[test]
fn new_source_is_black_with_covered_size() {
    let src = EmbedSource::new(3, 10, 7);
    assert_eq!(src.frame_size, Size::new(10, 7));
    assert_eq!(src.actual_size, Size::new(9, 6));
    assert_eq!(src.size, 3);
    assert_eq!(src.image.data.len(), 10 * 7 * 3);
    assert!(src.image.data.iter().all(|v| *v == 0));
    assert_eq!(src.block_count(), 6);
}

#[test]
fn from_refuses_height_not_multiple_of_size() {
    let img = Image { width: 4, height: 5, data: vec![0; 60] };
    match EmbedSource::from(img, 2, false) {
        Err(msg) => assert_eq!(msg, "Image size is not a multiple of the embedding size"),
        Ok(_) => panic!("expected an error"),
    }
    let img = Image { width: 4, height: 5, data: vec![0; 60] };
    let src = EmbedSource::from(img, 2, true).unwrap();
    assert_eq!(src.actual_size, Size::new(4, 4));
    let img = Image { width: 5, height: 4, data: vec![0; 60] };
    let src = EmbedSource::from(img, 2, false).unwrap();
    assert_eq!(src.actual_size, Size::new(4, 4));
    assert_eq!(src.frame_size, Size::new(5, 4));
}

#[test]
fn from_takes_a_negative_size() {
    let img = Image { width: 5, height: 4, data: vec![0; 60] };
    let src = EmbedSource::from(img, -2, false).unwrap();
    assert_eq!(src.size, -2);
    assert_eq!(src.actual_size, Size::new(4, 4));
    let img = Image { width: 5, height: 4, data: vec![0; 60] };
    match EmbedSource::from(img, -3, false) {
        Err(msg) => assert_eq!(msg, "Image size is not a multiple of the embedding size"),
        Ok(_) => panic!("expected an error"),
    }
}

#[test]
fn etch_pixel_uses_the_first_three_values() {
    let mut src = EmbedSource::new(1, 2, 1);
    etch_pixel(&mut src, &vec![1, 2, 3, 4, 5], 1, 0);
    assert_eq!(channel(&src, 1, 0, 2), 1);
    assert_eq!(channel(&src, 1, 0, 1), 2);
    assert_eq!(channel(&src, 1, 0, 0), 3);
    assert_eq!(channel(&src, 0, 0, 0), 0);
}

#[test]
fn etch_pixel_paints_square_bgr() {
    let mut src = EmbedSource::new(2, 4, 4);
    etch_pixel(&mut src, &vec![10, 20, 30], 2, 0);
    for y in 0..4 {
        for x in 0..4 {
            let inside = x >= 2 && y < 2;
            assert_eq!(channel(&src, x, y, 2), if inside { 10 } else { 0 });
            assert_eq!(channel(&src, x, y, 1), if inside { 20 } else { 0 });
            assert_eq!(channel(&src, x, y, 0), if inside { 30 } else { 0 });
        }
    }
}

#[test]
fn get_pixel_averages_rounding_down() {
    let mut src = EmbedSource::new(2, 2, 2);
    // red values 1, 2, 3, 5 -> 11 / 4 = 2
    let reds = [1u8, 2, 3, 5];
    for (i, r) in reds.iter().enumerate() {
        src.image.data[i * 3 + 2] = *r;
        src.image.data[i * 3 + 1] = 200;
        src.image.data[i * 3] = 7;
    }
    assert_eq!(get_pixel(&src, 0, 0), vec![2, 200, 7]);
}

#[test]
fn etch_bw_fills_blocks_and_reports_end() {
    let data = vec![true, false, false, true, true, false];
    let mut src = EmbedSource::new(2, 4, 4);
    let mut index = 0usize;
    assert_eq!(etch_bw(&mut src, &data, &mut index), Ok(()));
    assert_eq!(index, 4);
    // block 0 is the top-left square, block 1 the top-right one
    assert_eq!(channel(&src, 0, 0, 0), 255);
    assert_eq!(channel(&src, 1, 1, 1), 255);
    assert_eq!(channel(&src, 2, 0, 2), 0);
    assert_eq!(channel(&src, 3, 3, 2), 255);
    let mut second = EmbedSource::new(2, 4, 4);
    assert_eq!(
        etch_bw(&mut second, &data, &mut index),
        Err(EtchError::IndexBeyondData)
    );
    assert_eq!(index, 6);
    assert_eq!(read_bw(&second, 2, 3, 0), vec![true, false, false, false]);
}

#[test]
fn read_bw_gives_back_etched_bits() {
    let data = vec![true, false, true, true];
    let mut src = EmbedSource::new(3, 6, 6);
    let mut index = 0usize;
    assert_eq!(etch_bw(&mut src, &data, &mut index), Err(EtchError::IndexBeyondData));
    assert_eq!(read_bw(&src, 1, 2, 0), data);
    // on the final frame only the first final_bit bits count
    assert_eq!(read_bw(&src, 2, 2, 3), vec![true, false, true]);
    assert_eq!(read_bw(&src, 2, 2, 0), Vec::<bool>::new());
}

#[test]
fn etch_color_and_read_back() {
    let data: Vec<u8> = (1..=15).collect();
    let mut src = EmbedSource::new(1, 2, 2);
    let mut index = 0usize;
    assert_eq!(etch_color(&mut src, &data, &mut index), Ok(()));
    assert_eq!(index, 12);
    assert_eq!(read_color(&src, 1, 99, 0), (1..=12).collect::<Vec<u8>>());
    let mut third = EmbedSource::new(1, 2, 2);
    let mut start = 9usize;
    assert_eq!(
        etch_color(&mut third, &data, &mut start),
        Err(EtchError::IndexBeyondData)
    );
    assert_eq!(start, 15);
    assert_eq!(read_color(&third, 1, 99, 0), vec![10, 11, 12, 13, 14, 15, 0, 0, 0, 0, 0, 0]);
    assert_eq!(read_color(&third, 99, 99, 4), vec![10, 11, 12, 13]);
    let mut fourth = EmbedSource::new(1, 2, 2);
    let mut start = 11usize;
    assert_eq!(
        etch_color(&mut fourth, &data, &mut start),
        Err(EtchError::IndexBeyondData)
    );
    // the last byte shares its block with zero padding
    assert_eq!(start, 17);
    assert_eq!(read_color(&fourth, 1, 99, 3), vec![12, 13, 14, 15, 0, 0, 0, 0, 0, 0, 0, 0]);
}

#[test]
fn check_ripped_refuses_empty_files() {
    assert_eq!(check_ripped(vec![1, 2]), Ok(vec![1, 2]));
    assert_eq!(
        check_ripped(vec![]),
        Err("Empty files cannot be embedded! File names are not retained, so it's pointless anyway".to_string())
    );
}

#[test]
fn new_takes_a_negative_size() {
    let src = EmbedSource::new(-3, 10, 7);
    assert_eq!(src.size, -3);
    assert_eq!(src.frame_size, Size::new(10, 7));
    assert_eq!(src.actual_size, Size::new(9, 6));
    assert!(src.image.data.iter().all(|v| *v == 0));
}
