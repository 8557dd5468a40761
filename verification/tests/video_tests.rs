use isg::bits::{rip_binary, translate_u8};
use isg::embedsource::{EmbedSource, Size};
use isg::etcher::{etch_instructions, read_bw, read_instructions, INSTRUCTION_SIZE, READ_FPS};
use isg::settings::{Data, OutputMode, Settings};
use isg::video::{chunk_data_size, dislodge_frame, etch_bw_frames, etch_color_frames};

#[test]
fn data_constructors() {
    let d = Data::from_binary(vec![true, false]);
    assert_eq!(d.out_mode, OutputMode::Binary);
    assert_eq!(d.binary, vec![true, false]);
    assert!(d.bytes.is_empty());
    let d = Data::from_color(vec![1, 2, 3]);
    assert_eq!(d.out_mode, OutputMode::Color);
    assert_eq!(d.bytes, vec![1, 2, 3]);
    assert!(d.binary.is_empty());
}

#[test]
fn settings_new_keeps_fields() {
    let s = Settings::new(2, 10, 1280, 720);
    assert_eq!(s, Settings { size: 2, fps: 10, width: 1280, height: 720 });
}

#[test]
fn instructions_roundtrip_binary() {
    let settings = Settings::new(2, 10, 80, 40);
    let data = Data::from_binary(vec![true; 100]);
    let frame = etch_instructions(&settings, &data);
    assert_eq!(frame.size, INSTRUCTION_SIZE);
    assert_eq!(frame.frame_size, Size::new(80, 40));
    // 3200 pixels, 800 blocks of 2x2: the data ends in frame 1 at bit 100
    let (mode, final_frame, final_byte, read) = read_instructions(&frame);
    assert_eq!(mode, OutputMode::Binary);
    assert_eq!(final_frame, 1);
    assert_eq!(final_byte, 100);
    assert_eq!(read, Settings::new(2, READ_FPS, 80, 40));
}

#[test]
fn instructions_roundtrip_color() {
    let settings = Settings::new(1, 10, 80, 40);
    let data = Data::from_color(vec![9; 6401]);
    let frame = etch_instructions(&settings, &data);
    let (mode, final_frame, final_byte, read) = read_instructions(&frame);
    assert_eq!(mode, OutputMode::Color);
    // 3200 blocks hold 9600 bytes: all 6401 fit in frame 1
    assert_eq!(final_frame, 1);
    assert_eq!(final_byte, 6401);
    assert_eq!(read.size, 1);
    assert_eq!(read.width, 80);
    assert_eq!(read.height, 40);
}

#[test]
fn instructions_record_a_full_last_frame() {
    // 4000 bits on 4000 blocks: the data ends at the end of frame 1
    let settings = Settings::new(1, 10, 80, 50);
    let data = Data::from_binary(vec![true; 4000]);
    let frame = etch_instructions(&settings, &data);
    let (_, final_frame, final_bit, _) = read_instructions(&frame);
    assert_eq!((final_frame, final_bit), (1, 4000));
    // 9601 bytes at 9600 per frame end in frame 2 after one byte
    let settings = Settings::new(1, 10, 80, 40);
    let data = Data::from_color(vec![1; 9601]);
    let frame = etch_instructions(&settings, &data);
    let (_, final_frame, final_byte, _) = read_instructions(&frame);
    assert_eq!((final_frame, final_byte), (2, 1));
}

#[test]
fn binary_data_filling_a_frame_reads_back() {
    let settings = Settings::new(1, 10, 80, 50);
    let bytes: Vec<u8> = (0..500u32).map(|i| (i * 7 % 256) as u8).collect();
    let bits = rip_binary(bytes.clone());
    let instructions = etch_instructions(&settings, &Data::from_binary(bits.clone()));
    let (mode, final_frame, final_bit, _) = read_instructions(&instructions);
    let frames = etch_bw_frames(&settings, &bits);
    assert_eq!(frames.len(), 1);
    let out = dislodge_frame(&frames[0], mode, 1, final_frame, final_bit);
    assert_eq!(out, bytes);
}

#[test]
fn color_data_reads_back_exactly() {
    let settings = Settings::new(1, 10, 80, 50);
    for len in [1usize, 4, 12000, 12001] {
        let bytes: Vec<u8> = (0..len).map(|i| (i % 251) as u8 + 1).collect();
        let instructions = etch_instructions(&settings, &Data::from_color(bytes.clone()));
        let (mode, final_frame, final_byte, _) = read_instructions(&instructions);
        assert_eq!(mode, OutputMode::Color);
        let frames = etch_color_frames(&settings, &bytes);
        assert_eq!(frames.len() as i32, final_frame);
        let mut out = Vec::new();
        for (i, frame) in frames.iter().enumerate() {
            out.extend(dislodge_frame(frame, mode, i as i32 + 1, final_frame, final_byte));
        }
        assert_eq!(out, bytes);
    }
}

#[test]
fn instruction_frame_bits() {
    let settings = Settings::new(3, 10, 80, 40);
    let data = Data::from_binary(vec![false; 5]);
    let frame = etch_instructions(&settings, &data);
    let bits = read_bw(&frame, 0, 1, 0);
    assert_eq!(bits.len(), 128);
    // first word is the binary mode marker, all zeros
    assert!(bits[..32].iter().all(|b| !*b));
    // final frame 1
    assert!(bits[32..63].iter().all(|b| !*b));
    assert!(bits[63]);
}

#[test]
fn embed_then_dislodge_binary() {
    let settings = Settings::new(1, 10, 16, 1);
    let bytes = b"abc".to_vec();
    let bits = rip_binary(bytes.clone());
    let frames = etch_bw_frames(&settings, &bits);
    assert_eq!(frames.len(), 2);
    let instr_settings = Settings::new(1, 10, 80, 40);
    let _ = instr_settings;
    // recorded values: 24 bits, 16 per frame
    let final_frame = 24 / 16 + 1;
    let final_byte = 24 % 16;
    let mut out = Vec::new();
    for (i, frame) in frames.iter().enumerate() {
        out.extend(dislodge_frame(frame, OutputMode::Binary, i as i32 + 1, final_frame, final_byte));
    }
    assert_eq!(out, bytes);
}

#[test]
fn embed_then_dislodge_binary_whole_frames() {
    // 32 bits at 16 blocks per frame: two full frames, the last recorded
    // as holding 16 bits
    let settings = Settings::new(2, 10, 8, 8);
    let bytes = vec![0x0F, 0xF0, 0xAA, 0x55];
    let bits = rip_binary(bytes.clone());
    let frames = etch_bw_frames(&settings, &bits);
    assert_eq!(frames.len(), 2);
    let mut out = Vec::new();
    for (i, frame) in frames.iter().enumerate() {
        out.extend(dislodge_frame(frame, OutputMode::Binary, i as i32 + 1, 2, 16));
    }
    assert_eq!(out, bytes);
}

#[test]
fn dislodge_keeps_a_full_last_frame() {
    // 16 bits, 16 blocks: the final frame 1 holds all 16 bits
    let settings = Settings::new(1, 10, 16, 1);
    let bits = rip_binary(vec![1, 2]);
    let frames = etch_bw_frames(&settings, &bits);
    assert_eq!(frames.len(), 1);
    assert_eq!(dislodge_frame(&frames[0], OutputMode::Binary, 1, 1, 16), vec![1, 2]);
}

#[test]
fn embed_then_dislodge_color() {
    let settings = Settings::new(1, 10, 2, 2);
    let bytes: Vec<u8> = (1..=20).collect();
    let frames = etch_color_frames(&settings, &bytes);
    assert_eq!(frames.len(), 2);
    let mut out = Vec::new();
    for (i, frame) in frames.iter().enumerate() {
        out.extend(dislodge_frame(frame, OutputMode::Color, i as i32 + 1, 2, 8));
    }
    assert_eq!(out, bytes);
}

#[test]
fn color_final_frame_is_cut() {
    let settings = Settings::new(1, 10, 2, 2);
    let bytes: Vec<u8> = (1..=4).collect();
    let frames = etch_color_frames(&settings, &bytes);
    assert_eq!(frames.len(), 1);
    assert_eq!(dislodge_frame(&frames[0], OutputMode::Color, 1, 1, 4), vec![1, 2, 3, 4]);
    // not the final frame: every block is read
    assert_eq!(
        dislodge_frame(&frames[0], OutputMode::Color, 1, 2, 4),
        vec![1, 2, 3, 4, 0, 0, 0, 0, 0, 0, 0, 0]
    );
}

#[test]
fn color_chunks_for_any_thread_count() {
    // 13 bytes on 12 bytes per frame: two workers get 12 and 1 bytes
    let settings = Settings::new(1, 10, 2, 2);
    let bytes: Vec<u8> = (1..=13).collect();
    let whole = etch_color_frames(&settings, &bytes);
    for threads in 1..=4usize {
        let chunk = chunk_data_size(&settings, OutputMode::Color, bytes.len(), threads);
        assert_eq!(chunk % 12, 0);
        let mut frames = Vec::new();
        for part in bytes.chunks(chunk) {
            frames.extend(etch_color_frames(&settings, &part.to_vec()));
        }
        assert_eq!(frames.len(), whole.len());
        for (a, b) in frames.iter().zip(whole.iter()) {
            assert_eq!(a.image.data, b.image.data);
        }
    }
    assert_eq!(chunk_data_size(&settings, OutputMode::Color, 13, 2), 12);
}

#[test]
fn chunked_frames_match_whole() {
    let settings = Settings::new(1, 10, 8, 1);
    let bits = rip_binary(vec![1, 2, 3, 4, 5]);
    let whole = etch_bw_frames(&settings, &bits);
    let a = etch_bw_frames(&settings, &bits[..16].to_vec());
    let b = etch_bw_frames(&settings, &bits[16..].to_vec());
    assert_eq!(whole.len(), a.len() + b.len());
    for (w, p) in whole.iter().zip(a.iter().chain(b.iter())) {
        assert_eq!(w.image.data, p.image.data);
    }
}

#[test]
fn chunk_data_size_values() {
    let settings = Settings::new(2, 10, 8, 8);
    // 16 blocks per frame; 100 bits are 6 frames; 2 threads take 4 frames each
    assert_eq!(chunk_data_size(&settings, OutputMode::Binary, 100, 2), 64);
    // colour: 48 bytes per frame; 100 bytes are 2 frames; 1 thread takes 3
    assert_eq!(chunk_data_size(&settings, OutputMode::Color, 100, 1), 144);
}

#[test]
fn frames_translate_back() {
    let settings = Settings::new(1, 10, 8, 1);
    let bits = rip_binary(vec![200]);
    let frames = etch_bw_frames(&settings, &bits);
    assert_eq!(frames.len(), 1);
    assert_eq!(translate_u8(read_bw(&frames[0], 1, 2, 0)), vec![200]);
    let src: &EmbedSource = &frames[0];
    assert_eq!(src.frame_size, Size::new(8, 1));
}

#[test]
fn instructions_without_a_data_block() {
    // 10-pixel blocks do not fit a 5-pixel-wide frame: no data frame can
    // hold anything, and the instruction frame records frame 0, item 0
    let settings = Settings::new(10, 10, 5, 1000);
    let data = Data::from_binary(vec![true; 16]);
    let frame = etch_instructions(&settings, &data);
    assert_eq!(frame.size, INSTRUCTION_SIZE);
    assert_eq!(frame.frame_size, Size::new(5, 1000));
    let bits = read_bw(&frame, 0, 1, 0);
    assert_eq!(bits.len(), 200);
    // final frame and final item are all zeros; the block size word is 10
    assert!(bits[32..96].iter().all(|b| !*b));
    assert!(bits[96..124].iter().all(|b| !*b));
    assert_eq!(&bits[124..128], &[true, false, true, false]);
    let (mode, final_frame, final_item, read) = read_instructions(&frame);
    assert_eq!((mode, final_frame, final_item), (OutputMode::Binary, 0, 0));
    assert_eq!(read, Settings::new(10, READ_FPS, 5, 1000));
}
