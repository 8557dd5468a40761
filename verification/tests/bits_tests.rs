use isg::bits::{rip_binary, rip_binary_u32, translate_u32, translate_u8};

fn bits(s: &str) -> Vec<bool> {
    s.chars().filter(|c| *c == '0' || *c == '1').map(|c| c == '1').collect()
}

#[test]
fn rip_binary_msb_first() {
    assert_eq!(rip_binary(vec![0xA5]), bits("10100101"));
    assert_eq!(rip_binary(vec![1, 128]), bits("00000001 10000000"));
    assert_eq!(rip_binary(vec![]), Vec::<bool>::new());
}

#[test]
fn rip_binary_u32_msb_first() {
    let out = rip_binary_u32(vec![1]);
    assert_eq!(out.len(), 32);
    assert_eq!(out, bits("00000000 00000000 00000000 00000001"));
    let all = rip_binary_u32(vec![u32::MAX, 0]);
    assert_eq!(all.len(), 64);
    assert!(all[..32].iter().all(|b| *b));
    assert!(all[32..].iter().all(|b| !*b));
}

#[test]
fn translate_u8_groups_of_eight() {
    assert_eq!(translate_u8(bits("10100101 00000001")), vec![0xA5, 1]);
    // Bits after the last whole byte are dropped.
    assert_eq!(translate_u8(bits("11111111 101")), vec![255]);
    assert_eq!(translate_u8(bits("1010")), Vec::<u8>::new());
}

#[test]
fn translate_u32_groups_of_thirty_two() {
    let mut b = rip_binary_u32(vec![0xDEADBEEF, 7]);
    b.push(true);
    assert_eq!(translate_u32(b), vec![0xDEADBEEF, 7]);
}

#[test]
fn bytes_roundtrip_law() {
    let data: Vec<u8> = (0..=255u8).collect();
    assert_eq!(translate_u8(rip_binary(data.clone())), data);
}

#[test]
fn bits_roundtrip_law() {
    let b = bits("0110 1001 1111 0000 0000 0001");
    assert_eq!(rip_binary(translate_u8(b.clone())), b);
}

#[test]
fn u32_roundtrip_law() {
    let words = vec![0, 1, 0x8000_0000, u32::MAX, 123456789];
    assert_eq!(translate_u32(rip_binary_u32(words.clone())), words);
}

#[test]
fn bits_to_bytes_append_law() {
    let a = bits("10000001");
    let b = bits("01111110 11");
    let mut ab = a.clone();
    ab.extend(b.iter().cloned());
    let mut joined = translate_u8(a);
    joined.extend(translate_u8(b));
    assert_eq!(translate_u8(ab), joined);
}
