use qoi::{hash, wrap_add, wrap_mul, wrap_sub, Decoder, Encoder, Image, Pixel, QoiOp};

fn px(r: u8, g: u8, b: u8, a: u8) -> Pixel {
    Pixel { r, g, b, a }
}

fn image(width: u32, height: u32, pixels: Vec<Pixel>) -> Image {
    Image { width, height, pixels }
}

fn encode(img: &Image) -> Vec<u8> {
    Encoder::new(img.width, img.height).encode(img)
}

fn decode(data: &[u8]) -> Option<Image> {
    Decoder::new().decode(data)
}

const FOOTER: [u8; 8] = [0, 0, 0, 0, 0, 0, 0, 1];

fn header(width: u32, height: u32) -> Vec<u8> {
    let mut v = b"qoif".to_vec();
    v.extend_from_slice(&width.to_be_bytes());
    v.extend_from_slice(&height.to_be_bytes());
    v.push(4);
    v.push(0);
    v
}

fn stream(width: u32, height: u32, body: &[u8]) -> Vec<u8> {
    let mut v = header(width, height);
    v.extend_from_slice(body);
    v.extend_from_slice(&FOOTER);
    v
}

fn assert_round_trip(img: &Image) {
    let data = encode(img);
    let back = decode(&data).expect("decodes");
    assert_eq!(back.width, img.width);
    assert_eq!(back.height, img.height);
    assert_eq!(back.pixels, img.pixels);
}

#[test]
fn test_wrapping_macro() {
    assert_eq!(wrap_mul(50u8, 6u8), 44);
    assert_eq!(wrap_add(250u8, 6u8), 0);
    assert_eq!(wrap_add(wrap_mul(50u8, 6u8), 1), 45);
    assert_eq!(wrap_add(wrap_mul(50u8, 6u8), wrap_add(34u8, wrap_mul(69u8, 8u8))), 118);
}

#[test]
fn wrap_sub_wraps_below_zero() {
    assert_eq!(wrap_sub(3, 5), 254);
    assert_eq!(wrap_sub(5, 3), 2);
}

#[test]
fn hash_of_known_pixels() {
    assert_eq!(hash(&px(0, 0, 0, 255)), 53);
    assert_eq!(hash(&px(10, 20, 30, 255)), 9);
    assert_eq!(hash(&px(200, 0, 0, 255)), 13);
    assert_eq!(hash(&px(255, 255, 255, 255)), (3 * 255 + 5 * 255 + 7 * 255 + 11 * 255) % 64);
}

#[test]
fn op_wire_forms() {
    assert_eq!(QoiOp::RGB { r: 1, g: 2, b: 3 }.to_bytes(), vec![0xfe, 1, 2, 3]);
    assert_eq!(QoiOp::RGBA { r: 1, g: 2, b: 3, a: 4 }.to_bytes(), vec![0xff, 1, 2, 3, 4]);
    assert_eq!(QoiOp::Index { idx: 63 }.to_bytes(), vec![0x3f]);
    assert_eq!(QoiOp::Diff { dr: 3, dg: 1, db: 2 }.to_bytes(), vec![0x76]);
    assert_eq!(QoiOp::Luma { dg: 44, dr_dg: 6, db_dg: 1 }.to_bytes(), vec![0xac, 0x61]);
    assert_eq!(QoiOp::Run { len: 1 }.to_bytes(), vec![0xc0]);
    assert_eq!(QoiOp::Run { len: 62 }.to_bytes(), vec![0xfd]);
}

#[test]
fn op_parse_each_kind() {
    let ops = [
        QoiOp::RGB { r: 9, g: 8, b: 7 },
        QoiOp::RGBA { r: 9, g: 8, b: 7, a: 6 },
        QoiOp::Index { idx: 17 },
        QoiOp::Diff { dr: 0, dg: 3, db: 1 },
        QoiOp::Luma { dg: 63, dr_dg: 15, db_dg: 0 },
        QoiOp::Run { len: 62 },
    ];
    for op in ops {
        let mut bytes = op.to_bytes();
        bytes.push(0xaa);
        let (parsed, rest) = QoiOp::from_bytes(&bytes);
        assert_eq!(parsed, Some(op));
        assert_eq!(rest, &[0xaa]);
    }
}

#[test]
fn op_parse_short_buffers() {
    for buf in [&[][..], &[0xfe, 1, 2][..], &[0xff, 1, 2, 3][..], &[0x80][..]] {
        let (parsed, rest) = QoiOp::from_bytes(buf);
        assert_eq!(parsed, None);
        assert_eq!(rest, buf);
    }
}

#[test]
fn scenario_single_pixel() {
    let img = image(1, 1, vec![px(10, 20, 30, 255)]);
    let data = encode(&img);
    let expected: Vec<u8> = vec![
        b'q', b'o', b'i', b'f', 0, 0, 0, 1, 0, 0, 0, 1, 4, 0, 0xfe, 0x0a, 0x14, 0x1e, 0, 0, 0, 0,
        0, 0, 0, 1,
    ];
    assert_eq!(data, expected);
    assert_eq!(data.len(), 26);
}

#[test]
fn scenario_run_of_default_pixels() {
    let img = image(5, 1, vec![px(0, 0, 0, 255); 5]);
    let data = encode(&img);
    assert_eq!(data, stream(5, 1, &[0xc4]));
    assert_eq!(data.len(), 23);
}

#[test]
fn scenario_decode_to_raw_bytes() {
    let data = encode(&image(1, 1, vec![px(10, 20, 30, 255)]));
    let img = decode(&data).expect("decodes");
    assert_eq!(img.width, 1);
    assert_eq!(img.height, 1);
    assert_eq!(img.to_rgba_bytes(), vec![10, 20, 30, 255]);
}

#[test]
fn run_of_130_splits_in_chunks_of_62() {
    let q = px(7, 7, 7, 255);
    let img = image(131, 1, vec![q; 131]);
    let data = encode(&img);
    assert_eq!(data, stream(131, 1, &[0xa7, 0x88, 0xc0 + 61, 0xc0 + 61, 0xc0 + 5]));
    let defaults = image(130, 1, vec![px(0, 0, 0, 255); 130]);
    assert_eq!(encode(&defaults), stream(130, 1, &[0xfd, 0xfd, 0xc5]));
    assert_round_trip(&img);
    assert_round_trip(&defaults);
}

#[test]
fn run_of_124_is_two_full_runs() {
    let img = image(124, 1, vec![px(0, 0, 0, 255); 124]);
    assert_eq!(encode(&img), stream(124, 1, &[0xfd, 0xfd]));
}

#[test]
fn index_is_chosen_for_a_cached_pixel() {
    let a = px(10, 20, 30, 255);
    let b = px(200, 0, 0, 255);
    let img = image(3, 1, vec![a, b, a]);
    assert_eq!(encode(&img), stream(3, 1, &[0xfe, 10, 20, 30, 0xfe, 200, 0, 0, 9]));
    assert_round_trip(&img);
}

#[test]
fn default_pixel_after_another_is_index() {
    let img = image(2, 1, vec![px(1, 1, 1, 255), px(0, 0, 0, 255)]);
    let data = encode(&img);
    assert_eq!(data, stream(2, 1, &[0x7f, 53]));
    assert_round_trip(&img);
}

#[test]
fn each_operation_kind_is_emitted() {
    let diff = image(1, 1, vec![px(1, 255, 0, 255)]);
    assert_eq!(encode(&diff), stream(1, 1, &[0x76]));
    let luma = image(1, 1, vec![px(10, 12, 5, 255)]);
    assert_eq!(encode(&luma), stream(1, 1, &[0xac, 0x61]));
    let rgba = image(1, 1, vec![px(1, 2, 3, 4)]);
    assert_eq!(encode(&rgba), stream(1, 1, &[0xff, 1, 2, 3, 4]));
    for img in [diff, luma, rgba] {
        assert_round_trip(&img);
    }
}

#[test]
fn round_trip_empty_image() {
    let img = image(0, 0, vec![]);
    let data = encode(&img);
    assert_eq!(data, stream(0, 0, &[]));
    assert_round_trip(&img);
}

#[test]
fn round_trip_mixed_image() {
    let mut pixels = Vec::new();
    for i in 0..200u32 {
        let v = (i * 37 % 256) as u8;
        let p = match i % 7 {
            0 => px(v, v, v, 255),
            1 => px(v, v.wrapping_add(1), v.wrapping_sub(1), 255),
            2 => px(v, 0, 255 - v, (i % 3) as u8 * 100),
            3 => px(0, 0, 0, 255),
            _ => px(1, 2, 3, 4),
        };
        let reps = if i % 11 == 0 { 70 } else { 1 + i % 3 };
        for _ in 0..reps {
            pixels.push(p);
        }
    }
    let n = pixels.len() as u32;
    assert_round_trip(&image(n, 1, pixels.clone()));
    if n % 2 == 0 {
        assert_round_trip(&image(n / 2, 2, pixels));
    }
}

#[test]
fn header_fidelity() {
    let img = image(3, 2, vec![px(5, 5, 5, 5); 6]);
    let data = Encoder::new(0x01020304, 0xa0b0c0d0).encode(&img);
    assert_eq!(&data[0..4], b"qoif");
    assert_eq!(&data[4..8], &[1, 2, 3, 4]);
    assert_eq!(&data[8..12], &[0xa0, 0xb0, 0xc0, 0xd0]);
    assert_eq!(&data[data.len() - 8..], &FOOTER);
}

#[test]
fn decode_fails_on_short_input() {
    let data = encode(&image(1, 1, vec![px(10, 20, 30, 255)]));
    assert!(decode(&data[..13]).is_none());
    assert!(decode(&[]).is_none());
}

#[test]
fn decode_fails_on_bad_magic() {
    let mut data = encode(&image(1, 1, vec![px(10, 20, 30, 255)]));
    data[0] = b'Q';
    assert!(decode(&data).is_none());
}

#[test]
fn decode_fails_on_bad_footer() {
    let mut data = encode(&image(1, 1, vec![px(10, 20, 30, 255)]));
    let last = data.len() - 1;
    data[last] = 2;
    assert!(decode(&data).is_none());
    let mut longer = encode(&image(1, 1, vec![px(10, 20, 30, 255)]));
    longer.push(0);
    assert!(decode(&longer).is_none());
}

#[test]
fn decode_fails_on_truncated_body() {
    let data = stream(2, 1, &[0xfe, 1, 2]);
    assert!(decode(&data[..data.len() - 8]).is_none());
    let short = header(3, 1);
    assert!(decode(&short).is_none());
}

#[test]
fn decode_caps_an_overlong_run() {
    let data = stream(2, 1, &[0xc4]);
    let img = decode(&data).expect("decodes");
    assert_eq!(img.pixels, vec![px(0, 0, 0, 255); 2]);
}

#[test]
fn decoder_can_be_reused() {
    let mut d = Decoder::new();
    let data = encode(&image(2, 1, vec![px(9, 9, 9, 9), px(1, 2, 3, 4)]));
    let first = d.decode(&data).expect("decodes");
    let second = d.decode(&data).expect("decodes");
    assert_eq!(first.pixels, second.pixels);
}
