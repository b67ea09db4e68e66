use std::io::BufWriter;

use bitstream_io::{BitWrite, BitWriter, LittleEndian};
use image::{Rgba, RgbaImage};
use lsb_reader::{ByteReader, PixelGrid};

const H: u8 = b'H';
const E: u8 = b'e';
const L: u8 = b'l';
const O: u8 = b'o';
const WIDTH: u32 = 515;
const HEIGHT: u32 = 443;

/// A picture whose colours come from a fixed generator, so that every run
/// sees the same one.
fn noisy_picture(width: u32, height: u32) -> RgbaImage {
    let mut state: u32 = 0x2545_f491;
    let mut picture = RgbaImage::new(width, height);
    for y in 0..height {
        for x in 0..width {
            let mut channels = [0u8; 4];
            for channel in channels.iter_mut() {
                state = state.wrapping_mul(1_664_525).wrapping_add(1_013_904_223);
                *channel = (state >> 24) as u8;
            }
            picture.put_pixel(x, y, Rgba(channels));
        }
    }
    picture
}

/// Hides `payload` in the lowest bits of red, green and blue: column by
/// column, each column downwards, the lowest bit of each byte first.
fn embed(picture: &mut RgbaImage, payload: &[u8]) {
    let height = picture.height() as usize;
    for (i, byte) in payload.iter().enumerate() {
        for bit in 0..8 {
            let place = i * 8 + bit;
            let pixel = place / 3;
            let x = (pixel / height) as u32;
            let y = (pixel % height) as u32;
            let channel = &mut picture.get_pixel_mut(x, y).0[place % 3];
            *channel = (*channel & 0xfe) | ((byte >> bit) & 1);
        }
    }
}

fn reader_of(picture: RgbaImage) -> ByteReader {
    let (width, height) = picture.dimensions();
    let grid = PixelGrid::from_raw(width, height, picture.into_raw())
        .expect("a picture has all its samples");
    ByteReader::of_image(grid)
}

fn hello_world() -> ByteReader {
    let mut picture = noisy_picture(WIDTH, HEIGHT);
    embed(&mut picture, b"\x01Hello World!");
    reader_of(picture)
}

fn archive_payload() -> Vec<u8> {
    let mut payload = vec![0x01, b'P', b'K', 0x03, 0x04];
    while payload.len() < 338 {
        payload.push((payload.len() * 7 % 251) as u8);
    }
    payload
}

#[test]
fn test_read_trait_behaviour_for_read_once() {
    let mut dec = hello_world();

    let mut buf = [0 as u8; 13];
    let r = dec.read(&mut buf);
    assert_eq!(r, 13, "bytes should have been read");
    assert_eq!(buf[0], 0x1, "1st byte does not match");
    assert_eq!(buf[1], H, "2nd byte is not a 'H'");
    assert_eq!(buf[2], E, "3rd byte is not a 'e'");
    assert_eq!(buf[3], L, "4th byte is not a 'l'");

    println!("{}", std::str::from_utf8(&buf).unwrap());
    assert_eq!(std::str::from_utf8(&buf).unwrap(), "\u{1}Hello World!");
}

#[test]
fn test_read_trait_behaviour_for_read_multiple_times() {
    let mut dec = hello_world();

    let mut buf = [0 as u8; 3];
    let r = dec.read(&mut buf);
    assert_eq!(r, 3, "bytes should have been read");
    assert_eq!(buf[0], 0x1, "1st byte does not match");
    assert_eq!(buf[1], H, "2nd byte is not a 'H'");
    assert_eq!(buf[2], E, "3rd byte is not a 'e'");
    assert_eq!(std::str::from_utf8(&buf).unwrap(), "\u{1}He");

    let r = dec.read(&mut buf);
    assert_eq!(r, 3, "bytes should have been read");
    assert_eq!(buf[0], L, "4th byte is not a 'l'");
    assert_eq!(buf[1], L, "5th byte is not a 'l'");
    assert_eq!(buf[2], O, "6th byte is not a 'o'");
    assert_eq!(std::str::from_utf8(&buf).unwrap(), "llo");
}

#[test]
fn test_read_trait_behaviour_for_read_all() {
    let mut dec = hello_world();
    let expected_bytes = ((515 * 443 * 3) / 8) as usize;

    let mut buf = Vec::new();
    let r = dec.read_to_end(&mut buf);
    assert_eq!(r, expected_bytes, "bytes should have been read"); // filesize
    assert_eq!(buf[0], 0x1, "1st byte does not match");
    assert_eq!(buf[1], H, "2nd byte is not a 'H'");
    assert_eq!(buf[2], E, "3rd byte is not a 'e'");
    assert_eq!(buf.len(), expected_bytes);
    assert_eq!(&buf[..13], b"\x01Hello World!");

    let mut more = [0u8; 4];
    assert_eq!(dec.read(&mut more), 0);
    assert_eq!(dec.read_to_end(&mut buf), 0);
    assert_eq!(buf.len(), expected_bytes);
}

#[test]
fn should_not_contain_noise_bytes() {
    let payload = archive_payload();
    let mut picture = noisy_picture(WIDTH, HEIGHT);
    embed(&mut picture, &payload);
    let mut dec = reader_of(picture);
    let expected_bytes = ((515 * 443 * 3) / 8) as usize;
    let zip_file_size = 337;

    let mut buf = Vec::new();
    let r = dec.read_to_end(&mut buf);
    assert_eq!(r, expected_bytes, "bytes should have been read"); // filesize
    assert_eq!(&buf[1..1 + zip_file_size], &payload[1..]);
}

#[test]
fn test_bit_writer() {
    let b = vec![0b0100_1000, 0b0110_0001, 0b0110_1100];
    let mut buf = Vec::with_capacity(3);

    {
        let mut buf_writer = BufWriter::new(&mut buf);
        let mut bit_buffer = BitWriter::endian(&mut buf_writer, LittleEndian);

        bit_buffer.write_bit((0 & 1) == 1).expect("1 failed");
        bit_buffer.write_bit((0 & 1) == 1).expect("2 failed");
        bit_buffer.write_bit((0 & 1) == 1).expect("3 failed");
        bit_buffer.write_bit((1 & 1) == 1).expect("4 failed");
        bit_buffer.write_bit((0 & 1) == 1).expect("5 failed");
        bit_buffer.write_bit((0 & 1) == 1).expect("6 failed");
        bit_buffer.write_bit((1 & 1) == 1).expect("7 failed");
        bit_buffer.write_bit((0 & 1) == 1).expect("8 failed");
    }

    assert_eq!(*buf.first().unwrap(), H);

    // The same three bytes, bit by bit, through a reader.
    let mut picture = RgbaImage::new(2, 4);
    embed(&mut picture, &b);
    let mut dec = reader_of(picture);
    let mut out = [0u8; 3];
    assert_eq!(dec.read(&mut out), 3);
    assert_eq!(out[0], H);
    assert_eq!(out.to_vec(), b);
}
