use image::png::PNGDecoder;
use image::{ColorType, DecodingResult, ImageDecoder};
use mandelbrot::encode::{encode_png, encoding_of, header_sides, EncodeError};
use mandelbrot::grid::Bounds;

const SIGNATURE: [u8; 8] = [137, 80, 78, 71, 13, 10, 26, 10];

#[test]
fn encode_png_writes_a_png_file() {
    let bounds = Bounds { width: 3, height: 2 };
    let pixels = vec![0u8, 50, 100, 150, 200, 255];
    let file = encode_png(&pixels, &bounds).unwrap();
    assert_ne!(file, pixels);
    assert_eq!(file[..8], SIGNATURE);
    // The header chunk: its length, its name, then width and height.
    assert_eq!(file[8..16], [0, 0, 0, 13, b'I', b'H', b'D', b'R']);
    assert_eq!(file[16..24], [0, 0, 0, 3, 0, 0, 0, 2]);
    // Eight bits to the sample, grayscale.
    assert_eq!(file[24..26], [8, 0]);
    assert_eq!(file[file.len() - 8..file.len() - 4], *b"IEND");
}

#[test]
fn encode_png_can_be_decoded_to_the_same_pixels() {
    let bounds = Bounds { width: 17, height: 9 };
    let pixels: Vec<u8> = (0..17 * 9).map(|i| (i * 7 % 256) as u8).collect();
    let file = encode_png(&pixels, &bounds).unwrap();
    let mut decoder = PNGDecoder::new(&file[..]);
    assert_eq!(decoder.dimensions().unwrap(), (17, 9));
    assert_eq!(decoder.colortype().unwrap(), ColorType::Gray(8));
    match decoder.read_image().unwrap() {
        DecodingResult::U8(decoded) => assert_eq!(decoded, pixels),
        DecodingResult::U16(_) => panic!("sixteen bits to the sample"),
    }
}

#[test]
fn encode_png_gives_the_same_file_for_the_same_image() {
    let bounds = Bounds { width: 8, height: 8 };
    let pixels: Vec<u8> = (0..64).map(|i| (i * 4) as u8).collect();
    let first = encode_png(&pixels, &bounds).unwrap();
    let second = encode_png(&pixels, &bounds).unwrap();
    assert_eq!(first, second);
    let other: Vec<u8> = (0..64).map(|i| (i * 3) as u8).collect();
    assert_ne!(encode_png(&other, &bounds).unwrap(), first);
    let tall = Bounds { width: 4, height: 16 };
    assert_ne!(encode_png(&pixels, &tall).unwrap(), first);
}

#[test]
fn encode_png_of_a_single_pixel() {
    let file = encode_png(&[128], &Bounds { width: 1, height: 1 }).unwrap();
    assert_eq!(file[..8], SIGNATURE);
    let mut decoder = PNGDecoder::new(&file[..]);
    assert_eq!(decoder.dimensions().unwrap(), (1, 1));
}

#[test]
fn encoding_of_keeps_the_file() {
    assert_eq!(encoding_of(Ok(vec![1, 2, 3])).unwrap(), vec![1, 2, 3]);
    assert_eq!(encoding_of(Ok(vec![])).unwrap(), vec![]);
}

#[test]
fn encoding_of_keeps_the_cause_of_a_failure() {
    let failure = std::io::Error::new(std::io::ErrorKind::Other, "not enough image data provided");
    match encoding_of(Err(failure)) {
        Err(EncodeError::Encoder(cause)) => {
            assert_eq!(cause.kind(), std::io::ErrorKind::Other);
            assert_eq!(cause.to_string(), "not enough image data provided");
        }
        other => panic!("{:?}", other),
    }
    let denied = std::io::Error::new(std::io::ErrorKind::PermissionDenied, "read-only");
    match encoding_of(Err(denied)) {
        Err(EncodeError::Encoder(cause)) => {
            assert_eq!(cause.kind(), std::io::ErrorKind::PermissionDenied);
            assert_eq!(cause.to_string(), "read-only");
        }
        other => panic!("{:?}", other),
    }
}

fn decoded(file: &[u8]) -> ((u32, u32), Vec<u8>) {
    let mut decoder = PNGDecoder::new(file);
    let sides = decoder.dimensions().unwrap();
    match decoder.read_image().unwrap() {
        DecodingResult::U8(pixels) => (sides, pixels),
        DecodingResult::U16(_) => panic!("sixteen bits to the sample"),
    }
}

#[test]
fn encode_png_succeeds_for_images_of_every_shape() {
    let shapes = [
        (1usize, 1usize), (1, 2), (2, 1), (1, 1000), (1000, 1), (7, 13), (255, 3), (256, 256),
        (257, 5), (640, 480), (65536, 1), (1, 65536), (70000, 2), (3, 70000), (131589, 1),
    ];
    for (width, height) in shapes {
        let bounds = Bounds { width, height };
        // Levels without a pattern that compresses away.
        let mut state: u32 = 12345;
        let pixels: Vec<u8> = (0..width * height)
            .map(|_| {
                state = state.wrapping_mul(1103515245).wrapping_add(12345);
                (state >> 16) as u8
            })
            .collect();
        let file = encode_png(&pixels, &bounds).unwrap();
        let (sides, back) = decoded(&file);
        assert_eq!(sides, (width as u32, height as u32));
        assert_eq!(back, pixels);
        let flat = vec![0u8; width * height];
        let (_, back) = decoded(&encode_png(&flat, &bounds).unwrap());
        assert_eq!(back, flat);
    }
}

#[test]
fn encode_png_succeeds_for_a_large_image() {
    let bounds = Bounds { width: 1500, height: 1000 };
    let pixels: Vec<u8> = (0..1500 * 1000usize).map(|i| (i * i % 251) as u8).collect();
    let (sides, back) = decoded(&encode_png(&pixels, &bounds).unwrap());
    assert_eq!(sides, (1500, 1000));
    assert_eq!(back, pixels);
}

#[test]
fn header_sides_are_the_sides_of_the_image() {
    assert_eq!(header_sides(&Bounds { width: 1000, height: 750 }).unwrap(), (1000, 750));
    assert_eq!(header_sides(&Bounds { width: 1, height: 1 }).unwrap(), (1, 1));
    if usize::BITS >= 64 {
        let longest = u32::MAX as usize;
        assert_eq!(
            header_sides(&Bounds { width: longest, height: longest }).unwrap(),
            (u32::MAX, u32::MAX)
        );
    }
}

#[test]
fn header_sides_refuse_a_side_too_long_for_the_header() {
    if usize::BITS >= 64 {
        let too_long = u32::MAX as usize + 1;
        assert!(matches!(
            header_sides(&Bounds { width: too_long, height: 1 }),
            Err(EncodeError::TooLarge)
        ));
        assert!(matches!(
            header_sides(&Bounds { width: 1, height: too_long }),
            Err(EncodeError::TooLarge)
        ));
    } else {
        assert!(matches!(
            header_sides(&Bounds { width: usize::MAX, height: 1 }),
            Err(EncodeError::TooLarge)
        ));
    }
}
