use qrgen::bits::encode_latin;
use qrgen::error_correction::{self as ec, generate_log, generator_polys, GaloisField};
use qrgen::metadata::get_codewords;
use qrgen::qr::Encoding;

#[test]
fn test_exps() {
    let (log, exp) = generate_log();
    assert_eq!(log.len(), 256);
    assert_eq!(exp.len(), 256);
}

#[test]
fn test_generator_poly() {
    let gf = GaloisField::new();
    let polys = generator_polys(&gf);
    for i in 0..31 {
        assert_eq!(polys[i].len(), i + 1);
        assert_eq!(polys[i][0], 1);
    }
}

#[test]
fn test_ec() {
    let str = String::from("https://www.qrcode.com/");
    let bitstream = encode_latin(&str).unwrap();
    let mut message = get_codewords(&bitstream, str.chars().count(), Encoding::Byte, 6, 28);
    for i in 0..message.len() {
        if message[i] == 17 {
            message[i] = 236;
        } else if message[i] == 236 {
            message[i] = 17;
        }
    }
    assert_eq!(
        ec::ec_group(&message, 16),
        vec![52, 61, 242, 187, 29, 7, 216, 249, 103, 87, 95, 69, 188, 134, 57, 20]
    );
}

#[test]
fn test_ec_grouping() {
    let str = String::from(
        "['give you up','let you down','run around and desert you'].map(x=>'Never gonna '+x)",
    );
    let bitstream: Vec<u8> = encode_latin(&str).unwrap();
    let mut message = get_codewords(&bitstream, str.chars().count(), Encoding::Byte, 6, 88);
    for i in 0..message.len() {
        if message[i] == 17 {
            message[i] = 236;
        } else if message[i] == 236 {
            message[i] = 17;
        }
    }
    assert_eq!(
        ec::ec_encode(message, 7, ec::ECLevel::Q),
        [
            69, 2, 118, 6, 117, 34, 53, 114, 226, 22, 210, 6, 178, 194, 114, 230, 230, 118, 118, 118,
            194, 66, 214, 246, 118, 198, 119, 6, 23, 230, 151, 87, 39, 70, 2, 230, 102, 66, 86, 87,
            135, 18, 82, 7, 226, 54, 131, 2, 7, 150, 6, 87, 211, 114, 150, 247, 23, 39, 226, 183,
            247, 82, 38, 66, 116, 130, 82, 6, 247, 7, 230, 144, 7, 70, 86, 150, 87, 236, 87, 247,
            230, 247, 102, 17, 66, 82, 87, 236, 63, 55, 231, 201, 50, 250, 102, 104, 200, 194, 61,
            125, 26, 180, 168, 254, 126, 223, 192, 39, 134, 237, 34, 82, 65, 63, 187, 55, 69, 173,
            106, 47, 177, 234, 241, 7, 117, 63, 145, 100, 48, 84, 90, 98, 96, 80, 78, 65, 107, 121,
            18, 27, 111, 79, 88, 60, 5, 26, 172, 186, 138, 158, 22, 131, 26, 176, 42, 140, 155, 124,
            136, 125, 103, 124, 40, 135, 187, 15, 127, 157, 35, 125, 76, 150, 227, 245, 86, 196, 251,
            62, 86, 16, 253, 37, 71, 64, 189, 243, 248, 199, 7, 15, 1, 181, 202, 64, 199, 23
        ]
    );
}

#[test]
fn antilog_inverts_log() {
    let (log, exp) = generate_log();
    for x in 1..256usize {
        assert_eq!(exp[log[x] as usize] as usize, x);
    }
    assert_eq!(exp[0], 1);
    assert_eq!(exp[1], 2);
    assert_eq!(exp[8], 29);
    assert_eq!(log[2], 1);
}

#[test]
fn field_arithmetic_matches_known_values() {
    let gf = GaloisField::new();
    assert_eq!(ec::mul(&gf, 0, 7), 0);
    assert_eq!(ec::mul(&gf, 2, 128), 29);
    assert_eq!(ec::mul(&gf, 3, 7), 9);
    assert_eq!(ec::div(&gf, 29, 2), 128);
    assert_eq!(ec::poly_mul(&gf, &vec![1, 1], &vec![1, 2]), vec![1, 3, 2]);
    assert_eq!(ec::poly_rest(&gf, &vec![1, 3, 2], &vec![1, 1]), vec![0]);
    assert_eq!(ec::poly_rest(&gf, &vec![1, 0, 0], &vec![1, 1]), vec![1]);
    let polys = generator_polys(&gf);
    assert_eq!(polys[2], vec![1, 3, 2]);
}
