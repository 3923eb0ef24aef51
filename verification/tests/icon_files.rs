use dirstats::icon_files::{base64, hero_svg, icns_file, ico_file, HERO_HEAD, HERO_TAIL};

#[test]
fn base64_follows_the_standard_vectors() {
    assert_eq!(base64(b""), "");
    assert_eq!(base64(b"f"), "Zg==");
    assert_eq!(base64(b"fo"), "Zm8=");
    assert_eq!(base64(b"foo"), "Zm9v");
    assert_eq!(base64(b"foob"), "Zm9vYg==");
    assert_eq!(base64(b"fooba"), "Zm9vYmE=");
    assert_eq!(base64(b"foobar"), "Zm9vYmFy");
    assert_eq!(base64(&[0xfb, 0xff, 0xbf]), "+/+/", "the last two digits");
    assert_eq!(base64(&[0x89, b'P', b'N', b'G']), "iVBORw==");
}

#[test]
fn base64_is_four_characters_per_three_bytes() {
    for n in 0..20usize {
        let bytes: Vec<u8> = (0..n as u8).collect();
        assert_eq!(base64(&bytes).len(), 4 * n.div_ceil(3));
    }
}

#[test]
fn the_banner_embeds_the_icon() {
    let svg = hero_svg(b"PNG!");
    assert!(svg.starts_with("<svg xmlns=\"http://www.w3.org/2000/svg\" viewBox=\"0 0 1200 440\""));
    assert!(svg.contains("href=\"data:image/png;base64,UE5HIQ==\"/>"));
    assert!(svg.ends_with("</svg>\n"));
    assert_eq!(svg.len(), HERO_HEAD.len() + 8 + HERO_TAIL.len());
    assert!(svg.contains("See what is filling your disk."));
}

#[test]
fn an_ico_lists_its_images_then_holds_them() {
    let images = vec![vec![1u8, 2, 3], vec![4u8, 5]];
    let ico = ico_file(&[16, 256], &images);
    let mut expected = vec![0u8, 0, 1, 0, 2, 0];
    expected.extend_from_slice(&[16, 16, 0, 0, 1, 0, 32, 0, 3, 0, 0, 0, 38, 0, 0, 0]);
    expected.extend_from_slice(&[0, 0, 0, 0, 1, 0, 32, 0, 2, 0, 0, 0, 41, 0, 0, 0]);
    expected.extend_from_slice(&[1, 2, 3, 4, 5]);
    assert_eq!(ico, expected);
    assert_eq!(ico_file(&[], &Vec::new()), vec![0u8, 0, 1, 0, 0, 0]);
}

#[test]
fn an_icns_gives_every_length_with_its_header() {
    let elements = vec![(*b"icp4", vec![9u8; 3]), (*b"ic10", vec![7u8; 300])];
    let icns = icns_file(&elements);
    assert_eq!(&icns[..4], b"icns");
    assert_eq!(u32::from_be_bytes(icns[4..8].try_into().unwrap()) as usize, icns.len());
    assert_eq!(icns.len(), 8 + (8 + 3) + (8 + 300));
    assert_eq!(&icns[8..12], b"icp4");
    assert_eq!(&icns[12..16], &[0, 0, 0, 11]);
    assert_eq!(&icns[16..19], &[9, 9, 9]);
    assert_eq!(&icns[19..23], b"ic10");
    assert_eq!(&icns[23..27], &308u32.to_be_bytes());
    assert_eq!(icns_file(&Vec::new()), b"icns\0\0\0\x08".to_vec());
}
