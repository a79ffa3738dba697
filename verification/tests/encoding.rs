use b64::encode;
use b64::standard;
use b64::CharacterSet;
use b64::Config;
use b64::ToBase64;

#[test]
fn test_to_base64_basic() {
    assert_eq!("".as_bytes().to_base64(standard()), "");
    assert_eq!("f".as_bytes().to_base64(standard()), "Zg==");
    assert_eq!("fo".as_bytes().to_base64(standard()), "Zm8=");
    assert_eq!("foo".as_bytes().to_base64(standard()), "Zm9v");
    assert_eq!("foob".as_bytes().to_base64(standard()), "Zm9vYg==");
    assert_eq!("fooba".as_bytes().to_base64(standard()), "Zm9vYmE=");
    assert_eq!("foobar".as_bytes().to_base64(standard()), "Zm9vYmFy");
}

#[test]
fn standard_output_uses_the_standard_alphabet() {
    let bytes: Vec<u8> = (0u8..=255).collect();
    let text = encode(&bytes, standard());
    for c in text.chars() {
        assert!(
            c.is_ascii_uppercase()
                || c.is_ascii_lowercase()
                || c.is_ascii_digit()
                || c == '+'
                || c == '/'
                || c == '=',
            "unexpected character {c:?}"
        );
    }
}

#[test]
fn padded_length_is_four_times_ceil_of_thirds() {
    for len in 0..32usize {
        let bytes = vec![0xA5u8; len];
        let text = encode(&bytes, standard());
        assert_eq!(text.len(), 4 * ((len + 2) / 3));
    }
}

#[test]
fn empty_input_yields_empty_output_for_any_config() {
    let char_sets = [CharacterSet::Standard, CharacterSet::UrlSafe];
    let pads = [false, true];
    let line_lengths = [None, Some(0), Some(1), Some(4), Some(76)];
    for &char_set in &char_sets {
        for &pad in &pads {
            for &line_length in &line_lengths {
                let cfg = Config { char_set, pad, line_length };
                assert_eq!(encode(&[], cfg), "");
            }
        }
    }
}

#[test]
fn url_safe_replaces_plus_and_slash_only() {
    let bytes = [0xfbu8, 0xff];
    assert_eq!(encode(&bytes, standard()), "+/8=");
    let url = Config { char_set: CharacterSet::UrlSafe, pad: true, line_length: None };
    assert_eq!(encode(&bytes, url), "-_8=");

    let std_nopad = Config { char_set: CharacterSet::Standard, pad: false, line_length: Some(2) };
    let url_nopad = Config { char_set: CharacterSet::UrlSafe, pad: false, line_length: Some(2) };
    assert_eq!(encode(&bytes, std_nopad), "+/\n8");
    assert_eq!(encode(&bytes, url_nopad), "-_\n8");
}

#[test]
fn disabling_pad_drops_exactly_the_padding() {
    let nopad = Config { char_set: CharacterSet::Standard, pad: false, line_length: None };
    assert_eq!(encode("f".as_bytes(), nopad), "Zg");
    assert_eq!(encode("fo".as_bytes(), nopad), "Zm8");
    assert_eq!(encode("foo".as_bytes(), nopad), "Zm9v");
    for len in 0..16usize {
        let bytes = vec![0x42u8; len];
        let padded = encode(&bytes, standard());
        let bare = encode(&bytes, nopad);
        let trailing = padded.chars().rev().take_while(|&c| c == '=').count();
        assert_eq!(bare.len() + trailing, padded.len());
        assert_eq!(&padded[..bare.len()], bare.as_str());
        assert!(!bare.contains('='));
    }
}

#[test]
fn line_wrapping_makes_full_lines() {
    let wrap = |n: usize| Config {
        char_set: CharacterSet::Standard,
        pad: true,
        line_length: Some(n),
    };
    assert_eq!(encode("foobar".as_bytes(), wrap(4)), "Zm9v\nYmFy");
    assert_eq!(encode("foobar".as_bytes(), wrap(3)), "Zm9\nvYm\nFy");
    assert_eq!(encode("foobar".as_bytes(), wrap(8)), "Zm9vYmFy");
    assert_eq!(encode("foo".as_bytes(), wrap(4)), "Zm9v");
    assert_eq!(encode("f".as_bytes(), wrap(1)), "Z\ng\n=\n=");
    for n in 1..12usize {
        let text = encode("foobarbaz".as_bytes(), wrap(n));
        let lines: Vec<&str> = text.split('\n').collect();
        for line in &lines[..lines.len() - 1] {
            assert_eq!(line.len(), n);
        }
        assert!(!lines[lines.len() - 1].is_empty());
        assert!(lines[lines.len() - 1].len() <= n);
    }
}

#[test]
fn zero_line_length_breaks_before_every_character() {
    let wrap0 = Config { char_set: CharacterSet::Standard, pad: true, line_length: Some(0) };
    assert_eq!(encode("foo".as_bytes(), wrap0), "\nZ\nm\n9\nv");
    assert_eq!(encode(&[], wrap0), "");
}

#[test]
fn trait_and_function_agree() {
    let bytes = [52u8, 32];
    assert_eq!(bytes.to_base64(standard()), encode(&bytes, standard()));
    assert_eq!(bytes.to_base64(standard()), "NCA=");
}
