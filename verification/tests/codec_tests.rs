use b64::alphabet::Alphabet;
use b64::config::{padding_mode_from_key, Config, PaddingMode};
use b64::engine::Engine;
use b64::errors::CodecError;

#[test]
fn encode_hello_standard() {
    let eng = Engine::standard();
    assert_eq!(eng.encode(b"Hello"), b"SGVsbG8=".to_vec());
    assert_eq!(eng.encode(b"Hello, world!"), b"SGVsbG8sIHdvcmxkIQ==".to_vec());
    assert_eq!(eng.encode(b""), Vec::<u8>::new());
}

#[test]
fn encode_no_pad() {
    let eng = Engine::standard_no_pad();
    assert_eq!(eng.encode(b"Hello"), b"SGVsbG8".to_vec());
    assert_eq!(eng.encode(b"Hi"), b"SGk".to_vec());
    assert_eq!(eng.encode(b"abc"), b"YWJj".to_vec());
}

#[test]
fn encode_url_safe() {
    // 0xfb 0xef 0xff encodes to symbols 62/63 in the final group.
    let eng = Engine::url_safe();
    let enc = eng.encode(&[0xfbu8, 0xef, 0xbe]);
    assert!(enc.iter().all(|b| *b != b'+' && *b != b'/'));
    let std_eng = Engine::standard();
    let dec = eng.decode(&enc).unwrap();
    assert_eq!(dec, vec![0xfbu8, 0xef, 0xbe]);
    assert_ne!(std_eng.encode(&[0xfbu8, 0xef, 0xbe]), enc);
}

#[test]
fn decode_hello() {
    let eng = Engine::standard();
    assert_eq!(eng.decode(b"SGVsbG8=").unwrap(), b"Hello".to_vec());
    assert_eq!(eng.decode(b"").unwrap(), Vec::<u8>::new());
}

#[test]
fn decode_missing_pad_canonical_is_invalid_padding() {
    // 7 symbols, length mod 4 == 3, one pad byte short.
    let eng = Engine::standard();
    assert_eq!(eng.decode(b"SGVsbG8"), Err(CodecError::InvalidPadding));
}

#[test]
fn decode_bad_byte_is_invalid_character() {
    let eng = Engine::standard();
    assert_eq!(eng.decode(b"!"), Err(CodecError::InvalidCharacter));
    assert_eq!(eng.decode(b"SGVs!G8="), Err(CodecError::InvalidCharacter));
}

#[test]
fn decode_lone_symbol_is_invalid_length() {
    let eng = Engine::standard();
    assert_eq!(eng.decode(b"Q"), Err(CodecError::InvalidLength));
    assert_eq!(eng.decode(b"QQQQQ"), Err(CodecError::InvalidLength));
}

#[test]
fn decode_pad_before_symbol_is_invalid_padding() {
    let eng = Engine::standard();
    assert_eq!(eng.decode(b"QQ=A"), Err(CodecError::InvalidPadding));
    assert_eq!(eng.decode(b"===="), Err(CodecError::InvalidPadding));
    assert_eq!(eng.decode(b"AAAA=="), Err(CodecError::InvalidPadding));
}

#[test]
fn decode_trailing_bits() {
    // "SGVsbG9=" ends in '9' (value 61): nonzero unused bits.
    let strict = Engine::standard();
    assert_eq!(strict.decode(b"SGVsbG9="), Err(CodecError::InvalidTrailingBits));
    let alphabet = Alphabet::from_preset("standard").unwrap();
    let lax = Engine::new(
        alphabet,
        Config::build(true, true, PaddingMode::RequireCanonical),
    );
    assert_eq!(lax.decode(b"SGVsbG9=").unwrap(), b"Hello".to_vec());
}

#[test]
fn decode_require_none_rejects_padding() {
    let eng = Engine::standard_no_pad();
    assert_eq!(eng.decode(b"SGVsbG8="), Err(CodecError::InvalidPadding));
    assert_eq!(eng.decode(b"SGVsbG8").unwrap(), b"Hello".to_vec());
}

#[test]
fn decode_indifferent_accepts_both() {
    let alphabet = Alphabet::from_preset("standard").unwrap();
    let eng = Engine::new(
        alphabet,
        Config::build(true, false, PaddingMode::Indifferent),
    );
    assert_eq!(eng.decode(b"SGVsbG8=").unwrap(), b"Hello".to_vec());
    assert_eq!(eng.decode(b"SGVsbG8").unwrap(), b"Hello".to_vec());
}

#[test]
fn round_trip_all_engine_presets() {
    let names = ["standard", "standard_no_pad", "url_safe", "url_safe_no_pad"];
    let data: Vec<u8> = (0u16..=255).map(|b| b as u8).collect();
    for name in names {
        let eng = Engine::from_preset(name).unwrap();
        for take in [0usize, 1, 2, 3, 7, 64, 255, 256] {
            let x = &data[..take];
            let enc = eng.encode(x);
            let dec = eng.decode(&enc).unwrap();
            assert_eq!(dec, x.to_vec(), "round trip failed for {name} at {take}");
        }
    }
}

#[test]
fn length_law() {
    let eng_pad = Engine::standard();
    let eng_bare = Engine::standard_no_pad();
    for n in 0usize..50 {
        let x = vec![0xa5u8; n];
        assert_eq!(eng_pad.encode(&x).len(), 4 * ((n + 2) / 3));
        let expected_bare = 4 * (n / 3) + if n % 3 == 0 { 0 } else { n % 3 + 1 };
        assert_eq!(eng_bare.encode(&x).len(), expected_bare);
    }
}

#[test]
fn alphabet_build_rejects_bad_sets() {
    let ok: Vec<u8> = b"ABCDEFGHIJKLMNOPQRSTUVWXYZabcdefghijklmnopqrstuvwxyz0123456789+/".to_vec();
    assert!(Alphabet::build(&ok).is_ok());
    let short: Vec<u8> = ok[..63].to_vec();
    assert_eq!(Alphabet::build(&short).unwrap_err(), CodecError::InvalidAlphabet);
    let mut long: Vec<u8> = ok.clone();
    long.push(b'!');
    assert_eq!(Alphabet::build(&long).unwrap_err(), CodecError::InvalidAlphabet);
    let mut dup = ok.clone();
    dup[63] = b'A';
    assert_eq!(Alphabet::build(&dup).unwrap_err(), CodecError::InvalidAlphabet);
    let mut pad_collision = ok.clone();
    pad_collision[63] = b'=';
    assert_eq!(
        Alphabet::build(&pad_collision).unwrap_err(),
        CodecError::InvalidAlphabet
    );
    let mut unprintable = ok.clone();
    unprintable[0] = 0x07;
    assert_eq!(
        Alphabet::build(&unprintable).unwrap_err(),
        CodecError::InvalidAlphabet
    );
}

#[test]
fn custom_alphabet_round_trip() {
    // The standard set rotated by one position.
    let mut syms: Vec<u8> =
        b"BCDEFGHIJKLMNOPQRSTUVWXYZabcdefghijklmnopqrstuvwxyz0123456789+/A".to_vec();
    let alphabet = Alphabet::build(&syms).unwrap();
    let eng = Engine::new(alphabet, Config::standard());
    let input = b"a custom alphabet still round-trips";
    let enc = eng.encode(input);
    assert_eq!(eng.decode(&enc).unwrap(), input.to_vec());
    // And differs from the standard encoding of the same input.
    assert_ne!(enc, Engine::standard().encode(input));
    syms.truncate(63);
    assert_eq!(Alphabet::build(&syms).unwrap_err(), CodecError::InvalidAlphabet);
}

#[test]
fn alphabet_lookups() {
    let a = Alphabet::from_preset("standard").unwrap();
    assert_eq!(a.symbol_at(0), b'A');
    assert_eq!(a.symbol_at(26), b'a');
    assert_eq!(a.symbol_at(62), b'+');
    assert_eq!(a.symbol_at(63), b'/');
    assert_eq!(a.index_of(b'A'), Some(0));
    assert_eq!(a.index_of(b'/'), Some(63));
    assert_eq!(a.index_of(b'='), None);
    assert_eq!(a.index_of(b'-'), None);
    assert_eq!(a.pad_byte(), b'=');
    assert_eq!(
        a.render(),
        b"ABCDEFGHIJKLMNOPQRSTUVWXYZabcdefghijklmnopqrstuvwxyz0123456789+/".to_vec()
    );
}

#[test]
fn alphabet_presets_match_known_tables() {
    let cases: [(&str, &[u8]); 6] = [
        (
            "standard",
            b"ABCDEFGHIJKLMNOPQRSTUVWXYZabcdefghijklmnopqrstuvwxyz0123456789+/",
        ),
        (
            "url_safe",
            b"ABCDEFGHIJKLMNOPQRSTUVWXYZabcdefghijklmnopqrstuvwxyz0123456789-_",
        ),
        (
            "crypt",
            b"./0123456789ABCDEFGHIJKLMNOPQRSTUVWXYZabcdefghijklmnopqrstuvwxyz",
        ),
        (
            "bcrypt",
            b"./ABCDEFGHIJKLMNOPQRSTUVWXYZabcdefghijklmnopqrstuvwxyz0123456789",
        ),
        (
            "imap_mutf7",
            b"ABCDEFGHIJKLMNOPQRSTUVWXYZabcdefghijklmnopqrstuvwxyz0123456789+,",
        ),
        (
            "bin_hex",
            b"!\"#$%&'()*+,-012345689@ABCDEFGHIJKLMNPQRSTUVXYZ[`abcdefhijklmpqr",
        ),
    ];
    for (name, expected) in cases {
        let a = Alphabet::from_preset(name).unwrap();
        assert_eq!(a.render(), expected.to_vec(), "preset {name}");
    }
    assert_eq!(
        Alphabet::from_preset("no_such").unwrap_err(),
        CodecError::UnknownPreset
    );
}

#[test]
fn engine_preset_unknown() {
    assert_eq!(
        Engine::from_preset("no_such").unwrap_err(),
        CodecError::UnknownPreset
    );
}

#[test]
fn padding_mode_keys() {
    assert_eq!(
        padding_mode_from_key("indifferent").unwrap(),
        PaddingMode::Indifferent
    );
    assert_eq!(
        padding_mode_from_key("canonical").unwrap(),
        PaddingMode::RequireCanonical
    );
    assert_eq!(padding_mode_from_key("none").unwrap(), PaddingMode::RequireNone);
    assert_eq!(
        padding_mode_from_key("strict").unwrap_err(),
        CodecError::UnknownPaddingMode
    );
}

#[test]
fn config_accessors() {
    let c = Config::build(false, true, PaddingMode::Indifferent);
    assert!(!c.encode_padding);
    assert!(c.decode_allow_trailing_bits);
    assert_eq!(c.decode_padding_mode, PaddingMode::Indifferent);
    let eng = Engine::new(Alphabet::from_preset("standard").unwrap(), c);
    assert_eq!(eng.config(), c);
}

#[test]
fn error_descriptions() {
    assert_eq!(CodecError::InvalidAlphabet.describe(), "invalid alphabet");
    assert_eq!(CodecError::UnknownPreset.describe(), "unknown preset");
    assert_eq!(
        CodecError::UnknownPaddingMode.describe(),
        "unknown padding mode"
    );
    assert_eq!(CodecError::InvalidWidth.describe(), "invalid chunk width");
    assert_eq!(CodecError::InvalidCharacter.describe(), "invalid character");
    assert_eq!(CodecError::InvalidPadding.describe(), "invalid padding");
    assert_eq!(CodecError::InvalidLength.describe(), "invalid length");
    assert_eq!(
        CodecError::InvalidTrailingBits.describe(),
        "invalid trailing bits"
    );
}

#[test]
fn every_alphabet_preset_round_trips() {
    let names = ["standard", "url_safe", "bcrypt", "bin_hex", "crypt", "imap_mutf7"];
    let input: Vec<u8> = (0u16..=255).map(|b| b as u8).collect();
    for name in names {
        let alphabet = Alphabet::from_preset(name).unwrap();
        let eng = Engine::new(alphabet, Config::standard());
        let enc = eng.encode(&input);
        assert_eq!(eng.decode(&enc).unwrap(), input, "preset {name}");
    }
}

#[test]
fn custom_pad_byte() {
    let syms: Vec<u8> =
        b"ABCDEFGHIJKLMNOPQRSTUVWXYZabcdefghijklmnopqrstuvwxyz0123456789+/".to_vec();
    let alphabet = Alphabet::build_with_pad(&syms, b'~').unwrap();
    assert_eq!(alphabet.pad_byte(), b'~');
    let eng = Engine::new(alphabet, Config::standard());
    assert_eq!(eng.encode(b"Hello"), b"SGVsbG8~".to_vec());
    assert_eq!(eng.decode(b"SGVsbG8~").unwrap(), b"Hello".to_vec());
    assert_eq!(eng.decode(b"SGVsbG8="), Err(CodecError::InvalidCharacter));
    // A pad byte colliding with a symbol is rejected.
    assert_eq!(
        Alphabet::build_with_pad(&syms, b'A').unwrap_err(),
        CodecError::InvalidAlphabet
    );
    // An unprintable pad byte is rejected.
    assert_eq!(
        Alphabet::build_with_pad(&syms, 0x0a).unwrap_err(),
        CodecError::InvalidAlphabet
    );
}
