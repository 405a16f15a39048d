//! Cross-checks against the widely used `base64` crate: identical encodings
//! on every preset engine, and agreement on which inputs decode at all.

use b64::engine::Engine;
use base64::engine::general_purpose;
use base64::Engine as _;

fn pseudo_random_bytes(len: usize, seed: u64) -> Vec<u8> {
    let mut state = seed;
    let mut out = Vec::with_capacity(len);
    for _ in 0..len {
        state = state.wrapping_mul(6364136223846793005).wrapping_add(1442695040888963407);
        out.push((state >> 33) as u8);
    }
    out
}

#[test]
fn encode_matches_reference_crate() {
    let pairs: [(&str, &general_purpose::GeneralPurpose); 4] = [
        ("standard", &general_purpose::STANDARD),
        ("standard_no_pad", &general_purpose::STANDARD_NO_PAD),
        ("url_safe", &general_purpose::URL_SAFE),
        ("url_safe_no_pad", &general_purpose::URL_SAFE_NO_PAD),
    ];
    for (name, reference) in pairs {
        let eng = Engine::from_preset(name).unwrap();
        for len in 0usize..80 {
            let data = pseudo_random_bytes(len, len as u64 + 1);
            let ours = eng.encode(&data);
            let theirs = reference.encode(&data).into_bytes();
            assert_eq!(ours, theirs, "{name} differs at length {len}");
        }
    }
}

#[test]
fn decode_agrees_with_reference_crate() {
    let pairs: [(&str, &general_purpose::GeneralPurpose); 4] = [
        ("standard", &general_purpose::STANDARD),
        ("standard_no_pad", &general_purpose::STANDARD_NO_PAD),
        ("url_safe", &general_purpose::URL_SAFE),
        ("url_safe_no_pad", &general_purpose::URL_SAFE_NO_PAD),
    ];
    let inputs: [&[u8]; 14] = [
        b"",
        b"SGVsbG8=",
        b"SGVsbG8",
        b"SGk=",
        b"SGk",
        b"SG==",
        b"SG9379x/",
        b"QQ==",
        b"QQ",
        b"AAAA",
        b"AAAABBBBCCCC",
        b"AAAABBBBCC==",
        b"-_-_",
        b"++//",
    ];
    for (name, reference) in pairs {
        let eng = Engine::from_preset(name).unwrap();
        for input in inputs {
            let ours = eng.decode(input);
            let theirs = reference.decode(input);
            match (ours, theirs) {
                (Ok(a), Ok(b)) => assert_eq!(a, b, "{name} on {input:?}"),
                (Err(_), Err(_)) => {}
                (a, b) => panic!("{name} disagrees on {input:?}: ours {a:?}, theirs {b:?}"),
            }
        }
    }
}

#[test]
fn decode_random_round_trips_agree() {
    let reference = &general_purpose::STANDARD;
    let eng = Engine::standard();
    for len in [1usize, 2, 3, 50, 301] {
        let data = pseudo_random_bytes(len, 1000 + len as u64);
        let encoded = reference.encode(&data);
        assert_eq!(eng.decode(encoded.as_bytes()).unwrap(), data);
    }
}

#[test]
fn custom_alphabet_matches_reference_crate() {
    let table = "0123456789ABCDEFGHIJKLMNOPQRSTUVWXYZabcdefghijklmnopqrstuvwxyz._";
    let ours_alpha = b64::alphabet::Alphabet::build(&table.as_bytes().to_vec()).unwrap();
    let ours = Engine::new(ours_alpha, b64::config::Config::standard());
    let theirs_alpha = base64::alphabet::Alphabet::new(table).unwrap();
    let theirs = base64::engine::GeneralPurpose::new(&theirs_alpha, general_purpose::PAD);
    for len in 0usize..40 {
        let data = pseudo_random_bytes(len, 31 + len as u64);
        assert_eq!(ours.encode(&data), theirs.encode(&data).into_bytes());
        let enc = ours.encode(&data);
        assert_eq!(ours.decode(&enc).unwrap(), theirs.decode(&enc).unwrap());
    }
}
