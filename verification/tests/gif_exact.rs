use spack::gif_exact::{decode, encode, put_var, write_code, MAGIC, MAX_BYTES};
use spack::lzw::Dict;

fn code_stream(minimum: u8, codes: &[u16], padding: u8) -> Vec<u8> {
    let mut dict = Dict::new(minimum).unwrap();
    let mut packed = Vec::new();
    let mut bit = 0;
    for &code in codes {
        write_code(&mut packed, &mut bit, dict.width, code).unwrap();
        if code == dict.clear {
            dict.reset();
        } else if code != dict.clear + 1 {
            dict.apply(code).unwrap();
        }
    }
    if bit & 7 != 0 {
        *packed.last_mut().unwrap() |= padding & !((1u8 << (bit & 7)) - 1);
    }
    packed
}

fn gif(width: u16, height: u16, minimum: u8, packed: &[u8], block_size: usize) -> Vec<u8> {
    let mut raw =
        b"GIF89a\x01\0\x01\0\x80\0\0\0\0\0\xff\xff\xff\x21\xfe\x03ABC\0\x2c\0\0\0\0".to_vec();
    raw.extend_from_slice(&width.to_le_bytes());
    raw.extend_from_slice(&height.to_le_bytes());
    raw.extend_from_slice(&[0x40, minimum]);
    for chunk in packed.chunks(block_size) {
        raw.push(chunk.len() as u8);
        raw.extend_from_slice(chunk);
    }
    raw.extend_from_slice(&[0, 0x3b, 0xde, 0xad]);
    raw
}

#[test]
fn exact_clear_codes_subblocks_padding_and_trailer() {
    let mut packed = code_stream(2, &[4, 0, 1, 4, 4, 1, 0, 5], 255);
    packed.extend_from_slice(&[0xef, 0xbe]);
    let raw = gif(2, 2, 2, &packed, 1);
    assert_eq!(decode(&encode(&raw).unwrap()).unwrap(), raw);
}

#[test]
fn exact_non_greedy_dictionary_and_kwkwk() {
    for codes in [&[4, 0, 6, 0, 0, 5][..], &[0, 0, 0, 0, 0, 5][..]] {
        let packed = code_stream(2, codes, 255);
        let raw = gif(5, 1, 2, &packed, 2);
        assert_eq!(decode(&encode(&raw).unwrap()).unwrap(), raw);
    }
}

#[test]
fn exact_code_width_growth_and_frozen_full_dictionary() {
    let mut codes = vec![256];
    codes.extend((0..20_000).map(|n| (n % 256) as u16));
    codes.push(257);
    let packed = code_stream(8, &codes, 255);
    let raw = gif(200, 100, 8, &packed, 251);
    assert_eq!(decode(&encode(&raw).unwrap()).unwrap(), raw);
}

#[test]
fn malformed_inputs_and_resource_limits_are_errors() {
    for raw in [&b""[..], &b"GIF89a"[..], &b"GIF89a\0\0\0\0\0\0\0\x3b"[..]] {
        assert!(encode(raw).is_err());
    }
    let packed = code_stream(2, &[4, 0, 5], 0);
    assert!(encode(&gif(65_535, 65_535, 2, &packed, 255)).is_err());
    let encoded = encode(&gif(1, 1, 2, &packed, 255)).unwrap();
    for end in 0..encoded.len() {
        assert!(decode(&encoded[..end]).is_err());
    }
    let mut oversized = MAGIC.to_vec();
    put_var(MAX_BYTES + 1, &mut oversized);
    assert!(decode(&oversized).is_err());
}

#[test]
fn arbitrary_mutations_never_panic() {
    let packed = code_stream(2, &[4, 0, 1, 0, 1, 5], 255);
    let raw = gif(2, 2, 2, &packed, 1);
    let encoded = encode(&raw).unwrap();
    for pos in 0..encoded.len() {
        for value in [0, 1, 127, 128, 255] {
            let mut changed = encoded.clone();
            changed[pos] = value;
            let _ = decode(&changed);
        }
    }
    for pos in 0..raw.len() {
        let mut changed = raw.clone();
        changed[pos] ^= 255;
        let _ = encode(&changed);
    }
}

#[test]
fn randomized_valid_lzw_decisions_are_byte_exact() {
    let mut random = 0x7ac5_38d1u32;
    for minimum in 2..=8 {
        for _ in 0..12 {
            let mut dict = Dict::new(minimum).unwrap();
            let mut packed = Vec::new();
            let mut bit = 0;
            let mut pixels = 0usize;
            for _ in 0..2000 {
                random ^= random << 13;
                random ^= random >> 17;
                random ^= random << 5;
                let code = if random % 29 == 0 {
                    dict.clear
                } else if random % 7 == 0 && dict.prev.is_some() && dict.next < 4096 {
                    dict.next
                } else if random % 3 == 0 && dict.next > dict.clear + 2 {
                    dict.clear + 2 + (random % (dict.next - dict.clear - 2) as u32) as u16
                } else {
                    (random % dict.clear as u32) as u16
                };
                write_code(&mut packed, &mut bit, dict.width, code).unwrap();
                if code == dict.clear {
                    dict.reset();
                } else {
                    pixels += dict.apply(code).unwrap();
                }
            }
            write_code(&mut packed, &mut bit, dict.width, dict.clear + 1).unwrap();
            assert!(pixels > 0 && pixels <= u16::MAX as usize);
            let raw = gif(pixels as u16, 1, minimum, &packed, 79);
            assert_eq!(decode(&encode(&raw).unwrap()).unwrap(), raw);
        }
    }
}

#[test]
fn cut_and_lengthened_forms_are_refused() {
    let packed = code_stream(2, &[4, 0, 1, 4, 4, 1, 0, 5], 255);
    let form = encode(&gif(2, 2, 2, &packed, 3)).unwrap();
    for n in 0..form.len() {
        assert!(decode(&form[..n]).is_err(), "{n}");
    }
    for b in 0..=255 {
        let mut longer = form.clone();
        longer.push(b);
        assert!(decode(&longer).is_err());
    }
}
