use duckomp::bits::{BitReader, BitWriter, OutOfBits};
use duckomp::bytes::{byte_counts, copy_of, push_le, read_le, reversed, same_bytes};
use duckomp::egap::{
    deserialize_egap_header, entropy_decode, entropy_encode, serialize_egap_header, EgapError,
};
use duckomp::egap_codes::{
    build_egap_codes, egap_is_prefix, generate_prefix_codes, rank_symbols, EgapCode,
};
use duckomp::lz77::{
    distinct_bytes, lz77_chunk_repetition_score, lz77_compress, lz77_compress_chunk,
    lz77_compress_chunked, lz77_compress_maybe, lz77_decompress, lz77_decompress_block,
    lz77_decompress_stream, lz77_find_match, lz77_hash, lz77_should_skip_chunk,
    lz77_write_raw_block, LZ77_GLOBAL_CHUNK_SIZE,
};
use duckomp::lz77_model::LzError;
use duckomp::segments::{egap_adaptive_decode, egap_adaptive_encode};

/// The bytes for a string of bits, padded with zeros.
fn bits(s: &str) -> Vec<u8> {
    let digits: Vec<u8> = s.bytes().filter(|b| *b == b'0' || *b == b'1').map(|b| b - b'0').collect();
    digits
        .chunks(8)
        .map(|c| c.iter().enumerate().fold(0, |n, (i, b)| n | (b << (7 - i))))
        .collect()
}

/// Bytes that look random.
fn noise(n: usize) -> Vec<u8> {
    let mut x = 0x9e37_79b9_7f4a_7c15u64;
    (0..n)
        .map(|_| {
            x ^= x << 13;
            x ^= x >> 7;
            x ^= x << 17;
            (x >> 32) as u8
        })
        .collect()
}

#[test]
fn bits_are_written_first_bit_highest() {
    let mut w = BitWriter::with_capacity(4);
    w.write_bit(1);
    w.write_bits(0b0101, 4);
    w.write_bits(0x3ff, 10);
    assert_eq!(w.finish(), (bits("1 0101 1111111111"), 1));
    assert_eq!(BitWriter::with_capacity(0).finish(), (vec![], 0));
}

#[test]
fn bits_are_read_back() {
    let data = bits("1 0101 1111111111 0");
    let mut r = BitReader::new(&data);
    assert_eq!(r.read_bit(), Ok(1));
    assert_eq!(r.read_bits(4), Ok(0b0101));
    assert_eq!(r.bytes_consumed(), 1);
    assert_eq!(r.read_bits(10), Ok(0x3ff));
    assert_eq!(r.bytes_consumed(), 2);
    assert_eq!(r.read_bits(2), Err(OutOfBits));
}

#[test]
fn little_endian_numbers() {
    let mut out = vec![9];
    push_le(&mut out, 0x0102_0304, 4);
    assert_eq!(out, vec![9, 4, 3, 2, 1]);
    assert_eq!(read_le(&out, 1, 4), 0x0102_0304);
    assert_eq!(copy_of(&out), out);
    assert_eq!(reversed(&out), vec![1, 2, 3, 4, 9]);
    assert!(same_bytes(b"ab", b"ab") && !same_bytes(b"ab", b"abc") && !same_bytes(b"ab", b"ac"));
    assert_eq!(byte_counts(b"abca")[b'a' as usize], 2);
}

#[test]
fn lz77_codes_a_repetition() {
    let out = lz77_compress(b"abcabcabc");
    let mut expected = b"LZ77\x09\x00\x00\x00\x90\x02".to_vec();
    expected.extend(bits("0 01100001 0 01100010 0 01100011 1 0 00000010 1 00000010"));
    assert_eq!(out, expected);
    assert_eq!(lz77_decompress(&out).unwrap(), b"abcabcabc");
}

#[test]
fn lz77_codes_a_shortest_match() {
    let out = lz77_compress(b"abc-abc");
    let mut expected = b"LZ77\x07\x00\x00\x00\x90\x01".to_vec();
    expected.extend(bits("0 01100001 0 01100010 0 01100011 0 00101101 1 0 00000011 0"));
    assert_eq!(out, expected);
}

#[test]
fn lz77_prefers_a_much_longer_later_match() {
    let data = b"abc-bcdefgh-abcdefgh";
    let out = lz77_compress(data);
    assert_eq!(lz77_decompress(&out).unwrap(), data);
    // A literal 'a' and one match of seven bytes at distance nine.
    let tail = bits("0 01100001 1 0 00001000 1 00000011");
    let mut reader = BitReader::new(&out[10..]);
    for _ in 0..12 {
        assert_eq!(reader.read_bit(), Ok(0));
        reader.read_bits(8).unwrap();
    }
    let mut want = BitReader::new(&tail);
    for _ in 0..27 {
        assert_eq!(reader.read_bit(), want.read_bit());
    }
}

#[test]
fn lz77_round_trips() {
    for data in [
        Vec::new(),
        b"a".to_vec(),
        vec![7u8; 1000],
        noise(5000),
        noise(300).repeat(40),
        b"the quick brown fox jumps over the lazy dog. ".repeat(200),
    ] {
        assert_eq!(lz77_decompress(&lz77_compress(&data)).unwrap(), data);
        assert_eq!(lz77_decompress(&lz77_compress_maybe(&data)).unwrap(), data);
        assert_eq!(lz77_decompress(&lz77_write_raw_block(&data)).unwrap(), data);
    }
}

#[test]
fn lz77_keeps_what_does_not_shrink() {
    let data = noise(100);
    let mut raw = b"LZ77\x64\x00\x00\x00\x00\x00".to_vec();
    raw.extend(&data);
    assert_eq!(lz77_write_raw_block(&data), raw);
    assert_eq!(lz77_compress_maybe(&data), raw);
    assert_eq!(lz77_compress(b""), b"LZ77\x00\x00\x00\x00\x90\x00");
}

#[test]
fn lz77_streams_of_blocks() {
    let mut data = lz77_compress(b"aaaaaaaaaaaa");
    data.extend(lz77_write_raw_block(b"raw"));
    data.extend(lz77_compress(b""));
    assert_eq!(lz77_decompress_stream(&data).unwrap(), b"aaaaaaaaaaaaraw");
    assert_eq!(lz77_decompress(&data), Err(LzError::TrailingData));
    let (block, used) = lz77_decompress_block(&data).unwrap();
    assert_eq!((block, used), (b"aaaaaaaaaaaa".to_vec(), lz77_compress(b"aaaaaaaaaaaa").len()));
}

#[test]
fn lz77_errors() {
    assert_eq!(lz77_decompress(b"LZ77"), Err(LzError::TooShort));
    assert_eq!(lz77_decompress(b"LZ78\x01\x00\x00\x00\x90\x00"), Err(LzError::BadMagic));
    assert_eq!(lz77_decompress(b"LZ77\x05\x00\x00\x00\x00\x00abc"), Err(LzError::RawTruncated));
    assert_eq!(lz77_decompress(b"LZ77\x05\x00\x00\x00\x90\x00\x30"), Err(LzError::Truncated));
    let mut far = b"LZ77\x05\x00\x00\x00\x90\x00".to_vec();
    far.extend(bits("0 01100001 1 0 00000001 0"));
    assert_eq!(
        lz77_decompress(&far),
        Err(LzError::BadReference { distance: 2, position: 1 })
    );
    let mut long = b"LZ77\x02\x00\x00\x00\x90\x00".to_vec();
    long.extend(bits("0 01100001 1 0 00000000 0"));
    assert_eq!(lz77_decompress(&long), Err(LzError::SizeMismatch { found: 4, expected: 2 }));
}

#[test]
fn lz77_reads_fixed_width_references() {
    let mut old = b"LZ77\x04\x00\x00\x00\x08\x00".to_vec();
    old.extend(bits("0 01100001 1 00000001 00000000"));
    assert_eq!(lz77_decompress(&old).unwrap(), b"aaaa");
    let mut zero = b"LZ77\x04\x00\x00\x00\x08\x00".to_vec();
    zero.extend(bits("0 01100001 1 00000000 00000000"));
    assert_eq!(lz77_decompress(&zero), Err(LzError::BadReference { distance: 0, position: 1 }));
}

#[test]
fn lz77_skips_chunks_without_repetition() {
    assert_eq!(lz77_chunk_repetition_score(b"aaaaaaa"), 0);
    assert_eq!(lz77_chunk_repetition_score(b"aaaaaaaa"), 4);
    assert_eq!(lz77_chunk_repetition_score(b"abcdXabcdYabcd"), 2);
    let repetitive = b"abcd".repeat(400);
    assert!(!lz77_should_skip_chunk(&repetitive, false));
    assert!(!lz77_should_skip_chunk(&repetitive, true));
    assert!(lz77_should_skip_chunk(b"abcdabcd", false));
    let mut all: Vec<u8> = (0..=255).collect();
    all.extend(&repetitive);
    assert!(lz77_should_skip_chunk(&all, true) && !lz77_should_skip_chunk(&all, false));
    assert_eq!((distinct_bytes(&all), distinct_bytes(b"abca")), (256, 3));
    assert_eq!(lz77_compress_chunk(b"abcdabcd", false), lz77_write_raw_block(b"abcdabcd"));
    assert_eq!(lz77_compress_chunk(&repetitive, false), lz77_compress(&repetitive));
}

#[test]
fn lz77_chunks_large_data() {
    let small = b"abc".repeat(1000);
    assert_eq!(lz77_compress_chunked(&small, &[]), lz77_compress(&small));
    let mut large = vec![5u8; LZ77_GLOBAL_CHUNK_SIZE];
    large.extend(b"short tail");
    let out = lz77_compress_chunked(&large, &[false, false]);
    let mut expected = lz77_compress(&large[..LZ77_GLOBAL_CHUNK_SIZE]);
    expected.extend(lz77_write_raw_block(b"short tail"));
    assert_eq!(out, expected);
    assert_eq!(lz77_decompress_stream(&out).unwrap(), large);
}

#[test]
fn lz77_finds_the_latest_longest_match() {
    let data = b"abcdabcxabcd";
    let mut head = vec![u32::MAX; 65536];
    let mut prev = vec![u32::MAX; 65536];
    for pos in 0..8 {
        let h = lz77_hash(data[pos], data[pos + 1], data[pos + 2]);
        prev[pos] = head[h];
        head[h] = pos as u32;
    }
    assert_eq!(lz77_find_match(data, 8, &head, &prev), (4, 8));
    assert_eq!(lz77_find_match(data, 11, &head, &prev), (0, 0));
    assert!(lz77_hash(1, 2, 3) < 65536);
}

#[test]
fn prefix_codes_are_prefix_free() {
    assert!(egap_is_prefix(0b10, 2, 0b101, 3));
    assert!(!egap_is_prefix(0b101, 3, 0b10, 2));
    assert!(!egap_is_prefix(0b11, 2, 0b101, 3));
    assert!(egap_is_prefix(0, 0, 7, 3));
    assert_eq!(generate_prefix_codes(0), vec![]);
    assert_eq!(generate_prefix_codes(1), vec![(0, 1)]);
    assert_eq!(generate_prefix_codes(2), vec![(0, 1), (1, 1)]);
    assert_eq!(generate_prefix_codes(3), vec![(1, 1), (0, 2), (1, 2)]);
    assert_eq!(generate_prefix_codes(4), vec![(0, 2), (1, 2), (2, 2), (3, 2)]);
    assert_eq!(
        generate_prefix_codes(5),
        vec![(1, 1), (0, 3), (1, 3), (2, 3), (3, 3)]
    );
    for n in [6usize, 7, 9, 31, 33, 100, 129, 255, 256] {
        let codes = generate_prefix_codes(n);
        assert_eq!(codes.len(), n);
        for i in 0..n {
            for j in 0..n {
                let ((a, m), (b, k)) = (codes[i], codes[j]);
                assert!(i == j || !egap_is_prefix(a, m, b, k), "{n}: {i} {j}");
            }
        }
    }
}

#[test]
fn frequent_symbols_get_short_codes() {
    assert_eq!(rank_symbols(b"abracadabra"), b"abrcd");
    let codes = build_egap_codes(b"aaaaaabbc");
    let len = |s: u8| codes.iter().find(|c| c.symbol == s).unwrap().code_len;
    assert_eq!((len(b'a'), len(b'b'), len(b'c')), (1, 2, 2));
    assert!(build_egap_codes(b"").is_empty());
    assert_eq!(build_egap_codes(b"zzz").len(), 1);
    assert_eq!(build_egap_codes(&noise(100000)).len(), 256);
}

#[test]
fn blocks_do_not_depend_on_what_follows() {
    let fixed = [&b"LZ77"[..], &[4, 0, 0, 0, 12, 0], &bits("0 01100001 1 000000000001 00000000")]
        .concat();
    for block in [
        lz77_compress(&b"abcabcabcabcabcabcabc".repeat(20)),
        lz77_write_raw_block(b"raw bytes"),
        lz77_write_raw_block(b""),
        fixed,
    ] {
        let (out, n) = lz77_decompress_block(&block).unwrap();
        assert!(10 <= n && n <= block.len());
        assert_eq!(out.len(), u32::from_le_bytes([block[4], block[5], block[6], block[7]]) as usize);
        for rest in [&b""[..], b"\xff", b"LZ77", &[0u8; 40]] {
            let other = [&block[..n], rest].concat();
            assert_eq!(lz77_decompress_block(&other).unwrap(), (out.clone(), n));
        }
    }
}

#[test]
fn streams_grow_by_ten_bytes_a_block_at_most() {
    assert_eq!(lz77_compress_chunked(b"", &[]).len(), 10);
    let small = noise(1000);
    assert_eq!(lz77_compress_chunked(&small, &[]).len(), 1010);
    let large = noise(LZ77_GLOBAL_CHUNK_SIZE + 5);
    let coded = lz77_compress_chunked(&large, &[true, true]);
    assert!(coded.len() <= large.len() + 20);
    assert_eq!(lz77_decompress_stream(&coded).unwrap(), large);
}

#[test]
fn code_tables_are_complete() {
    for n in 2..=256usize {
        let mut data = Vec::new();
        for s in 0..n {
            data.extend(vec![s as u8; 1 + (s * 37) % 11]);
        }
        let codes = build_egap_codes(&data);
        assert_eq!(codes.len(), n);
        let weight: u32 = codes.iter().map(|c| 256u32 >> c.code_len).sum();
        assert_eq!(weight, 256, "{n} symbols");
        assert!(codes.iter().all(|c| (1..=8).contains(&c.code_len)));
        assert!(codes.iter().all(|c| c.code_bits < 1 << c.code_len));
        let mut symbols: Vec<u8> = codes.iter().map(|c| c.symbol).collect();
        symbols.sort();
        assert_eq!(symbols, (0..n).map(|s| s as u8).collect::<Vec<u8>>());
    }
    assert_eq!(build_egap_codes(b"z")[0].code_len, 1);
}

#[test]
fn segments_that_are_cut_off_are_errors() {
    let mut data: Vec<u8> = (0..=255u8).cycle().take(2100).collect();
    data.extend(b"ab".repeat(300));
    let (coded, sizes) = egap_adaptive_encode(&data);
    assert_eq!(egap_adaptive_decode(&coded, &sizes).unwrap(), data);
    for k in 0..coded.len() {
        assert!(egap_adaptive_decode(&coded[..k], &sizes).is_err());
    }
}

#[test]
fn egap_headers_round_trip() {
    let codes = vec![
        EgapCode { symbol: b'x', code_len: 1, code_bits: 1 },
        EgapCode { symbol: 0, code_len: 12, code_bits: 0xabc },
    ];
    let hdr = serialize_egap_header(&codes, 77, 3);
    assert_eq!(hdr, b"EGAP\x4d\x00\x00\x00\x02\x03x\x01\x01\x00\x00\x00\x00\x0c\xbc\x0a\x00\x00");
    let (back, size, pad, used) = deserialize_egap_header(&hdr).unwrap();
    assert_eq!((size, pad, used, back.len()), (77, 3, hdr.len(), 2));
    assert_eq!((back[1].symbol, back[1].code_len, back[1].code_bits), (0, 12, 0xabc));
    assert!(deserialize_egap_header(b"EGAP\x00\x00\x00\x00\x00").is_err());
    assert!(deserialize_egap_header(&hdr[..hdr.len() - 1]).is_err());
}

#[test]
fn egap_codes_bytes() {
    let data = b"a".repeat(64);
    let out = entropy_encode(&data);
    let mut expected = b"EGAP\x40\x00\x00\x00\x01\x00a\x01\x00\x00\x00\x00".to_vec();
    expected.extend([0u8; 8]);
    assert_eq!(out, expected);
    assert_eq!(entropy_decode(&out).unwrap(), data);
}

#[test]
fn egap_round_trips() {
    for data in [
        Vec::new(),
        b"abc".to_vec(),
        b"hello world ".repeat(100),
        noise(4000),
        noise(4000).iter().map(|b| b & 15).collect(),
        (0..=255u8).cycle().take(3000).collect(),
    ] {
        assert_eq!(entropy_decode(&entropy_encode(&data)).unwrap(), data);
        let (coded, sizes) = egap_adaptive_encode(&data);
        assert_eq!(sizes.iter().map(|s| *s as usize).sum::<usize>(), coded.len());
        assert_eq!(egap_adaptive_decode(&coded, &sizes).unwrap(), data);
    }
}

#[test]
fn egap_keeps_what_does_not_shrink() {
    let mut expected = b"EGAP\x03\x00\x00\x00\x00\x00".to_vec();
    expected.extend(b"abc");
    assert_eq!(entropy_encode(b"abc"), expected);
    assert_eq!(entropy_encode(b""), b"EGAP\x00\x00\x00\x00\x00\x00");
}

#[test]
fn egap_segments_end_at_the_last_new_symbol() {
    let data: Vec<u8> = (0..=255u8).cycle().take(5000).collect();
    let (_, sizes) = egap_adaptive_encode(&data);
    // Each segment has 1024 bytes but the last.
    assert_eq!(sizes.len(), 5);
    let mut late = vec![0u8; 2000];
    late.extend(1..=255u8);
    late.extend(vec![9u8; 100]);
    let (_, sizes) = egap_adaptive_encode(&late);
    assert_eq!(sizes.len(), 2);
    assert_eq!(egap_adaptive_encode(b""), (vec![], vec![]));
}

#[test]
fn egap_errors() {
    assert!(matches!(entropy_decode(b"EGAX\x00\x00\x00\x00\x00\x00"), Err(EgapError::MissingMagic)));
    assert!(matches!(
        entropy_decode(b"EGAP\x01\x00\x00\x00\x01\x00a"),
        Err(EgapError::TruncatedHeader)
    ));
    let data = b"a".repeat(64);
    let mut out = entropy_encode(&data);
    out.pop();
    assert!(matches!(
        entropy_decode(&out),
        Err(EgapError::SizeMismatch { found: 56, expected: 64 })
    ));
    let (coded, _) = egap_adaptive_encode(&data);
    assert!(egap_adaptive_decode(&coded, &[coded.len() as u32 + 1]).is_err());
}
