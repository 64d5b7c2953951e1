use fluke::hpack::{decode_int, decode_string, encode_block, encode_int, Decoder, Encoder, HeaderField};

fn field(n: &str, v: &str) -> HeaderField {
    HeaderField { name: n.as_bytes().to_vec(), value: v.as_bytes().to_vec() }
}

fn pairs(fs: &[HeaderField]) -> Vec<(String, String)> {
    fs.iter()
        .map(|f| (String::from_utf8(f.name.clone()).unwrap(), String::from_utf8(f.value.clone()).unwrap()))
        .collect()
}

fn p(n: &str, v: &str) -> (String, String) {
    (n.to_string(), v.to_string())
}

#[test]
fn integers_from_the_rfc_examples() {
    assert_eq!(decode_int(&[0x0a], 0, 31), Some((10, 1)));
    assert_eq!(decode_int(&[0x1f, 0x9a, 0x0a], 0, 31), Some((1337, 3)));
    assert_eq!(decode_int(&[0x2a], 0, 127), Some((42, 1)));
    assert_eq!(decode_int(&[0x1f, 0x9a], 0, 31), None);
    assert_eq!(decode_int(&[0x1f, 0xff, 0xff, 0xff, 0xff, 0xff, 0x01], 0, 31), None);
    let mut out = Vec::new();
    encode_int(&mut out, 0, 31, 1337);
    assert_eq!(out, vec![0x1f, 0x9a, 0x0a]);
    let mut out = Vec::new();
    encode_int(&mut out, 0x20, 31, 10);
    assert_eq!(out, vec![0x2a]);
}

#[test]
fn strings_plain_and_huffman() {
    let plain = [0x03, b'a', b'b', b'c'];
    assert_eq!(decode_string(&plain, 0), Some((b"abc".to_vec(), 4)));
    // "www.example.com", Huffman-coded (RFC 7541 C.4.1).
    let coded = [0x8c, 0xf1, 0xe3, 0xc2, 0xe5, 0xf2, 0x3a, 0x6b, 0xa0, 0xab, 0x90, 0xf4, 0xff];
    assert_eq!(decode_string(&coded, 0), Some((b"www.example.com".to_vec(), 13)));
    assert_eq!(decode_string(&[0x05, b'a'], 0), None);
    // EOS padding longer than seven bits.
    assert_eq!(decode_string(&[0x82, 0xff, 0xff], 0), None);
}

#[test]
fn request_without_huffman_fills_the_dynamic_table() {
    let mut d = Decoder::new(4096);
    let block = [
        0x82, 0x86, 0x84, 0x41, 0x0f, b'w', b'w', b'w', b'.', b'e', b'x', b'a', b'm', b'p', b'l',
        b'e', b'.', b'c', b'o', b'm',
    ];
    let fs = d.decode(&block).unwrap();
    assert_eq!(
        pairs(&fs),
        vec![p(":method", "GET"), p(":scheme", "http"), p(":path", "/"), p(":authority", "www.example.com")]
    );
    // Second request of RFC 7541 C.3.2 uses index 62 and adds cache-control.
    let block2 = [0x82, 0x86, 0x84, 0xbe, 0x58, 0x08, b'n', b'o', b'-', b'c', b'a', b'c', b'h', b'e'];
    let fs = d.decode(&block2).unwrap();
    assert_eq!(pairs(&fs)[3], p(":authority", "www.example.com"));
    assert_eq!(pairs(&fs)[4], p("cache-control", "no-cache"));
    // Now index 62 is cache-control and 63 is :authority.
    let fs = d.decode(&[0xbe, 0xbf]).unwrap();
    assert_eq!(pairs(&fs), vec![p("cache-control", "no-cache"), p(":authority", "www.example.com")]);
}

#[test]
fn request_with_huffman() {
    let mut d = Decoder::new(4096);
    let block = [
        0x82, 0x86, 0x84, 0x41, 0x8c, 0xf1, 0xe3, 0xc2, 0xe5, 0xf2, 0x3a, 0x6b, 0xa0, 0xab, 0x90,
        0xf4, 0xff,
    ];
    let fs = d.decode(&block).unwrap();
    assert_eq!(pairs(&fs)[3], p(":authority", "www.example.com"));
}

#[test]
fn decoding_errors() {
    let mut d = Decoder::new(4096);
    assert!(d.decode(&[0x40]).is_none());
    let mut d = Decoder::new(4096);
    assert!(d.decode(&[0x80]).is_none());
    let mut d = Decoder::new(4096);
    assert!(d.decode(&[0xbe]).is_none());
    let mut d = Decoder::new(4096);
    // A size update above the limit.
    assert!(d.decode(&[0x3f, 0xe2, 0x1f]).is_none());
    let mut d = Decoder::new(4096);
    // A size update after a field.
    assert!(d.decode(&[0x82, 0x20]).is_none());
    let mut d = Decoder::new(4096);
    assert_eq!(d.decode(&[0x20, 0x82]).map(|f| f.len()), Some(1));
    assert!(d.decode(&[]).unwrap().is_empty());
}

#[test]
fn small_table_evicts_the_oldest() {
    let mut d = Decoder::new(4096);
    // Shrink to 40 octets: one entry of name 1 + value 1 (+32) fits, two do not.
    assert!(d.decode(&[0x3f, 0x09]).unwrap().is_empty());
    d.decode(&[0x40, 0x01, b'a', 0x01, b'1']).unwrap();
    d.decode(&[0x40, 0x01, b'b', 0x01, b'2']).unwrap();
    let fs = d.decode(&[0xbe]).unwrap();
    assert_eq!(pairs(&fs), vec![p("b", "2")]);
    assert!(d.decode(&[0xbf]).is_none());
}

#[test]
fn encoded_blocks_decode_to_the_same_fields() {
    let fields = vec![field(":status", "200"), field("content-type", "text/plain"), field("x-empty", "")];
    let block = encode_block(&fields);
    let mut d = Decoder::new(4096);
    assert_eq!(pairs(&d.decode(&block).unwrap()), pairs(&fields));
    let long = "v".repeat(300);
    let fields = vec![field("x-long", &long)];
    let block = encode_block(&fields);
    assert_eq!(pairs(&d.decode(&block).unwrap()), pairs(&fields));
}

#[test]
fn encoder_announces_a_lower_table_size() {
    let mut e = Encoder::new();
    let fields = vec![field(":status", "204")];
    let plain = e.encode(&fields);
    assert_eq!(plain, encode_block(&fields));
    e.set_limit(8192);
    assert_eq!(e.encode(&fields), plain);
    e.set_limit(100);
    let with_update = e.encode(&fields);
    assert_eq!(&with_update[..2], &[0x3f, 0x45][..]);
    assert_eq!(&with_update[2..], &plain[..]);
    assert_eq!(e.encode(&fields), plain);
    let mut d = Decoder::new(4096);
    assert_eq!(pairs(&d.decode(&with_update).unwrap()), pairs(&fields));
}
