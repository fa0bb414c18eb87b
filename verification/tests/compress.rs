use splaycompress::error::ErrorKind;
use splaycompress::splay::{Arena16, Arena8, NodeArena};
use splaycompress::symbol::{SymbolRead16BE, SymbolRead8, SymbolWrite16BE, SymbolWrite8};
use splaycompress::{
    compress, compress16be, compress16le, compress8, compress_raw, decompress, decompress16be,
    decompress16le, decompress8, decompress_raw, Flavor, MAGIC_FORMAT_SYMBOL16BE,
    MAGIC_FORMAT_SYMBOL16LE, MAGIC_FORMAT_SYMBOL8,
};

fn assert_compression(flavor: Flavor, input: &[u8], output: &[u8]) {
    let mut buf = Vec::new();
    compress(flavor, input, &mut buf).unwrap();
    assert_eq!(output, &buf);
}

fn assert_decompression(flavor: Flavor, input: &[u8], output: &[u8]) {
    let mut buf = Vec::new();
    decompress(flavor, input, &mut buf).unwrap();
    assert_eq!(output, &buf);
}

fn assert_roundtrip(flavor: Flavor, plaintext: &[u8], compressed: &[u8]) {
    assert_compression(flavor, plaintext, compressed);
    assert_decompression(flavor, compressed, plaintext);
}

#[test]
fn test_empty() {
    assert_roundtrip(Flavor::Symbol8, &[], &[]);
    assert_roundtrip(Flavor::Symbol16BE, &[], &[]);
    assert_roundtrip(Flavor::Symbol16LE, &[], &[]);
}

#[test]
fn test_single_symbol_8() {
    for b in 0..=255 {
        assert_roundtrip(Flavor::Symbol8, &[b], &[b]);
    }
}

#[test]
fn test_hello_world() {
    assert_roundtrip(
        Flavor::Symbol8,
        b"Hello, World!\n",
        b"\x48\xa5\xa8\xf9\x81\x62\x19\x2f\x91\x16\x4a\x40\x50",
    );
    assert_roundtrip(
        Flavor::Symbol16BE,
        b"Hello, World!\n",
        b"\x48\x65\xac\x6c\x99\x60\x40\xaf\x8e\x4a\xf4\x43\x0a",
    );
    assert_roundtrip(
        Flavor::Symbol16LE,
        b"Hello, World!\n",
        b"\x65\x48\xa8\xd8\x16\x37\xcd\xc8\x34\x9b\xd5\x36\x02\x88\x40",
    );
}

#[test]
fn test_16_odd() {
    assert_decompression(Flavor::Symbol16BE, b"\x48\x65", b"He");
    assert_decompression(Flavor::Symbol16BE, b"\x48\x65\x00", b"He");
    assert_decompression(Flavor::Symbol16BE, b"\x48\x65\xff", b"He");
}

#[test]
fn test_hello_world_alternatives() {
    assert_decompression(
        Flavor::Symbol8,
        b"\x48\xa5\xa8\xf9\x81\x62\x19\x2f\x91\x16\x4a\x40\x51",
        b"Hello, World!\n",
    );
    assert_decompression(
        Flavor::Symbol8,
        b"\x48\xa5\xa8\xf9\x81\x62\x19\x2f\x91\x16\x4a\x40\x52",
        b"Hello, World!\n",
    );
    assert_decompression(
        Flavor::Symbol8,
        b"\x48\xa5\xa8\xf9\x81\x62\x19\x2f\x91\x16\x4a\x40\x54",
        b"Hello, World!\n",
    );
    assert_decompression(
        Flavor::Symbol8,
        b"\x48\xa5\xa8\xf9\x81\x62\x19\x2f\x91\x16\x4a\x40\x55",
        b"Hello, World!\n",
    );
    assert_decompression(
        Flavor::Symbol8,
        b"\x48\xa5\xa8\xf9\x81\x62\x19\x2f\x91\x16\x4a\x40\x56",
        b"Hello, World!\n",
    );
    assert_decompression(
        Flavor::Symbol8,
        b"\x48\xa5\xa8\xf9\x81\x62\x19\x2f\x91\x16\x4a\x40\x57",
        b"Hello, World!\n",
    );
}

#[test]
fn test_anti_hello_world() {
    assert_roundtrip(
        Flavor::Symbol8,
        b"HH+(($$###\"\"\x10\x0a#'(H*H(()(\x0b$",
        b"Hello, World!\n",
    );
}

#[test]
fn test_short() {
    assert_roundtrip(Flavor::Symbol8, b"short", b"\x73\x51\x3e\xf2\x00");
    assert_roundtrip(Flavor::Symbol8, b"shorter", b"\x73\x51\x3e\xf2\x02\xb4");
}

#[test]
fn hello_world_with_its_own_padding_decompresses() {
    assert_decompression(
        Flavor::Symbol8,
        b"\x48\xa5\xa8\xf9\x81\x62\x19\x2f\x91\x16\x4a\x40\x50",
        b"Hello, World!\n",
    );
}

#[test]
fn single_symbols_16() {
    for (b1, b2) in [(0u8, 0u8), (0, 1), (0x12, 0x34), (0x7f, 0xff), (0x80, 0x00), (0xff, 0xfe), (0xff, 0xff)] {
        assert_roundtrip(Flavor::Symbol16BE, &[b1, b2], &[b1, b2]);
        assert_roundtrip(Flavor::Symbol16LE, &[b1, b2], &[b2, b1]);
    }
}

#[test]
fn two_bytes_round_trip() {
    for b1 in [0u8, 1, 0x41, 0x7f, 0x80, 0xfe, 0xff] {
        for b2 in 0..=255 {
            let mut buf = Vec::new();
            compress8(&[b1, b2][..], &mut buf).unwrap();
            assert_decompression(Flavor::Symbol8, &buf, &[b1, b2]);
        }
    }
}

#[test]
fn round_trip_of_longer_inputs() {
    let mut plain = Vec::new();
    let mut state: u32 = 1;
    for i in 0..3000u32 {
        state = state.wrapping_mul(1664525).wrapping_add(1013904223);
        // Skewed, so that the tree has something to adapt to.
        let byte = if i % 3 == 0 { (state >> 24) as u8 } else { b'a' + ((state >> 28) as u8) };
        plain.push(byte);
    }
    for flavor in [Flavor::Symbol8, Flavor::Symbol16BE, Flavor::Symbol16LE] {
        let mut packed = Vec::new();
        compress(flavor, &plain, &mut packed).unwrap();
        let mut back = Vec::new();
        decompress(flavor, &packed, &mut back).unwrap();
        assert_eq!(back, plain);
    }
}

#[test]
fn repeated_symbols_get_short_codes() {
    let plain = [b'x'; 64];
    let mut packed = Vec::new();
    compress(Flavor::Symbol8, &plain, &mut packed).unwrap();
    // Eight bits for the first symbol, and two or three for each of the others.
    assert_eq!(packed.len(), 17);
    let mut back = Vec::new();
    decompress(Flavor::Symbol8, &packed, &mut back).unwrap();
    assert_eq!(back, plain);
}

#[test]
fn odd_input_is_refused_by_the_16_bit_flavors() {
    for flavor in [Flavor::Symbol16BE, Flavor::Symbol16LE] {
        let mut buf = Vec::new();
        let err = compress(flavor, b"abc", &mut buf).unwrap_err();
        assert_eq!(err.kind(), ErrorKind::UnexpectedEof);
        assert_eq!(err.message(), "unexpected end of file");
        // The one whole symbol was coded: sixteen bits, that is two full bytes.
        assert_eq!(buf.len(), 2);
        let mut buf = Vec::new();
        let err = compress(flavor, b"a", &mut buf).unwrap_err();
        assert_eq!(err.kind(), ErrorKind::UnexpectedEof);
        assert!(buf.is_empty());
    }
    let mut buf = Vec::new();
    assert_eq!(compress16be(b"abc", &mut buf).unwrap_err().kind(), ErrorKind::UnexpectedEof);
    assert_eq!(buf, b"ab");
    let mut buf = Vec::new();
    assert_eq!(compress16le(b"abc", &mut buf).unwrap_err().kind(), ErrorKind::UnexpectedEof);
    assert_eq!(buf, b"ba");
    let mut buf = Vec::new();
    compress(Flavor::Symbol8, b"abc", &mut buf).unwrap();
    assert_eq!(buf.len(), 3);
}

#[test]
fn output_is_appended() {
    let mut buf = vec![1, 2, 3];
    compress(Flavor::Symbol8, b"short", &mut buf).unwrap();
    assert_eq!(buf, b"\x01\x02\x03\x73\x51\x3e\xf2\x00");
    let mut buf = vec![9];
    decompress(Flavor::Symbol8, b"\x73\x51\x3e\xf2\x00", &mut buf).unwrap();
    assert_eq!(buf, b"\x09short");
    let mut buf = vec![9];
    decompress16be(b"\x48\x65", &mut buf).unwrap();
    assert_eq!(buf, b"\x09He");
    let mut buf = vec![9];
    decompress16le(b"\x65\x48", &mut buf).unwrap();
    assert_eq!(buf, b"\x09He");
    let mut buf = vec![9];
    decompress8(b"\x48", &mut buf).unwrap();
    assert_eq!(buf, b"\x09H");
}

#[test]
fn the_flavors_name_the_plain_functions() {
    let plain = b"Hello, World!\n";
    let mut a = Vec::new();
    let mut b = Vec::new();
    compress(Flavor::Symbol8, plain, &mut a).unwrap();
    compress8(plain, &mut b).unwrap();
    assert_eq!(a, b);
    let mut a = Vec::new();
    let mut b = Vec::new();
    compress(Flavor::Symbol16BE, plain, &mut a).unwrap();
    compress16be(plain, &mut b).unwrap();
    assert_eq!(a, b);
    let mut a = Vec::new();
    let mut b = Vec::new();
    compress(Flavor::Symbol16LE, plain, &mut a).unwrap();
    compress16le(plain, &mut b).unwrap();
    assert_eq!(a, b);
}

#[test]
fn raw_functions_leave_the_tree_as_coded() {
    let mut arena = Arena8::new_uniform();
    let mut out = Vec::new();
    let mut source = SymbolRead8(b"short".as_slice());
    compress_raw(&mut arena, &mut source, &mut out).unwrap();
    assert_eq!(out, b"\x73\x51\x3e\xf2\x00");
    assert!(source.0.is_empty());
    assert!(arena.is_consistent());
    // The parent of the leaf of the last symbol, 't', is the root.
    let root = arena.root_idx().as_internal().unwrap();
    assert!(root == b't' || root == b't' - 1);

    let mut other = Arena8::new_uniform();
    let mut sink = SymbolWrite8(Vec::new());
    decompress_raw(&mut other, b"\x73\x51\x3e\xf2\x00", &mut sink).unwrap();
    assert_eq!(sink.0, b"short");
    assert!(other.is_consistent());
    assert_eq!(other.root_idx(), arena.root_idx());
    for i in 0..255u8 {
        assert_eq!(other.node(i).left, arena.node(i).left);
        assert_eq!(other.node(i).right, arena.node(i).right);
    }
}

#[test]
fn raw_functions_go_on_from_the_tree_they_are_given() {
    // Two streams coded one after the other with one tree are read back with one tree.
    let mut arena = Arena16::new_uniform();
    let mut first = Vec::new();
    let mut second = Vec::new();
    compress_raw(&mut arena, &mut SymbolRead16BE(b"Hello, ".as_slice()), &mut first).unwrap_err();
    let mut arena = Arena16::new_uniform();
    first.clear();
    compress_raw(&mut arena, &mut SymbolRead16BE(b"Hello,".as_slice()), &mut first).unwrap();
    compress_raw(&mut arena, &mut SymbolRead16BE(b" World!\n".as_slice()), &mut second).unwrap();
    let mut other = Arena16::new_uniform();
    let mut sink = SymbolWrite16BE(Vec::new());
    decompress_raw(&mut other, &first, &mut sink).unwrap();
    decompress_raw(&mut other, &second, &mut sink).unwrap();
    assert_eq!(sink.0, b"Hello, World!\n");
}

#[test]
fn magic_bytes() {
    assert_eq!(&MAGIC_FORMAT_SYMBOL8, b"\xb3\xa9\x14\x00\xb9\x6c\x0d\xd8");
    assert_eq!(&MAGIC_FORMAT_SYMBOL16LE, b"\xf2\x41\xc0\x4f\x0d\x00\x5a\xf6");
    assert_eq!(&MAGIC_FORMAT_SYMBOL16BE, b"\xf6\x5a\x00\x0d\x4f\xc0\x41\xf2");
    let mut reversed = MAGIC_FORMAT_SYMBOL16LE;
    reversed.reverse();
    assert_eq!(reversed, MAGIC_FORMAT_SYMBOL16BE);
    for magic in [MAGIC_FORMAT_SYMBOL8, MAGIC_FORMAT_SYMBOL16LE, MAGIC_FORMAT_SYMBOL16BE] {
        assert_eq!(magic.iter().filter(|b| **b == 0x00).count(), 1);
        assert_eq!(magic.iter().filter(|b| **b == 0x0d).count(), 1);
        assert!(magic[0] != 0x00 && magic[0] != 0x0d);
        assert!(magic[7] != 0x00 && magic[7] != 0x0d);
    }
}
