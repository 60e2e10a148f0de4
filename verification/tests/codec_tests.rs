use rpc_codec::arena::{Arena, RpcError};
use rpc_codec::codec::{recv_return, recv_value, send_args, send_value};
use rpc_codec::tag::{split_tag, round_up, Tag, TagIterator};

fn be32(v: u32) -> [u8; 4] {
    [(v >> 24) as u8, (v >> 16) as u8, (v >> 8) as u8, v as u8]
}

#[test]
fn round_up_examples() {
    assert_eq!(round_up(0, 8), 0);
    assert_eq!(round_up(5, 4), 8);
    assert_eq!(round_up(8, 8), 8);
    assert_eq!(round_up(9, 8), 16);
    assert_eq!(round_up(7, 1), 7);
}

#[test]
fn split_tag_at_first_separator() {
    let (args, ret) = split_tag(b"li:n");
    assert_eq!(args, b"li");
    assert_eq!(ret, b"n");
    let (args2, ret2) = split_tag(b":i");
    assert_eq!(args2, b"");
    assert_eq!(ret2, b"i");
    let (args3, ret3) = split_tag(b"i:s:n");
    assert_eq!(args3, b"i");
    assert_eq!(ret3, b"s:n");
}

#[test]
fn iterator_parses_scalars() {
    let mut it = TagIterator::new(b"ibIf");
    assert_eq!(it.next(), Some(Tag::Int32));
    assert_eq!(it.next(), Some(Tag::Bool));
    assert_eq!(it.next(), Some(Tag::Int64));
    assert_eq!(it.next(), Some(Tag::Float64));
    assert_eq!(it.next(), None);
}

#[test]
fn iterator_spans_composites_exactly() {
    let mut it = TagIterator::new(b"t\x02ibn");
    let t = it.next().unwrap();
    assert_eq!(t, Tag::Tuple(vec![Tag::Int32, Tag::Bool]));
    assert_eq!(it.next(), Some(Tag::Unit));
    assert_eq!(it.next(), None);

    let mut it2 = TagIterator::new(b"la\x02rb");
    assert_eq!(
        it2.next(),
        Some(Tag::List(Box::new(Tag::Array(Box::new(Tag::Range(Box::new(Tag::Bool))), 2))))
    );
    assert_eq!(it2.next(), None);
}

#[test]
fn iterator_rejects_unknown_and_truncated() {
    // A malformed stream is distinguishable from an exhausted one: bytes
    // remain after `next` returns `None`.
    let mut it = TagIterator::new(b"x");
    assert_eq!(it.next(), None);
    assert!(it.remaining_len() > 0);
    let mut it2 = TagIterator::new(b"t\x03ib");
    assert_eq!(it2.next(), None);
    assert!(it2.remaining_len() > 0);
    let mut it3 = TagIterator::new(b"l");
    assert_eq!(it3.next(), None);
    assert!(it3.remaining_len() > 0);
    let mut it4 = TagIterator::new(b"i");
    assert_eq!(it4.next(), Some(Tag::Int32));
    assert_eq!(it4.next(), None);
    assert_eq!(it4.remaining_len(), 0);
}

#[test]
fn iterator_clones_cheaply() {
    // Re-reading a child tag twice, once for layout and once for
    // traversal, is the common pattern: a clone keeps its own cursor.
    let mut it = TagIterator::new(b"ib");
    let mut fork = it.clone();
    assert_eq!(it.next(), Some(Tag::Int32));
    assert_eq!(fork.next(), Some(Tag::Int32));
    assert_eq!(fork.next(), Some(Tag::Bool));
    assert_eq!(it.next(), Some(Tag::Bool));
}

#[test]
fn tag_bytes_round_trip() {
    assert_eq!(Tag::Int32.as_u8(), b'i');
    assert_eq!(Tag::Unit.as_u8(), b'n');
    assert_eq!(Tag::Tuple(vec![Tag::Bool]).as_u8(), b't');
    assert_eq!(Tag::Object.as_u8(), b'O');
}

#[test]
fn layout_oracle_scalars_and_slices() {
    assert_eq!(Tag::Unit.size(), 0);
    assert_eq!(Tag::Unit.alignment(), 1);
    assert_eq!(Tag::Bool.size(), 1);
    assert_eq!(Tag::Int32.size(), 4);
    assert_eq!(Tag::Int32.alignment(), 4);
    assert_eq!(Tag::Int64.size(), 8);
    assert_eq!(Tag::Int64.alignment(), 8);
    assert_eq!(Tag::Str.size(), 8);
    assert_eq!(Tag::Str.alignment(), 4);
    assert_eq!(Tag::List(Box::new(Tag::Int64)).size(), 8);
    assert_eq!(Tag::Array(Box::new(Tag::Int32), 2).size(), 12);
}

#[test]
fn tuple_packing_offsets() {
    // int32 at 0, bool at 4, tail padding to alignment 4: size 8.
    let t = Tag::Tuple(vec![Tag::Int32, Tag::Bool]);
    assert_eq!(t.alignment(), 4);
    assert_eq!(t.size(), 8);
    // bool at 0, int64 rounded up to 8: size 16, alignment 8.
    let t2 = Tag::Tuple(vec![Tag::Bool, Tag::Int64]);
    assert_eq!(t2.alignment(), 8);
    assert_eq!(t2.size(), 16);
    // range of int32: three strides of 4.
    assert_eq!(Tag::Range(Box::new(Tag::Int32)).size(), 12);
    assert_eq!(Tag::Range(Box::new(Tag::Int32)).alignment(), 4);
}

#[test]
fn send_args_int32() {
    // tag "i:n", one int32 argument 0x11223344.
    let mut arena = Arena::new(1024);
    let a = arena.allocate(4).unwrap();
    arena.write_u32(a, 0x11223344);
    let mut out = Vec::new();
    let addrs = vec![a];
    send_args(&mut out, 9, b"i:n", &arena, &addrs).unwrap();
    let mut expect = Vec::new();
    expect.extend_from_slice(&be32(9));
    expect.push(b'i');
    expect.extend_from_slice(&be32(0x11223344));
    expect.push(0);
    expect.push(b'n');
    assert_eq!(out, expect);
}

#[test]
fn send_args_list_of_int32() {
    // tag "li:n", one list [1, 2, 3].
    let mut arena = Arena::new(1024);
    let hdr = arena.allocate(8).unwrap();
    let sto = arena.allocate(12).unwrap();
    arena.write_u32(sto, 1);
    arena.write_u32(sto + 4, 2);
    arena.write_u32(sto + 8, 3);
    arena.write_u32(hdr, sto as u32);
    arena.write_u32(hdr + 4, 3);
    let mut out = Vec::new();
    let addrs = vec![hdr];
    send_args(&mut out, 7, b"li:n", &arena, &addrs).unwrap();
    let mut expect = Vec::new();
    expect.extend_from_slice(&be32(7));
    expect.push(b'l');
    expect.extend_from_slice(&be32(3));
    expect.push(b'i');
    for v in [1u32, 2, 3] {
        expect.extend_from_slice(&be32(v));
    }
    expect.push(0);
    expect.push(b'n');
    assert_eq!(out, expect);
}

#[test]
fn send_args_string() {
    // tag "s:n", one string "hi".
    let mut arena = Arena::new(1024);
    let hdr = arena.allocate(8).unwrap();
    let sto = arena.allocate(2).unwrap();
    arena.write_u8(sto, b'h');
    arena.write_u8(sto + 1, b'i');
    arena.write_u32(hdr, sto as u32);
    arena.write_u32(hdr + 4, 2);
    let mut out = Vec::new();
    let addrs = vec![hdr];
    send_args(&mut out, 1, b"s:n", &arena, &addrs).unwrap();
    let mut expect = Vec::new();
    expect.extend_from_slice(&be32(1));
    expect.push(b's');
    expect.extend_from_slice(&be32(2));
    expect.extend_from_slice(b"hi");
    expect.push(0);
    expect.push(b'n');
    assert_eq!(out, expect);
}

#[test]
fn send_args_tuple_int32_bool() {
    // tag "t\x02ib:n", one tuple (7, true): 4 bytes int, 1 byte bool, 3
    // bytes tail padding; wire carries no padding.
    let mut arena = Arena::new(1024);
    let a = arena.allocate(8).unwrap();
    arena.write_u32(a, 7);
    arena.write_u8(a + 4, 1);
    let mut out = Vec::new();
    let addrs = vec![a];
    send_args(&mut out, 5, b"t\x02ib:n", &arena, &addrs).unwrap();
    let mut expect = Vec::new();
    expect.extend_from_slice(&be32(5));
    expect.push(b't');
    expect.push(2);
    expect.push(b'i');
    expect.extend_from_slice(&be32(7));
    expect.push(b'b');
    expect.push(1);
    expect.push(0);
    expect.push(b'n');
    assert_eq!(out, expect);
}

#[test]
fn send_args_array_2x3() {
    // tag "a\x02i:n", one 2x3 array [[1,2,3],[4,5,6]].
    let mut arena = Arena::new(1024);
    let hdr = arena.allocate(12).unwrap();
    let sto = arena.allocate(24).unwrap();
    for (i, v) in [1u32, 2, 3, 4, 5, 6].iter().enumerate() {
        arena.write_u32(sto + 4 * i, *v);
    }
    arena.write_u32(hdr, sto as u32);
    arena.write_u32(hdr + 4, 2);
    arena.write_u32(hdr + 8, 3);
    let mut out = Vec::new();
    let addrs = vec![hdr];
    send_args(&mut out, 3, b"a\x02i:n", &arena, &addrs).unwrap();
    let mut expect = Vec::new();
    expect.extend_from_slice(&be32(3));
    expect.push(b'a');
    expect.push(2);
    expect.extend_from_slice(&be32(2));
    expect.extend_from_slice(&be32(3));
    expect.push(b'i');
    for v in [1u32, 2, 3, 4, 5, 6] {
        expect.extend_from_slice(&be32(v));
    }
    expect.push(0);
    expect.push(b'n');
    assert_eq!(out, expect);
}

#[test]
fn recv_return_int32() {
    // tag ":i": the stream holds only the 4-byte value body.
    let wire: Vec<u8> = be32(0x0a0b0c0d).to_vec();
    let mut wpos = 0usize;
    let mut arena = Arena::new(1024);
    let dest = arena.allocate(4).unwrap();
    recv_return(&wire, &mut wpos, b"i", &mut arena, dest).unwrap();
    assert_eq!(wpos, 4);
    assert_eq!(arena.read_u32(dest), 0x0a0b0c0d);
}

#[test]
fn recv_list_one_allocation() {
    // Decoding List(Int32) of length 3 allocates once: padded header
    // room plus element storage, round_up(8, 4) + 3 * 4 = 20 bytes.
    let mut wire: Vec<u8> = Vec::new();
    wire.extend_from_slice(&be32(3));
    for v in [10u32, 20, 30] {
        wire.extend_from_slice(&be32(v));
    }
    let mut wpos = 0usize;
    let mut arena = Arena::new(1024);
    let dest = arena.allocate(8).unwrap();
    let before = arena.len();
    let mut cursor = dest;
    let t = Tag::List(Box::new(Tag::Int32));
    recv_value(&wire, &mut wpos, &t, &mut arena, &mut cursor).unwrap();
    assert_eq!(cursor, dest + 8);
    assert_eq!(wpos, wire.len());
    // one allocation of exactly 20 bytes, 8-byte aligned
    assert_eq!(arena.len(), round_up(before, 8) + 20);
    // header: the elements pointer (past the 8 padded header bytes of the
    // allocation), then the length
    let p = arena.read_u32(dest) as usize;
    assert_eq!(p, round_up(before, 8) + 8);
    assert_eq!(arena.read_u32(dest + 4), 3);
    assert_eq!(arena.read_u32(p), 10);
    assert_eq!(arena.read_u32(p + 4), 20);
    assert_eq!(arena.read_u32(p + 8), 30);
}

#[test]
fn decode_then_encode_reproduces_list() {
    // Round trip through the allocator: decode a list body, then encode
    // the decoded memory; the elements come back exactly.
    let mut wire: Vec<u8> = Vec::new();
    wire.extend_from_slice(&be32(2));
    wire.extend_from_slice(&be32(0x0102_0304));
    wire.extend_from_slice(&be32(0x0506_0708));
    let mut wpos = 0usize;
    let mut arena = Arena::new(1024);
    let dest = arena.allocate(8).unwrap();
    let mut cursor = dest;
    let t = Tag::List(Box::new(Tag::Int32));
    recv_value(&wire, &mut wpos, &t, &mut arena, &mut cursor).unwrap();
    assert_eq!(wpos, wire.len());
    let mut out = Vec::new();
    let mut scur = dest;
    send_value(&mut out, &t, &arena, &mut scur).unwrap();
    let mut expect = vec![b'l'];
    expect.extend_from_slice(&be32(2));
    expect.push(b'i');
    expect.extend_from_slice(&be32(0x0102_0304));
    expect.extend_from_slice(&be32(0x0506_0708));
    assert_eq!(out, expect);
}

#[test]
fn recv_array_allocates_product() {
    // Decoding Array(Int32, 2) with dims 2 x 3 allocates 4 * 6 = 24 bytes.
    let mut wire: Vec<u8> = Vec::new();
    wire.extend_from_slice(&be32(2));
    wire.extend_from_slice(&be32(3));
    for v in 1u32..=6 {
        wire.extend_from_slice(&be32(v));
    }
    let mut wpos = 0usize;
    let mut arena = Arena::new(1024);
    let dest = arena.allocate(12).unwrap();
    let before = arena.len();
    let mut cursor = dest;
    let t = Tag::Array(Box::new(Tag::Int32), 2);
    recv_value(&wire, &mut wpos, &t, &mut arena, &mut cursor).unwrap();
    assert_eq!(cursor, dest + 12);
    assert_eq!(wpos, wire.len());
    assert_eq!(arena.len(), round_up(before, 8) + 24);
    let p = arena.read_u32(dest) as usize;
    assert_eq!(arena.read_u32(dest + 4), 2);
    assert_eq!(arena.read_u32(dest + 8), 3);
    assert_eq!(arena.read_u32(p), 1);
    assert_eq!(arena.read_u32(p + 20), 6);
}

#[test]
fn decode_then_encode_reproduces_tuple_body() {
    // Round trip: decode a tuple body, re-encode it, and the wire comes
    // back exactly (the re-encoding adds the tag framing).
    let mut wire: Vec<u8> = Vec::new();
    wire.extend_from_slice(&be32(7));
    wire.push(1);
    let mut wpos = 0usize;
    let mut arena = Arena::new(1024);
    let dest = arena.allocate(8).unwrap();
    let mut cursor = dest;
    let t = Tag::Tuple(vec![Tag::Int32, Tag::Bool]);
    recv_value(&wire, &mut wpos, &t, &mut arena, &mut cursor).unwrap();
    assert_eq!(wpos, wire.len());
    assert_eq!(cursor, dest + 8);
    let mut out = Vec::new();
    let mut scur = dest;
    send_value(&mut out, &t, &arena, &mut scur).unwrap();
    assert_eq!(scur, dest + 8);
    let mut expect = vec![b't', 2, b'i'];
    expect.extend_from_slice(&be32(7));
    expect.push(b'b');
    expect.push(1);
    assert_eq!(out, expect);
}

#[test]
fn decode_range_advances_three_strides() {
    let mut wire: Vec<u8> = Vec::new();
    for v in [1u32, 100, 2] {
        wire.extend_from_slice(&be32(v));
    }
    let mut wpos = 0usize;
    let mut arena = Arena::new(1024);
    let dest = arena.allocate(12).unwrap();
    let mut cursor = dest;
    let t = Tag::Range(Box::new(Tag::Int32));
    recv_value(&wire, &mut wpos, &t, &mut arena, &mut cursor).unwrap();
    assert_eq!(cursor, dest + 12);
    assert_eq!(arena.read_u32(dest), 1);
    assert_eq!(arena.read_u32(dest + 4), 100);
    assert_eq!(arena.read_u32(dest + 8), 2);
}

#[test]
fn recv_string_allocates_payload() {
    let mut wire: Vec<u8> = Vec::new();
    wire.extend_from_slice(&be32(5));
    wire.extend_from_slice(b"hello");
    let mut wpos = 0usize;
    let mut arena = Arena::new(1024);
    let dest = arena.allocate(8).unwrap();
    let mut cursor = dest;
    recv_value(&wire, &mut wpos, &Tag::Str, &mut arena, &mut cursor).unwrap();
    assert_eq!(cursor, dest + 8);
    let p = arena.read_u32(dest) as usize;
    assert_eq!(arena.read_u32(dest + 4), 5);
    let got: Vec<u8> = (0..5).map(|i| arena.read_u8(p + i)).collect();
    assert_eq!(got, b"hello");
}

#[test]
fn truncated_stream_is_an_error() {
    let wire: Vec<u8> = vec![0, 0];
    let mut wpos = 0usize;
    let mut arena = Arena::new(1024);
    let dest = arena.allocate(4).unwrap();
    let mut cursor = dest;
    let r = recv_value(&wire, &mut wpos, &Tag::Int32, &mut arena, &mut cursor);
    assert_eq!(r, Err(RpcError::UnexpectedEnd));
}

#[test]
fn exhausted_arena_is_an_error() {
    // A list of 100 int32 elements cannot fit an arena of 16 bytes.
    let mut wire: Vec<u8> = Vec::new();
    wire.extend_from_slice(&be32(100));
    for _ in 0..100 {
        wire.extend_from_slice(&be32(1));
    }
    let mut arena = Arena::new(16);
    let dest = arena.allocate(8).unwrap();
    let mut wpos = 0usize;
    let mut cursor = dest;
    let t = Tag::List(Box::new(Tag::Int32));
    let r = recv_value(&wire, &mut wpos, &t, &mut arena, &mut cursor);
    assert_eq!(r, Err(RpcError::AllocFailed));
}

#[test]
fn send_object_emits_id() {
    let mut arena = Arena::new(64);
    let cell = arena.allocate(4).unwrap();
    let target = arena.allocate(4).unwrap();
    arena.write_u32(target, 0xdead);
    arena.write_u32(cell, target as u32);
    let mut out = Vec::new();
    let mut cur = cell;
    send_value(&mut out, &Tag::Object, &arena, &mut cur).unwrap();
    let mut expect = vec![b'O'];
    expect.extend_from_slice(&be32(0xdead));
    assert_eq!(out, expect);
}

#[test]
fn send_keyword_emits_name_then_value() {
    // keyword envelope: name slice header, then the value right after it.
    let mut arena = Arena::new(64);
    let kw = arena.allocate(12).unwrap();
    let name = arena.allocate(3).unwrap();
    arena.write_u8(name, b'k');
    arena.write_u8(name + 1, b'e');
    arena.write_u8(name + 2, b'y');
    arena.write_u32(kw, name as u32);
    arena.write_u32(kw + 4, 3);
    arena.write_u32(kw + 8, 42);
    let mut out = Vec::new();
    let mut cur = kw;
    let t = Tag::Keyword(Box::new(Tag::Int32));
    send_value(&mut out, &t, &arena, &mut cur).unwrap();
    let mut expect = vec![b'k'];
    expect.extend_from_slice(&be32(3));
    expect.extend_from_slice(b"key");
    expect.push(b'i');
    expect.extend_from_slice(&be32(42));
    assert_eq!(out, expect);
}
