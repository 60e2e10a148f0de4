//! The tag-driven decoder and encoder.
//!
//! Both walk a tag and a memory cursor in lockstep: the decoder reads the
//! framed wire stream and writes a value into the arena, allocating backing
//! storage for indirect values; the encoder reads a value back out of
//! memory and writes the wire stream.  The cursor always advances by
//! exactly the tag's size past its aligned start, and both directions
//! consult the layout oracle (`tag_size`, `tag_align`) for every move.

use vstd::prelude::*;

use crate::arena::{Arena, RpcError, u32_from_be, u32_be_bytes, lemma_u32_be_round_trip};
use crate::tag::{
    TagIterator, split_tag, TAG_SEPARATOR, encoding_all, tags_enc_valid, enc_valid, lemma_enc_len_det,
    lemma_encoding_head,
    TB_NONE, TB_BOOL, TB_INT32, TB_INT64, TB_FLOAT64, TB_STRING, TB_BYTES, TB_BYTE_ARRAY,
    TB_TUPLE, TB_LIST, TB_ARRAY, TB_RANGE, TB_KEYWORD, TB_OBJECT, encoding,
    Tag, round_up, round_up_spec, tag_size, tag_align, tag_wf, tags_wf, is_flat, is_scalar,
    mal_upto, off_after, lemma_round_up_props, lemma_round_up_ge, lemma_round_up_add_base,
    lemma_align_divides, lemma_aligned_multiple, lemma_mal_props, lemma_tags_wf_index,
    lemma_tags_flat_index, tags_flat, lemma_concat_split, lemma_wf_layout, lemma_align_pos, lemma_off_after_mono,
    lemma_mul_multiple, align_ok, layout_ok,
};

verus! {

/// All sizes on the decode path fit the arena's address space, so the
/// executable layout arithmetic cannot overflow.
pub open spec fn sizes_ok(t: Tag) -> bool
    decreases t, 0nat,
{
    tag_size(t) <= 0xffff_fff0 && match t {
        Tag::Tuple(ch) => sizes_ok_all(ch@),
        Tag::List(c) => sizes_ok(*c),
        Tag::Array(c, _) => sizes_ok(*c),
        Tag::Range(c) => sizes_ok(*c),
        Tag::Keyword(c) => sizes_ok(*c),
        _ => true,
    }
}

/// `sizes_ok` for every tag of `ts`.
pub open spec fn sizes_ok_all(ts: Seq<Tag>) -> bool
    decreases ts,
{
    ts.len() == 0 || (sizes_ok(ts[0]) && sizes_ok_all(ts.subrange(1, ts.len() as int)))
}

/// Every element of a size-bounded sequence is size-bounded.
pub proof fn lemma_sizes_ok_index(ts: Seq<Tag>, i: int)
    requires
        sizes_ok_all(ts),
        0 <= i < ts.len(),
    ensures
        sizes_ok(ts[i]),
    decreases i,
{
    if i > 0 {
        lemma_sizes_ok_index(ts.subrange(1, ts.len() as int), i - 1);
    }
}

/// The product of the `nd` big-endian 32-bit dimension lengths stored in
/// `wire` from `at` on: the element count of an array.
pub open spec fn dims_product(wire: Seq<u8>, at: int, nd: nat) -> nat
    decreases nd,
{
    if nd == 0 {
        1
    } else {
        (u32_from_be(wire.subrange(at, at + 4)) as nat) * dims_product(wire, at + 4, (nd - 1) as nat)
    }
}

/// The number of wire bytes the body of a flat value occupies.
pub open spec fn wire_len(t: Tag) -> nat
    decreases t, 0nat,
{
    match t {
        Tag::Unit => 0,
        Tag::Bool => 1,
        Tag::Int32 => 4,
        Tag::Int64 | Tag::Float64 => 8,
        Tag::Tuple(ch) => wire_len_fields(ch@, 0),
        Tag::Range(c) => 3 * wire_len(*c),
        _ => 0,
    }
}

/// The summed wire lengths of the fields `ts[k..]`.
pub open spec fn wire_len_fields(ts: Seq<Tag>, k: int) -> nat
    decreases ts, ts.len() - k,
{
    if k < 0 || k >= ts.len() {
        0
    } else {
        wire_len(ts[k]) + wire_len_fields(ts, k + 1)
    }
}

/// The memory cursor position after the fields `ts[k..]` have been laid
/// out starting from `cur`.
pub open spec fn fields_end(ts: Seq<Tag>, k: int, cur: nat) -> nat
    decreases ts, ts.len() - k,
{
    if k < 0 || k >= ts.len() {
        cur
    } else {
        fields_end(ts, k + 1, round_up_spec(cur, tag_align(ts[k])) + tag_size(ts[k]))
    }
}

/// Laying fields out never moves the cursor backwards.
pub proof fn lemma_fields_end_ge(ts: Seq<Tag>, k: int, cur: nat)
    ensures
        fields_end(ts, k, cur) >= cur,
    decreases ts.len() - k,
{
    if 0 <= k < ts.len() {
        lemma_round_up_ge(cur, tag_align(ts[k]));
        lemma_fields_end_ge(ts, k + 1, round_up_spec(cur, tag_align(ts[k])) + tag_size(ts[k]));
    }
}

/// From an aligned base, the field walk lands exactly on the packing
/// offsets of the layout oracle.
pub proof fn lemma_fields_end_off(ts: Seq<Tag>, k: int, base: nat)
    requires
        tags_wf(ts),
        0 <= k <= ts.len(),
        base % mal_upto(ts, ts.len() as int) == 0,
    ensures
        fields_end(ts, k, base + off_after(ts, k)) == base + off_after(ts, ts.len() as int),
    decreases ts.len() - k,
{
    if k < ts.len() {
        lemma_mal_props(ts, ts.len() as int);
        lemma_tags_wf_index(ts, k);
        lemma_wf_layout(ts[k]);
        let a = tag_align(ts[k]);
        let mal = mal_upto(ts, ts.len() as int);
        lemma_mal_le(ts, k, ts.len() as int);
        lemma_align_divides(a, mal);
        lemma_aligned_multiple(base, a, mal);
        lemma_round_up_add_base(base, off_after(ts, k), a);
        assert(off_after(ts, k + 1) == round_up_spec(off_after(ts, k), a) + tag_size(ts[k]));
        lemma_fields_end_off(ts, k + 1, base);
    }
}

/// The alignment of field `k` is bounded by the running maximum at any
/// later point.
pub proof fn lemma_mal_le(ts: Seq<Tag>, k: int, m: int)
    requires
        0 <= k < m <= ts.len(),
    ensures
        tag_align(ts[k]) <= mal_upto(ts, m),
    decreases m,
{
    if k < m - 1 {
        lemma_mal_le(ts, k, m - 1);
    }
}

/// Re-encoding the value read from four bytes gives the same four bytes.
pub proof fn lemma_u32_be_bytes_inverse(s: Seq<u8>)
    requires
        s.len() == 4,
    ensures
        u32_be_bytes(u32_from_be(s)) == s,
{
    let b0 = s[0];
    let b1 = s[1];
    let b2 = s[2];
    let b3 = s[3];
    let v = u32_from_be(s);
    assert((((b0 as u32) << 24) | ((b1 as u32) << 16) | ((b2 as u32) << 8) | (b3 as u32)) >> 24
        == b0 as u32 && (((b0 as u32) << 24) | ((b1 as u32) << 16) | ((b2 as u32) << 8) | (
    b3 as u32)) >> 16 == (b1 as u32 | ((b0 as u32) << 8)) && ((((b0 as u32) << 24) | ((
    b1 as u32) << 16) | ((b2 as u32) << 8) | (b3 as u32)) >> 16) as u8 == b1 && ((((b0 as u32)
        << 24) | ((b1 as u32) << 16) | ((b2 as u32) << 8) | (b3 as u32)) >> 8) as u8 == b2 && ((((
    b0 as u32) << 24) | ((b1 as u32) << 16) | ((b2 as u32) << 8) | (b3 as u32))) as u8 == b3 && ((((
    b0 as u32) << 24) | ((b1 as u32) << 16) | ((b2 as u32) << 8) | (b3 as u32)) >> 24) as u8 == b0)
        by (bit_vector);
    assert(u32_be_bytes(v) =~= s);
}

/// A sum of two multiples of `a` is a multiple of `a`.
pub proof fn lemma_mod_add_zero(x: nat, y: nat, a: nat)
    requires
        a >= 1,
        x % a == 0,
        y % a == 0,
    ensures
        (x + y) % a == 0,
{
    vstd::arithmetic::div_mod::lemma_fundamental_div_mod(x as int, a as int);
    vstd::arithmetic::div_mod::lemma_fundamental_div_mod(y as int, a as int);
    let q1 = x as int / a as int;
    let q2 = y as int / a as int;
    assert(x + y == (q1 + q2) * (a as int)) by (nonlinear_arith)
        requires
            x == (a as int) * q1,
            y == (a as int) * q2,
    ;
    vstd::arithmetic::div_mod::lemma_mod_multiples_basic(q1 + q2, a as int);
}

/// An adjacent pair of subranges concatenates to the enclosing one.
pub proof fn lemma_subrange_cat(s: Seq<u8>, a: int, b: int, c: int)
    requires
        0 <= a <= b <= c <= s.len(),
    ensures
        s.subrange(a, c) == s.subrange(a, b) + s.subrange(b, c),
{
    assert(s.subrange(a, c) =~= s.subrange(a, b) + s.subrange(b, c));
}

/// The wire body of a flat value stored at cursor position `at` of `mem`:
/// the value's bytes in layout order, padding skipped.  Scalars occupy
/// their own bytes verbatim, since memory and transport share one byte
/// order on the modeled target.
pub open spec fn flat_wire_at(t: Tag, mem: Seq<u8>, at: nat) -> Seq<u8>
    decreases t, 0nat,
{
    let ac = round_up_spec(at, tag_align(t));
    match t {
        Tag::Unit => Seq::empty(),
        Tag::Bool | Tag::Int32 | Tag::Int64 | Tag::Float64 => mem.subrange(
            ac as int,
            ac as int + tag_size(t) as int,
        ),
        Tag::Tuple(ch) => flat_fields_at(ch@, 0, mem, ac),
        Tag::Range(c) => flat_wire_at(*c, mem, ac) + flat_wire_at(*c, mem, ac + tag_size(*c))
            + flat_wire_at(*c, mem, ac + 2 * tag_size(*c)),
        _ => Seq::empty(),
    }
}

/// The concatenated wire bodies of the flat fields `ts[k..]` laid out from
/// cursor position `cur`.
pub open spec fn flat_fields_at(ts: Seq<Tag>, k: int, mem: Seq<u8>, cur: nat) -> Seq<u8>
    decreases ts, ts.len() - k,
{
    if k < 0 || k >= ts.len() {
        Seq::empty()
    } else {
        flat_wire_at(ts[k], mem, cur) + flat_fields_at(
            ts,
            k + 1,
            mem,
            round_up_spec(cur, tag_align(ts[k])) + tag_size(ts[k]),
        )
    }
}

/// Every field of the suffix `ts[k..]` is flat.
pub open spec fn fields_flat(ts: Seq<Tag>, k: int) -> bool {
    forall|i: int| k <= i < ts.len() ==> is_flat(#[trigger] ts[i])
}

/// A whole flat field list has every suffix flat.
pub proof fn lemma_tags_flat_all(ts: Seq<Tag>)
    requires
        tags_flat(ts),
    ensures
        fields_flat(ts, 0),
{
    assert forall|i: int| 0 <= i < ts.len() implies is_flat(#[trigger] ts[i]) by {
        lemma_tags_flat_index(ts, i);
    }
}

/// The wire body of a flat value depends only on the bytes of its window.
pub proof fn lemma_flat_frame(t: Tag, m1: Seq<u8>, m2: Seq<u8>, at: nat)
    requires
        tag_wf(t),
        is_flat(t),
        m1.len() == m2.len(),
        round_up_spec(at, tag_align(t)) + tag_size(t) <= m1.len(),
        forall|j: int|
            round_up_spec(at, tag_align(t)) <= j < round_up_spec(at, tag_align(t)) + tag_size(t)
                ==> m1[j] == m2[j],
    ensures
        flat_wire_at(t, m1, at) == flat_wire_at(t, m2, at),
    decreases t, 0nat,
{
    lemma_wf_layout(t);
    let ac = round_up_spec(at, tag_align(t));
    match t {
        Tag::Unit => {
        },
        Tag::Bool | Tag::Int32 | Tag::Int64 | Tag::Float64 => {
            assert(m1.subrange(ac as int, ac as int + tag_size(t) as int) =~= m2.subrange(
                ac as int,
                ac as int + tag_size(t) as int,
            ));
        },
        Tag::Tuple(ch) => {
            let mal = mal_upto(ch@, ch@.len() as int);
            lemma_round_up_props(at, mal);
            lemma_tags_flat_all(ch@);
            lemma_fields_end_off(ch@, 0, ac);
            lemma_round_up_ge(off_after(ch@, ch@.len() as int), mal);
            assert(fields_end(ch@, 0, ac) == ac + off_after(ch@, ch@.len() as int));
            assert(tag_size(t) == round_up_spec(off_after(ch@, ch@.len() as int), mal));
            lemma_flat_fields_frame(ch@, 0, m1, m2, ac);
        },
        Tag::Range(c) => {
            let s = tag_size(*c);
            let a = tag_align(*c);
            lemma_wf_layout(*c);
            lemma_round_up_props(at, a);
            lemma_mod_add_zero(ac, s, a);
            lemma_mod_add_zero(ac + s, s, a);
            assert(round_up_spec(ac, a) == ac);
            assert(round_up_spec(ac + s, a) == ac + s);
            assert(round_up_spec(ac + 2 * s, a) == ac + 2 * s);
            lemma_flat_frame(*c, m1, m2, ac);
            lemma_flat_frame(*c, m1, m2, ac + s);
            lemma_flat_frame(*c, m1, m2, ac + 2 * s);
        },
        _ => {
            assert(false);
        },
    }
}

/// `lemma_flat_frame` over a field suffix: the concatenated bodies depend
/// only on the bytes between the cursor and the last field's end.
pub proof fn lemma_flat_fields_frame(ts: Seq<Tag>, k: int, m1: Seq<u8>, m2: Seq<u8>, cur: nat)
    requires
        tags_wf(ts),
        fields_flat(ts, k),
        0 <= k <= ts.len(),
        m1.len() == m2.len(),
        fields_end(ts, k, cur) <= m1.len(),
        forall|j: int| cur <= j < fields_end(ts, k, cur) ==> m1[j] == m2[j],
    ensures
        flat_fields_at(ts, k, m1, cur) == flat_fields_at(ts, k, m2, cur),
    decreases ts, 1nat, ts.len() - k,
{
    if k < ts.len() {
        lemma_tags_wf_index(ts, k);
        let a = tag_align(ts[k]);
        let nxt = round_up_spec(cur, a) + tag_size(ts[k]);
        lemma_round_up_ge(cur, a);
        lemma_fields_end_ge(ts, k + 1, nxt);
        assert(fields_end(ts, k, cur) == fields_end(ts, k + 1, nxt));
        lemma_flat_frame(ts[k], m1, m2, cur);
        lemma_flat_fields_frame(ts, k + 1, m1, m2, nxt);
    }
}

/// One byte from the wire; fails exactly at end of stream, consuming
/// nothing.
fn wire_read_u8(wire: &Vec<u8>, wpos: &mut usize) -> (r: Result<u8, RpcError>)
    requires
        *old(wpos) <= wire@.len(),
    ensures
        r is Ok <==> *old(wpos) < wire@.len(),
        r matches Ok(b) ==> b == wire@[*old(wpos) as int] && *final(wpos) == *old(wpos) + 1,
        r is Err ==> *final(wpos) == *old(wpos) && r == Err::<u8, RpcError>(
            RpcError::UnexpectedEnd,
        ),
{
    if *wpos < wire.len() {
        let b = wire[*wpos];
        *wpos = *wpos + 1;
        Ok(b)
    } else {
        Err(RpcError::UnexpectedEnd)
    }
}

/// A framed big-endian 32-bit scalar from the wire; fails exactly when
/// fewer than four bytes remain, consuming nothing.
fn wire_read_u32(wire: &Vec<u8>, wpos: &mut usize) -> (r: Result<u32, RpcError>)
    requires
        *old(wpos) <= wire@.len(),
    ensures
        r is Ok <==> *old(wpos) + 4 <= wire@.len(),
        r matches Ok(v) ==> v == u32_from_be(
            wire@.subrange(*old(wpos) as int, *old(wpos) as int + 4),
        ) && *final(wpos) == *old(wpos) + 4,
        r is Err ==> *final(wpos) == *old(wpos) && r == Err::<u32, RpcError>(
            RpcError::UnexpectedEnd,
        ),
{
    if wire.len() - *wpos >= 4 {
        let b0 = wire[*wpos];
        let b1 = wire[*wpos + 1];
        let b2 = wire[*wpos + 2];
        let b3 = wire[*wpos + 3];
        proof {
            let s = wire@.subrange(*old(wpos) as int, *old(wpos) as int + 4);
            assert(s[0] == b0 && s[1] == b1 && s[2] == b2 && s[3] == b3);
        }
        *wpos = *wpos + 4;
        Ok(((b0 as u32) << 24) | ((b1 as u32) << 16) | ((b2 as u32) << 8) | (b3 as u32))
    } else {
        Err(RpcError::UnexpectedEnd)
    }
}

/// Decodes the tuple fields `ch[k..]`, walking the memory cursor through
/// each field's aligned slot in turn.
fn recv_fields(
    wire: &Vec<u8>,
    wpos: &mut usize,
    ch: &Vec<Tag>,
    k: usize,
    arena: &mut Arena,
    cursor: &mut usize,
) -> (r: Result<(), RpcError>)
    requires
        tags_wf(ch@),
        sizes_ok_all(ch@),
        k <= ch@.len(),
        old(arena).wf(),
        *old(wpos) <= wire@.len(),
        fields_end(ch@, k as int, *old(cursor) as nat) <= old(arena).mem().len(),
    ensures
        final(arena).wf(),
        final(arena).capacity() == old(arena).capacity(),
        final(arena).mem().len() >= old(arena).mem().len(),
        *old(wpos) <= *final(wpos) <= wire@.len(),
        old(arena).allocs().is_prefix_of(final(arena).allocs()),
        r is Ok ==> *final(cursor) as nat == fields_end(ch@, k as int, *old(cursor) as nat),
        forall|j: int|
            0 <= j < old(arena).mem().len() && !(*old(cursor) <= j < fields_end(
                ch@,
                k as int,
                *old(cursor) as nat,
            )) ==> final(arena).mem()[j] == old(arena).mem()[j],
        fields_flat(ch@, k as int) ==> final(arena).mem().len() == old(arena).mem().len()
            && final(arena).allocs() == old(arena).allocs() && (r is Ok <==> *old(wpos)
            + wire_len_fields(ch@, k as int) <= wire@.len()),
        fields_flat(ch@, k as int) && r is Ok ==> *final(wpos) == *old(wpos) + wire_len_fields(
            ch@,
            k as int,
        ) && wire@.subrange(*old(wpos) as int, *final(wpos) as int) == flat_fields_at(
            ch@,
            k as int,
            final(arena).mem(),
            *old(cursor) as nat,
        ),
    decreases ch@, 0nat, ch@.len() - k,
{
    if k == ch.len() {
        proof {
            assert(wire@.subrange(*old(wpos) as int, *old(wpos) as int) =~= Seq::<u8>::empty());
        }
        return Ok(());
    }
    proof {
        lemma_tags_wf_index(ch@, k as int);
        lemma_sizes_ok_index(ch@, k as int);
        let a = tag_align(ch@[k as int]);
        lemma_round_up_ge(*old(cursor) as nat, a);
        lemma_fields_end_ge(
            ch@,
            k as int + 1,
            round_up_spec(*old(cursor) as nat, a) + tag_size(ch@[k as int]),
        );
    }
    let ghost w0 = *wpos;
    let ghost c0 = *cursor;
    let ghost mem0 = arena.mem();
    let r1 = recv_value(wire, wpos, &ch[k], arena, cursor);
    let ghost nxt = round_up_spec(c0 as nat, tag_align(ch@[k as int])) + tag_size(ch@[k as int]);
    match r1 {
        Err(e) => {
            proof {
                if fields_flat(ch@, k as int) {
                    assert(is_flat(ch@[k as int]));
                    assert(*old(wpos) + wire_len(ch@[k as int]) > wire@.len());
                }
            }
            Err(e)
        },
        Ok(()) => {
            let ghost w1 = *wpos;
            let ghost mem1 = arena.mem();
            let r2 = recv_fields(wire, wpos, ch, k + 1, arena, cursor);
            match r2 {
                Err(e) => {
                    proof {
                        if fields_flat(ch@, k as int) {
                            assert(*old(wpos) + wire_len_fields(ch@, k as int) > wire@.len());
                        }
                    }
                    Err(e)
                },
                Ok(()) => {
                    proof {
                        assert(fields_end(ch@, k as int, c0 as nat) == fields_end(
                            ch@,
                            k as int + 1,
                            nxt,
                        ));
                        if fields_flat(ch@, k as int) {
                            assert(is_flat(ch@[k as int]));
                            let ffin = arena.mem();
                            assert(mem1.len() == ffin.len());
                            lemma_flat_frame(ch@[k as int], mem1, ffin, c0 as nat);
                            assert(wire@.subrange(w0 as int, w1 as int) == flat_wire_at(
                                ch@[k as int],
                                ffin,
                                c0 as nat,
                            ));
                            lemma_subrange_cat(wire@, w0 as int, w1 as int, *wpos as int);
                        }
                    }
                    Ok(())
                },
            }
        },
    }
}

/// Decodes `length` consecutive elements of type `elt` into the storage
/// region at `storage`, whose stride is exactly the element size.  The
/// scalar element types take the bulk path: their bytes cross the wire
/// verbatim in one block.
fn recv_elements(
    wire: &Vec<u8>,
    wpos: &mut usize,
    elt: &Tag,
    length: usize,
    storage: usize,
    arena: &mut Arena,
) -> (r: Result<(), RpcError>)
    requires
        tag_wf(*elt),
        sizes_ok(*elt),
        old(arena).wf(),
        *old(wpos) <= wire@.len(),
        (storage as nat) % tag_align(*elt) == 0,
        storage + length * tag_size(*elt) <= old(arena).mem().len(),
    ensures
        final(arena).wf(),
        final(arena).capacity() == old(arena).capacity(),
        final(arena).mem().len() >= old(arena).mem().len(),
        *old(wpos) <= *final(wpos) <= wire@.len(),
        old(arena).allocs().is_prefix_of(final(arena).allocs()),
        forall|j: int|
            0 <= j < old(arena).mem().len() && !(storage <= j < storage + length * tag_size(*elt))
                ==> final(arena).mem()[j] == old(arena).mem()[j],
        is_scalar(*elt) ==> final(arena).mem().len() == old(arena).mem().len() && final(arena).allocs() == old(arena).allocs() && (r is Ok <==> *old(wpos) + length * tag_size(*elt)
            <= wire@.len()),
        is_scalar(*elt) && r is Ok ==> *final(wpos) == *old(wpos) + length * tag_size(*elt)
            && final(arena).mem().subrange(
            storage as int,
            storage as int + (length * tag_size(*elt)) as int,
        ) == wire@.subrange(*old(wpos) as int, *final(wpos) as int),
        is_flat(*elt) ==> final(arena).mem().len() == old(arena).mem().len() && final(
            arena).allocs() == old(arena).allocs(),
    decreases *elt, 1nat, 0nat,
{
    let scalar = match elt {
        Tag::Bool | Tag::Int32 | Tag::Int64 | Tag::Float64 => true,
        _ => false,
    };
    proof {
        assert(scalar == is_scalar(*elt));
    }
    if scalar {
        let esize = elt.size();
        proof {
            assert(length * tag_size(*elt) <= old(arena).mem().len());
            assert(length * esize == length * tag_size(*elt));
        }
        let n = length * esize;
        if wire.len() - *wpos < n {
            proof {
                assert(*old(wpos) + length * tag_size(*elt) > wire@.len());
            }
            return Err(RpcError::UnexpectedEnd);
        }
        arena.write_range(storage, wire, *wpos, n);
        *wpos = *wpos + n;
        Ok(())
    } else {
        let esize = elt.size();
        let ghost mem0 = arena.mem();
        let ghost w0 = *wpos;
        let mut cur: usize = storage;
        let mut i: usize = 0;
        while i < length
            invariant
                tag_wf(*elt),
                sizes_ok(*elt),
                !is_scalar(*elt),
                is_flat(*elt) ==> arena.mem().len() == old(arena).mem().len() && arena.allocs()
                    == old(arena).allocs(),
                arena.wf(),
                arena.capacity() == old(arena).capacity(),
                *wpos <= wire@.len(),
                w0 == *old(wpos),
                w0 <= *wpos,
                esize as nat == tag_size(*elt),
                i <= length,
                cur as nat == storage + i * tag_size(*elt),
                (storage as nat) % tag_align(*elt) == 0,
                storage + length * tag_size(*elt) <= mem0.len(),
                mem0.len() <= arena.mem().len(),
                old(arena).allocs().is_prefix_of(arena.allocs()),
                mem0 == old(arena).mem(),
                forall|j: int|
                    0 <= j < mem0.len() && !(storage <= j < storage + length * tag_size(*elt))
                        ==> arena.mem()[j] == mem0[j],
            decreases length - i,
        {
            proof {
                lemma_wf_layout(*elt);
                lemma_align_pos(*elt);
                lemma_mul_multiple(i as nat, tag_size(*elt), tag_align(*elt));
                lemma_mod_add_zero(storage as nat, i as nat * tag_size(*elt), tag_align(*elt));
                assert((cur as nat) % tag_align(*elt) == 0);
                lemma_round_up_props(cur as nat, tag_align(*elt));
                assert(round_up_spec(cur as nat, tag_align(*elt)) == cur as nat);
                assert((i + 1) * tag_size(*elt) <= length * tag_size(*elt)) by (nonlinear_arith)
                    requires
                        i < length,
                ;
                assert(storage + (i + 1) * tag_size(*elt) == cur as nat + tag_size(*elt))
                    by (nonlinear_arith)
                    requires
                        cur as nat == storage + i * tag_size(*elt),
                ;
            }
            let r = recv_value(wire, wpos, elt, arena, &mut cur);
            match r {
                Err(e) => {
                    return Err(e);
                },
                Ok(()) => {
                },
            }
            i = i + 1;
        }
        Ok(())
    }
}

/// Decodes one value of type `tag` from the wire into the arena at the
/// cursor, aligning the cursor to the tag first and advancing it past the
/// value: by exactly the tag's size, measured from the aligned position.
/// Allocates backing storage for strings, bytes, lists and arrays.
#[verifier::spinoff_prover]
#[verifier::rlimit(100)]
pub fn recv_value(
    wire: &Vec<u8>,
    wpos: &mut usize,
    tag: &Tag,
    arena: &mut Arena,
    cursor: &mut usize,
) -> (r: Result<(), RpcError>)
    requires
        tag_wf(*tag),
        sizes_ok(*tag),
        old(arena).wf(),
        *old(wpos) <= wire@.len(),
        round_up_spec(*old(cursor) as nat, tag_align(*tag)) + tag_size(*tag) <= old(arena).mem().len(),
    ensures
        final(arena).wf(),
        final(arena).capacity() == old(arena).capacity(),
        final(arena).mem().len() >= old(arena).mem().len(),
        *old(wpos) <= *final(wpos) <= wire@.len(),
        old(arena).allocs().is_prefix_of(final(arena).allocs()),
        r is Ok ==> *final(cursor) as nat == round_up_spec(*old(cursor) as nat, tag_align(*tag))
            + tag_size(*tag),
        forall|j: int|
            0 <= j < old(arena).mem().len() && !(round_up_spec(
                *old(cursor) as nat,
                tag_align(*tag),
            ) <= j < round_up_spec(*old(cursor) as nat, tag_align(*tag)) + tag_size(*tag))
                ==> final(arena).mem()[j] == old(arena).mem()[j],
        is_flat(*tag) ==> final(arena).mem().len() == old(arena).mem().len() && final(arena).allocs() == old(arena).allocs() && (r is Ok <==> *old(wpos) + wire_len(*tag)
            <= wire@.len()),
        is_flat(*tag) && r is Ok ==> *final(wpos) == *old(wpos) + wire_len(*tag)
            && wire@.subrange(*old(wpos) as int, *final(wpos) as int) == flat_wire_at(
            *tag,
            final(arena).mem(),
            *old(cursor) as nat,
        ),
        (*tag is Str || *tag is Bytes || *tag is ByteArray) && r is Ok ==> slice_recv_ok(
            old(arena).mem(),
            final(arena).mem(),
            old(arena).allocs(),
            final(arena).allocs(),
            wire@,
            *old(wpos) as int,
            *final(wpos) as int,
            round_up_spec(*old(cursor) as nat, 4) as int,
        ),
        r is Ok ==> (match *tag {
            Tag::List(elt) => {
                let one = round_up_spec(8, tag_align(*elt)) + (u32_from_be(
                    wire@.subrange(*old(wpos) as int, *old(wpos) as int + 4),
                ) as nat) * tag_size(*elt);
                &&& *old(wpos) + 4 <= wire@.len()
                &&& final(arena).allocs().len() > old(arena).allocs().len()
                &&& final(arena).allocs()[old(arena).allocs().len() as int] == one
                &&& (is_flat(*elt) ==> final(arena).allocs() == old(arena).allocs().push(one))
                &&& list_recv_ok(
                    *elt,
                    old(arena).mem(),
                    final(arena).mem(),
                    wire@,
                    *old(wpos) as int,
                    *final(wpos) as int,
                    round_up_spec(*old(cursor) as nat, 4) as int,
                )
            },
            Tag::Array(elt, nd) => {
                let one = tag_size(*elt) * dims_product(wire@, *old(wpos) as int, nd as nat);
                &&& final(arena).allocs().len() > old(arena).allocs().len()
                &&& final(arena).allocs()[old(arena).allocs().len() as int] == one
                &&& (is_flat(*elt) ==> final(arena).allocs() == old(arena).allocs().push(one))
                &&& array_recv_ok(
                    *elt,
                    nd,
                    old(arena).mem(),
                    final(arena).mem(),
                    wire@,
                    *old(wpos) as int,
                    *final(wpos) as int,
                    round_up_spec(*old(cursor) as nat, 4) as int,
                )
            },
            _ => true,
        }),
        (*tag is Str || *tag is Bytes || *tag is ByteArray) ==> (r is Ok <==> ({
            let length = u32_from_be(
                wire@.subrange(*old(wpos) as int, *old(wpos) as int + 4),
            ) as nat;
            &&& *old(wpos) + 4 <= wire@.len()
            &&& round_up_spec(old(arena).mem().len(), 8) + length <= old(arena).capacity()
            &&& *old(wpos) + 4 + length <= wire@.len()
        })),
        (match *tag {
            Tag::List(elt) => is_scalar(*elt) ==> (r is Ok <==> ({
                let length = u32_from_be(
                    wire@.subrange(*old(wpos) as int, *old(wpos) as int + 4),
                ) as nat;
                &&& *old(wpos) + 4 <= wire@.len()
                &&& length * tag_size(*elt) <= 0xffff_fff0
                &&& round_up_spec(old(arena).mem().len(), 8) + round_up_spec(8, tag_align(*elt))
                    + length * tag_size(*elt) <= old(arena).capacity()
                &&& *old(wpos) + 4 + length * tag_size(*elt) <= wire@.len()
            })),
            _ => true,
        }),
    decreases *tag, 0nat, 0nat,
{
    let ghost c0 = *cursor as nat;
    let ghost w0 = *wpos as int;
    match tag {
        Tag::Unit => {
            proof {
                assert(round_up_spec(c0, 1) == c0);
                assert(wire_len(*tag) == 0);
                assert(flat_wire_at(*tag, arena.mem(), c0) =~= Seq::<u8>::empty());
                assert(wire@.subrange(w0, w0) =~= Seq::<u8>::empty());
                assert(wire@.subrange(w0, w0) == flat_wire_at(*tag, arena.mem(), c0));
            }
            Ok(())
        },
        Tag::Bool | Tag::Int32 | Tag::Int64 | Tag::Float64 => {
            let a = tag.alignment();
            let sz = tag.size();
            let ac = round_up(*cursor, a);
            if wire.len() - *wpos < sz {
                proof {
                    lemma_round_up_props(c0, tag_align(*tag));
                }
                return Err(RpcError::UnexpectedEnd);
            }
            arena.write_range(ac, wire, *wpos, sz);
            *wpos = *wpos + sz;
            *cursor = ac + sz;
            proof {
                assert(wire@.subrange(w0, w0 + sz) == flat_wire_at(*tag, arena.mem(), c0));
            }
            Ok(())
        },
        Tag::Str | Tag::Bytes | Tag::ByteArray => {
            let ac = round_up(*cursor, 4);
            let len32 = match wire_read_u32(wire, wpos) {
                Ok(v) => v,
                Err(e) => {
                    return Err(e);
                },
            };
            let length = len32 as usize;
            let p = match arena.allocate(length) {
                Ok(p) => p,
                Err(e) => {
                    return Err(e);
                },
            };
            if wire.len() - *wpos < length {
                return Err(RpcError::UnexpectedEnd);
            }
            arena.write_range(p, wire, *wpos, length);
            *wpos = *wpos + length;
            let ghost mem_pay = arena.mem();
            arena.write_u32(ac, p as u32);
            arena.write_u32(ac + 4, len32);
            *cursor = ac + 8;
            proof {
                lemma_u32_be_round_trip(p as u32);
                lemma_u32_be_round_trip(len32);
                assert(arena.mem().subrange(ac as int, ac as int + 4) =~= u32_be_bytes(p as u32));
                assert(arena.mem().subrange(p as int, p as int + length as int) =~= mem_pay.subrange(
                    p as int,
                    p as int + length as int,
                ));
                assert(arena.mem().subrange(p as int, p as int + length as int) =~= wire@.subrange(
                    w0 + 4,
                    w0 + 4 + length as int,
                ));
            }
            Ok(())
        },
        Tag::Tuple(ch) => {
            let a = tag.alignment();
            let ac = round_up(*cursor, a);
            *cursor = ac;
            proof {
                let mal = mal_upto(ch@, ch@.len() as int);
                lemma_round_up_props(c0, mal);
                lemma_fields_end_off(ch@, 0, ac as nat);
                lemma_round_up_ge(off_after(ch@, ch@.len() as int), mal);
                assert(fields_end(ch@, 0, ac as nat) == ac as nat + off_after(
                    ch@,
                    ch@.len() as int,
                ));
                assert(tag_size(*tag) == round_up_spec(off_after(ch@, ch@.len() as int), mal));
            }
            let r = recv_fields(wire, wpos, ch, 0, arena, cursor);
            match r {
                Err(e) => {
                    proof {
                        if is_flat(*tag) {
                            lemma_tags_flat_all(ch@);
                            assert(wire_len(*tag) == wire_len_fields(ch@, 0));
                        }
                    }
                    Err(e)
                },
                Ok(()) => {
                    let a2 = tag.alignment();
                    let fin = round_up(*cursor, a2);
                    *cursor = fin;
                    proof {
                        let mal = mal_upto(ch@, ch@.len() as int);
                        let offn = off_after(ch@, ch@.len() as int);
                        lemma_round_up_props(c0, mal);
                        lemma_round_up_add_base(ac as nat, offn, mal);
                        assert(fin as nat == ac as nat + round_up_spec(offn, mal));
                        if is_flat(*tag) {
                            lemma_tags_flat_all(ch@);
                            assert(wire_len(*tag) == wire_len_fields(ch@, 0));
                            assert(flat_wire_at(*tag, arena.mem(), c0) == flat_fields_at(
                                ch@,
                                0,
                                arena.mem(),
                                ac as nat,
                            ));
                        }
                    }
                    Ok(())
                },
            }
        },
        Tag::List(elt) => {
            proof {
                assert(!is_flat(*tag));
            }
            recv_list(wire, wpos, elt, arena, cursor)
        },
        Tag::Array(elt, nd) => {
            proof {
                assert(!is_flat(*tag));
            }
            recv_array(wire, wpos, elt, *nd, arena, cursor)
        },
        Tag::Range(c) => {
            let a = tag.alignment();
            let ac = round_up(*cursor, a);
            *cursor = ac;
            let s = c.size();
            proof {
                lemma_wf_layout(**c);
                lemma_round_up_props(c0, tag_align(**c));
                lemma_mod_add_zero(ac as nat, tag_size(**c), tag_align(**c));
                lemma_mod_add_zero(ac as nat + tag_size(**c), tag_size(**c), tag_align(**c));
                lemma_round_up_props(ac as nat, tag_align(**c));
            }
            let r1 = recv_value(wire, wpos, c, arena, cursor);
            match r1 {
                Err(e) => {
                    return Err(e);
                },
                Ok(()) => {
                },
            }
            let ghost wm1 = *wpos as int;
            let r2 = recv_value(wire, wpos, c, arena, cursor);
            match r2 {
                Err(e) => {
                    return Err(e);
                },
                Ok(()) => {
                },
            }
            let ghost wm2 = *wpos as int;
            let r3 = recv_value(wire, wpos, c, arena, cursor);
            match r3 {
                Err(e) => {
                    return Err(e);
                },
                Ok(()) => {
                },
            }
            proof {
                let fm = arena.mem();
                let s_ = tag_size(**c);
                let a_ = tag_align(**c);
                assert(round_up_spec(ac as nat, a_) == ac as nat);
                assert(round_up_spec(ac as nat + s_, a_) == ac as nat + s_);
                assert(round_up_spec(ac as nat + 2 * s_, a_) == ac as nat + 2 * s_);
                lemma_subrange_cat(wire@, w0, wm1, wm2);
                lemma_subrange_cat(wire@, w0, wm2, *wpos as int);
                if is_flat(*tag) {
                    assert(wire_len(*tag) == 3 * wire_len(**c));
                    assert(flat_wire_at(*tag, fm, c0) == flat_wire_at(**c, fm, ac as nat)
                        + flat_wire_at(**c, fm, ac as nat + s_) + flat_wire_at(
                        **c,
                        fm,
                        ac as nat + 2 * s_,
                    ));
                }
            }
            Ok(())
        },
        Tag::Keyword(_) | Tag::Object => vstd::pervasive::unreached(),
    }
}

/// What decoding a string, bytes or byte-array value leaves behind: one
/// fresh allocation holding the payload read verbatim off the wire, and an
/// 8-byte slice header (pointer, then 32-bit length) written at the
/// aligned cursor.
pub open spec fn slice_recv_ok(
    mem_old: Seq<u8>,
    mem_new: Seq<u8>,
    allocs_old: Seq<nat>,
    allocs_new: Seq<nat>,
    wire: Seq<u8>,
    w_old: int,
    w_new: int,
    ac: int,
) -> bool {
    let length = u32_from_be(wire.subrange(w_old, w_old + 4)) as nat;
    let p = round_up_spec(mem_old.len(), 8);
    &&& allocs_new == allocs_old.push(length)
    &&& mem_new.len() == p + length
    &&& u32_from_be(mem_new.subrange(ac, ac + 4)) as nat == p
    &&& u32_from_be(mem_new.subrange(ac + 4, ac + 8)) as nat == length
    &&& mem_new.subrange(p as int, p as int + length as int) == wire.subrange(
        w_old + 4,
        w_old + 4 + length as int,
    )
    &&& w_new == w_old + 4 + length
}

/// What decoding a list leaves behind: the slice header at the aligned
/// cursor holds the elements pointer (past the allocation's padded header
/// room) and the length; for the scalar element types the element region
/// holds the wire block verbatim.
pub open spec fn list_recv_ok(
    elt: Tag,
    mem_old: Seq<u8>,
    mem_new: Seq<u8>,
    wire: Seq<u8>,
    w_old: int,
    w_new: int,
    ac: int,
) -> bool {
    let length = u32_from_be(wire.subrange(w_old, w_old + 4)) as nat;
    let sto = round_up_spec(mem_old.len(), 8) + round_up_spec(8, tag_align(elt));
    &&& u32_from_be(mem_new.subrange(ac, ac + 4)) as nat == sto
    &&& u32_from_be(mem_new.subrange(ac + 4, ac + 8)) as nat == length
    &&& (is_scalar(elt) ==> mem_new.len() == sto + length * tag_size(elt) && mem_new.subrange(
        sto as int,
        sto as int + (length * tag_size(elt)) as int,
    ) == wire.subrange(w_old + 4, w_old + 4 + (length * tag_size(elt)) as int) && w_new == w_old
        + 4 + length * tag_size(elt))
}

/// What decoding an array leaves behind: the backing pointer and the
/// dimension lengths (echoed from the wire) written inline at the aligned
/// cursor; for the scalar element types the fresh element storage holds
/// the wire block verbatim.
pub open spec fn array_recv_ok(
    elt: Tag,
    nd: u8,
    mem_old: Seq<u8>,
    mem_new: Seq<u8>,
    wire: Seq<u8>,
    w_old: int,
    w_new: int,
    ac: int,
) -> bool {
    let p = round_up_spec(mem_old.len(), 8);
    let total = dims_product(wire, w_old, nd as nat);
    &&& u32_from_be(mem_new.subrange(ac, ac + 4)) as nat == p
    &&& (forall|i: int|
        0 <= i < nd as int ==> #[trigger] mem_new.subrange(ac + 4 + 4 * i, ac + 8 + 4 * i)
            == wire.subrange(w_old + 4 * i, w_old + 4 + 4 * i))
    &&& (is_scalar(elt) ==> mem_new.len() == p + total * tag_size(elt) && mem_new.subrange(
        p as int,
        p as int + (total * tag_size(elt)) as int,
    ) == wire.subrange(
        w_old + 4 * (nd as int),
        w_old + 4 * (nd as int) + (total * tag_size(elt)) as int,
    ) && w_new == w_old + 4 * (nd as int) + total * tag_size(elt))
}

/// Decodes a list: reads the 32-bit length, makes one allocation holding
/// both the element storage and its alignment padding past the 8-byte
/// header, writes the slice header (pointer, then length) at the aligned
/// cursor, and decodes the elements into the fresh storage.
#[verifier::spinoff_prover]
#[verifier::rlimit(100)]
fn recv_list(
    wire: &Vec<u8>,
    wpos: &mut usize,
    elt: &Tag,
    arena: &mut Arena,
    cursor: &mut usize,
) -> (r: Result<(), RpcError>)
    requires
        tag_wf(*elt),
        sizes_ok(*elt),
        old(arena).wf(),
        *old(wpos) <= wire@.len(),
        round_up_spec(*old(cursor) as nat, 4) + 8 <= old(arena).mem().len(),
    ensures
        final(arena).wf(),
        final(arena).capacity() == old(arena).capacity(),
        final(arena).mem().len() >= old(arena).mem().len(),
        *old(wpos) <= *final(wpos) <= wire@.len(),
        old(arena).allocs().is_prefix_of(final(arena).allocs()),
        r is Ok ==> *final(cursor) as nat == round_up_spec(*old(cursor) as nat, 4) + 8,
        forall|j: int|
            0 <= j < old(arena).mem().len() && !(round_up_spec(*old(cursor) as nat, 4) <= j
                < round_up_spec(*old(cursor) as nat, 4) + 8) ==> final(arena).mem()[j] == old(arena).mem()[j],
        r is Ok ==> ({
            let one = round_up_spec(8, tag_align(*elt)) + (u32_from_be(
                wire@.subrange(*old(wpos) as int, *old(wpos) as int + 4),
            ) as nat) * tag_size(*elt);
            &&& *old(wpos) + 4 <= wire@.len()
            &&& final(arena).allocs().len() > old(arena).allocs().len()
            &&& final(arena).allocs()[old(arena).allocs().len() as int] == one
            &&& (is_flat(*elt) ==> final(arena).allocs() == old(arena).allocs().push(one))
        }),
        r is Ok ==> list_recv_ok(
            *elt,
            old(arena).mem(),
            final(arena).mem(),
            wire@,
            *old(wpos) as int,
            *final(wpos) as int,
            round_up_spec(*old(cursor) as nat, 4) as int,
        ),
        is_scalar(*elt) ==> (r is Ok <==> ({
            let length = u32_from_be(
                wire@.subrange(*old(wpos) as int, *old(wpos) as int + 4),
            ) as nat;
            &&& *old(wpos) + 4 <= wire@.len()
            &&& length * tag_size(*elt) <= 0xffff_fff0
            &&& round_up_spec(old(arena).mem().len(), 8) + round_up_spec(8, tag_align(*elt))
                + length * tag_size(*elt) <= old(arena).capacity()
            &&& *old(wpos) + 4 + length * tag_size(*elt) <= wire@.len()
        })),
    decreases *elt, 2nat, 0nat,
{
    let ghost c0 = *cursor as nat;
    let ghost w0 = *wpos as int;
    let ac = round_up(*cursor, 4);
    let len32 = match wire_read_u32(wire, wpos) {
        Ok(v) => v,
        Err(e) => {
            return Err(e);
        },
    };
    let length = len32 as usize;
    proof {
        lemma_wf_layout(*elt);
        lemma_round_up_props(8, tag_align(*elt));
    }
    let esize = elt.size();
    let ealign = elt.alignment();
    let storage_off = round_up(8, ealign);
    if length != 0 && esize > 0xffff_fff0usize / length {
        proof {
            vstd::arithmetic::div_mod::lemma_fundamental_div_mod(0xffff_fff0, length as int);
            assert((esize as int) * (length as int) > 0xffff_fff0) by (nonlinear_arith)
                requires
                    esize as int >= 0xffff_fff0 as int / (length as int) + 1,
                    0xffff_fff0 as int == (length as int) * (0xffff_fff0 as int / (
                    length as int)) + 0xffff_fff0 as int % (length as int),
                    0xffff_fff0 as int % (length as int) < length as int,
                    length as int >= 1,
            ;
            assert((length as nat) * tag_size(*elt) > 0xffff_fff0);
        }
        return Err(RpcError::AllocFailed);
    }
    proof {
        assert(esize * length <= 0xffff_fff0) by (nonlinear_arith)
            requires
                length == 0 || esize <= 0xffff_fff0usize / length,
        ;
    }
    let storage_size = esize * length;
    proof {
        assert(storage_size as nat == (len32 as nat) * tag_size(*elt)) by (nonlinear_arith)
            requires
                storage_size == esize * length,
                esize as nat == tag_size(*elt),
                length == len32 as usize,
        ;
    }
    let p = match arena.allocate(storage_off + storage_size) {
        Ok(p) => p,
        Err(e) => {
            return Err(e);
        },
    };
    let storage = p + storage_off;
    arena.write_u32(ac, storage as u32);
    arena.write_u32(ac + 4, len32);
    proof {
        lemma_round_up_props(8, tag_align(*elt));
        lemma_align_divides(tag_align(*elt), 8);
        lemma_aligned_multiple(p as nat, tag_align(*elt), 8);
        lemma_mod_add_zero(p as nat, storage_off as nat, tag_align(*elt));
        lemma_u32_be_round_trip(storage as u32);
        lemma_u32_be_round_trip(len32);
    }
    let ghost mid_allocs = arena.allocs();
    let ghost one = round_up_spec(8, tag_align(*elt)) + (len32 as nat) * tag_size(*elt);
    proof {
        assert(mid_allocs == old(arena).allocs().push(one));
    }
    let ghost mem_hdr = arena.mem();
    let r = recv_elements(wire, wpos, elt, length, storage, arena);
    match r {
        Err(e) => {
            proof {
                if is_scalar(*elt) {
                    assert(*old(wpos) + 4 + (len32 as nat) * tag_size(*elt) > wire@.len());
                }
            }
            Err(e)
        },
        Ok(()) => {
            *cursor = ac + 8;
            proof {
                assert(mid_allocs.is_prefix_of(arena.allocs()));
                assert(arena.allocs()[old(arena).allocs().len() as int] == mid_allocs[old(arena).allocs().len() as int]);
                if is_flat(*elt) {
                    assert(arena.allocs() == mid_allocs);
                }
                assert(arena.mem().subrange(ac as int, ac as int + 4) =~= mem_hdr.subrange(
                    ac as int,
                    ac as int + 4,
                ));
                assert(arena.mem().subrange(ac as int + 4, ac as int + 8) =~= mem_hdr.subrange(
                    ac as int + 4,
                    ac as int + 8,
                ));
                assert(u32_from_be(arena.mem().subrange(ac as int, ac as int + 4)) as nat
                    == storage as nat);
                assert(u32_from_be(arena.mem().subrange(ac as int + 4, ac as int + 8)) as nat
                    == len32 as nat);
            }
            Ok(())
        },
    }
}

/// Decodes an array: reads one 32-bit length per dimension into the header
/// (after its leading pointer cell), allocates element storage of exactly
/// the element size times the product of the dimensions, writes the
/// backing pointer, and decodes the elements.
#[verifier::spinoff_prover]
#[verifier::rlimit(100)]
fn recv_array(
    wire: &Vec<u8>,
    wpos: &mut usize,
    elt: &Tag,
    nd: u8,
    arena: &mut Arena,
    cursor: &mut usize,
) -> (r: Result<(), RpcError>)
    requires
        tag_wf(*elt),
        sizes_ok(*elt),
        old(arena).wf(),
        *old(wpos) <= wire@.len(),
        round_up_spec(*old(cursor) as nat, 4) + 4 * (1 + nd as nat) <= old(arena).mem().len(),
    ensures
        final(arena).wf(),
        final(arena).capacity() == old(arena).capacity(),
        final(arena).mem().len() >= old(arena).mem().len(),
        *old(wpos) <= *final(wpos) <= wire@.len(),
        old(arena).allocs().is_prefix_of(final(arena).allocs()),
        r is Ok ==> *final(cursor) as nat == round_up_spec(*old(cursor) as nat, 4) + 4 * (1
            + nd as nat),
        forall|j: int|
            0 <= j < old(arena).mem().len() && !(round_up_spec(*old(cursor) as nat, 4) <= j
                < round_up_spec(*old(cursor) as nat, 4) + 4 * (1 + nd as nat)) ==> final(arena).mem()[j] == old(arena).mem()[j],
        r is Ok ==> ({
            let one = tag_size(*elt) * dims_product(wire@, *old(wpos) as int, nd as nat);
            &&& final(arena).allocs().len() > old(arena).allocs().len()
            &&& final(arena).allocs()[old(arena).allocs().len() as int] == one
            &&& (is_flat(*elt) ==> final(arena).allocs() == old(arena).allocs().push(one))
        }),
        r is Ok ==> array_recv_ok(
            *elt,
            nd,
            old(arena).mem(),
            final(arena).mem(),
            wire@,
            *old(wpos) as int,
            *final(wpos) as int,
            round_up_spec(*old(cursor) as nat, 4) as int,
        ),
    decreases *elt, 2nat, 0nat,
{
    let ghost c0 = *cursor as nat;
    let ghost w0 = *wpos as int;
    let ac = round_up(*cursor, 4);
    let num_dims = nd as usize;
    let mut total: usize = 1;
    let mut d: usize = 0;
    let ghost wd0 = *wpos as int;
    let ghost mem0 = arena.mem();
    while d < num_dims
        invariant
            d <= num_dims,
            num_dims == nd as usize,
            arena.wf(),
            *wpos <= wire@.len(),
            wd0 == *old(wpos) as int,
            *wpos as int == wd0 + 4 * d,
            arena.mem().len() == mem0.len(),
            mem0 == old(arena).mem(),
            arena.allocs() == old(arena).allocs(),
            arena.capacity() == old(arena).capacity(),
            ac as nat == round_up_spec(*old(cursor) as nat, 4),
            ac as nat + 4 * (1 + num_dims as nat) <= mem0.len(),
            forall|j: int|
                0 <= j < mem0.len() && !(ac + 4 <= j < ac + 4 + 4 * d) ==> arena.mem()[j]
                    == mem0[j],
            forall|i: int|
                0 <= i < d ==> #[trigger] arena.mem().subrange(
                    ac as int + 4 + 4 * i,
                    ac as int + 8 + 4 * i,
                ) == wire@.subrange(wd0 + 4 * i, wd0 + 4 + 4 * i),
            total as nat * dims_product(wire@, *wpos as int, (num_dims - d) as nat)
                == dims_product(wire@, wd0, num_dims as nat),
            total <= 0xffff_fff0,
        decreases num_dims - d,
    {
        let len32 = match wire_read_u32(wire, wpos) {
            Ok(v) => v,
            Err(e) => {
                return Err(e);
            },
        };
        let dim = len32 as usize;
        if dim != 0 && total > 0xffff_fff0usize / dim {
            return Err(RpcError::AllocFailed);
        }
        let ghost wbefore = *wpos as int - 4;
        let ghost prod_before = dims_product(wire@, wbefore, (num_dims - d) as nat);
        proof {
            assert(prod_before == (len32 as nat) * dims_product(
                wire@,
                wbefore + 4,
                (num_dims - d - 1) as nat,
            ));
            assert(total * dim <= 0xffff_fff0) by (nonlinear_arith)
                requires
                    dim == 0 || total <= 0xffff_fff0usize / dim,
                    total <= 0xffff_fff0,
            ;
            assert((total * dim) as nat * dims_product(
                wire@,
                *wpos as int,
                (num_dims - d - 1) as nat,
            ) == dims_product(wire@, wd0, num_dims as nat)) by (nonlinear_arith)
                requires
                    total as nat * prod_before == dims_product(wire@, wd0, num_dims as nat),
                    prod_before == (len32 as nat) * dims_product(
                        wire@,
                        wbefore + 4,
                        (num_dims - d - 1) as nat,
                    ),
                    wbefore + 4 == *wpos as int,
                    dim == len32 as usize,
            ;
        }
        let ghost mem_pre = arena.mem();
        arena.write_u32(ac + 4 + 4 * d, len32);
        proof {
            lemma_u32_be_bytes_inverse(wire@.subrange(wbefore, wbefore + 4));
            assert(arena.mem().subrange(ac as int + 4 + 4 * (d as int), ac as int + 8 + 4 * (
            d as int)) =~= wire@.subrange(wd0 + 4 * (d as int), wd0 + 4 + 4 * (d as int)));
            assert forall|i: int| 0 <= i < d + 1 implies #[trigger] arena.mem().subrange(
                ac as int + 4 + 4 * i,
                ac as int + 8 + 4 * i,
            ) == wire@.subrange(wd0 + 4 * i, wd0 + 4 + 4 * i) by {
                if i < d {
                    assert(mem_pre.subrange(ac as int + 4 + 4 * i, ac as int + 8 + 4 * i)
                        == wire@.subrange(wd0 + 4 * i, wd0 + 4 + 4 * i));
                    assert(arena.mem().subrange(ac as int + 4 + 4 * i, ac as int + 8 + 4 * i)
                        =~= mem_pre.subrange(ac as int + 4 + 4 * i, ac as int + 8 + 4 * i));
                }
            }
        }
        total = total * dim;
        d = d + 1;
    }
    proof {
        assert(dims_product(wire@, *wpos as int, 0) == 1);
        assert(total as nat * 1 == total as nat) by (nonlinear_arith);
        assert(total as nat == dims_product(wire@, wd0, num_dims as nat));
        lemma_wf_layout(*elt);
    }
    let ghost mem_dims = arena.mem();
    let esize = elt.size();
    if total != 0 && esize > 0xffff_fff0usize / total {
        return Err(RpcError::AllocFailed);
    }
    proof {
        assert(esize * total <= 0xffff_fff0) by (nonlinear_arith)
            requires
                total == 0 || esize <= 0xffff_fff0usize / total,
        ;
    }
    let storage_size = esize * total;
    proof {
        assert(storage_size as nat == tag_size(*elt) * (total as nat)) by (nonlinear_arith)
            requires
                storage_size == esize * total,
                esize as nat == tag_size(*elt),
        ;
    }
    let p = match arena.allocate(storage_size) {
        Ok(p) => p,
        Err(e) => {
            return Err(e);
        },
    };
    let ghost mem_alloc = arena.mem();
    arena.write_u32(ac, p as u32);
    proof {
        lemma_align_divides(tag_align(*elt), 8);
        lemma_aligned_multiple(p as nat, tag_align(*elt), 8);
        assert((total * esize) as nat == (total as nat) * tag_size(*elt)) by (nonlinear_arith)
            requires
                esize as nat == tag_size(*elt),
        ;
        lemma_u32_be_round_trip(p as u32);
        assert(u32_from_be(arena.mem().subrange(ac as int, ac as int + 4)) as nat == p as nat);
        assert forall|i: int| 0 <= i < nd as int implies #[trigger] arena.mem().subrange(
            ac as int + 4 + 4 * i,
            ac as int + 8 + 4 * i,
        ) == wire@.subrange(wd0 + 4 * i, wd0 + 4 + 4 * i) by {
            assert(mem_dims.subrange(ac as int + 4 + 4 * i, ac as int + 8 + 4 * i)
                == wire@.subrange(wd0 + 4 * i, wd0 + 4 + 4 * i));
            assert(mem_alloc.subrange(ac as int + 4 + 4 * i, ac as int + 8 + 4 * i)
                =~= mem_dims.subrange(ac as int + 4 + 4 * i, ac as int + 8 + 4 * i));
            assert(arena.mem().subrange(ac as int + 4 + 4 * i, ac as int + 8 + 4 * i)
                =~= mem_alloc.subrange(ac as int + 4 + 4 * i, ac as int + 8 + 4 * i));
        }
    }
    let ghost mid_allocs = arena.allocs();
    let ghost one = tag_size(*elt) * dims_product(wire@, wd0, nd as nat);
    proof {
        assert(mid_allocs == old(arena).allocs().push(one));
    }
    let ghost mem_hdr = arena.mem();
    let r = recv_elements(wire, wpos, elt, total, p, arena);
    match r {
        Err(e) => Err(e),
        Ok(()) => {
            *cursor = ac + 4 + 4 * num_dims;
            proof {
                assert(mid_allocs.is_prefix_of(arena.allocs()));
                assert(arena.allocs()[old(arena).allocs().len() as int] == mid_allocs[old(arena).allocs().len() as int]);
                if is_flat(*elt) {
                    assert(arena.allocs() == mid_allocs);
                }
                assert(arena.mem().subrange(ac as int, ac as int + 4) =~= mem_hdr.subrange(
                    ac as int,
                    ac as int + 4,
                ));
                assert(u32_from_be(arena.mem().subrange(ac as int, ac as int + 4)) as nat
                    == p as nat);
                assert forall|i: int| 0 <= i < nd as int implies #[trigger] arena.mem().subrange(
                    ac as int + 4 + 4 * i,
                    ac as int + 8 + 4 * i,
                ) == wire@.subrange(wd0 + 4 * i, wd0 + 4 + 4 * i) by {
                    assert(mem_hdr.subrange(ac as int + 4 + 4 * i, ac as int + 8 + 4 * i)
                        == wire@.subrange(wd0 + 4 * i, wd0 + 4 + 4 * i));
                    assert(arena.mem().subrange(ac as int + 4 + 4 * i, ac as int + 8 + 4 * i)
                        =~= mem_hdr.subrange(ac as int + 4 + 4 * i, ac as int + 8 + 4 * i));
                }
                assert(array_recv_ok(
                    *elt,
                    nd,
                    old(arena).mem(),
                    arena.mem(),
                    wire@,
                    wd0,
                    *wpos as int,
                    ac as int,
                ));
            }
            Ok(())
        },
    }
}

/// The product of the `nd` 32-bit dimension lengths stored in memory from
/// `at` on: the element count the encoder walks.
pub open spec fn mem_dims_product(mem: Seq<u8>, at: int, nd: nat) -> nat
    decreases nd,
{
    if nd == 0 {
        1
    } else {
        (u32_from_be(mem.subrange(at, at + 4)) as nat) * mem_dims_product(
            mem,
            at + 4,
            (nd - 1) as nat,
        )
    }
}

/// Whether the running products of the dimension lengths all stay within
/// the arena's address space, as the encoder computes them left to right.
pub open spec fn mem_dims_partials_ok(mem: Seq<u8>, at: int, nd: nat, acc: nat) -> bool
    decreases nd,
{
    nd == 0 || {
        let dim = u32_from_be(mem.subrange(at, at + 4)) as nat;
        acc * dim <= 0xffff_fff0 && mem_dims_partials_ok(mem, at + 4, (nd - 1) as nat, acc * dim)
    }
}

/// `can_send` for a list value whose aligned header sits at `ac`.
pub open spec fn can_send_list(e: Tag, mem: Seq<u8>, ac: nat) -> bool
    decreases e, 2nat, 0nat,
{
    let p = u32_from_be(mem.subrange(ac as int, ac as int + 4)) as nat;
    let length = u32_from_be(mem.subrange(ac as int + 4, ac as int + 8)) as nat;
    &&& ac + 8 <= mem.len()
    &&& p % tag_align(e) == 0
    &&& p + length * tag_size(e) <= mem.len()
    &&& length * tag_size(e) <= 0xffff_fff0
    &&& can_send_elems(e, mem, p, length)
}

/// `can_send` for an array value whose aligned header sits at `ac`.
pub open spec fn can_send_array(e: Tag, nd: u8, mem: Seq<u8>, ac: nat) -> bool
    decreases e, 2nat, 0nat,
{
    let p = u32_from_be(mem.subrange(ac as int, ac as int + 4)) as nat;
    let total = mem_dims_product(mem, ac as int + 4, nd as nat);
    &&& ac + 4 * (1 + nd as nat) <= mem.len()
    &&& p % tag_align(e) == 0
    &&& p + total * tag_size(e) <= mem.len()
    &&& total * tag_size(e) <= 0xffff_fff0
    &&& mem_dims_partials_ok(mem, ac as int + 4, nd as nat, 1)
    &&& can_send_elems(e, mem, p, total)
}

/// Whether a value of type `t` can be read out of `mem` at cursor position
/// `at`: every header lies within the memory image and every pointer it
/// holds stays in bounds for the data it promises.
pub open spec fn can_send(t: Tag, mem: Seq<u8>, at: nat) -> bool
    decreases t, 0nat, 0nat,
{
    let ac = round_up_spec(at, tag_align(t));
    match t {
        Tag::Unit | Tag::Bool | Tag::Int32 | Tag::Int64 | Tag::Float64 => ac + tag_size(t)
            <= mem.len(),
        Tag::Str | Tag::Bytes | Tag::ByteArray => {
            let p = u32_from_be(mem.subrange(ac as int, ac as int + 4)) as nat;
            let length = u32_from_be(mem.subrange(ac as int + 4, ac as int + 8)) as nat;
            ac + 8 <= mem.len() && p + length <= mem.len()
        },
        Tag::Tuple(ch) => ac + tag_size(t) <= mem.len() && can_send_fields(ch@, 0, mem, ac),
        Tag::List(e) => can_send_list(*e, mem, ac),
        Tag::Array(e, nd) => can_send_array(*e, nd, mem, ac),
        Tag::Range(c) => {
            let s = tag_size(*c);
            &&& ac + tag_size(t) <= mem.len()
            &&& can_send(*c, mem, ac)
            &&& can_send(*c, mem, ac + s)
            &&& can_send(*c, mem, ac + 2 * s)
        },
        Tag::Keyword(c) => {
            let p = u32_from_be(mem.subrange(ac as int, ac as int + 4)) as nat;
            let length = u32_from_be(mem.subrange(ac as int + 4, ac as int + 8)) as nat;
            &&& ac + 8 <= mem.len()
            &&& p + length <= mem.len()
            &&& can_send(*c, mem, ac + 8)
        },
        Tag::Object => {
            let p = u32_from_be(mem.subrange(ac as int, ac as int + 4)) as nat;
            ac + 4 <= mem.len() && p + 4 <= mem.len()
        },
    }
}

/// `can_send` for `n` consecutive elements of type `e` at stride
/// `tag_size(e)` from `base`.
pub open spec fn can_send_elems(e: Tag, mem: Seq<u8>, base: nat, n: nat) -> bool
    decreases e, 1nat, n,
{
    n == 0 || (can_send(e, mem, (base + (n - 1) * tag_size(e)) as nat) && can_send_elems(
        e,
        mem,
        base,
        (n - 1) as nat,
    ))
}

/// `can_send` for the fields `ts[k..]` packed from `cur`.
pub open spec fn can_send_fields(ts: Seq<Tag>, k: int, mem: Seq<u8>, cur: nat) -> bool
    decreases ts, 0nat, ts.len() - k,
{
    k < 0 || k >= ts.len() || (can_send(ts[k], mem, cur) && can_send_fields(
        ts,
        k + 1,
        mem,
        round_up_spec(cur, tag_align(ts[k])) + tag_size(ts[k]),
    ))
}

/// The bytes `send_value` emits for a flat value at cursor position `at`:
/// the tag byte, then the body in layout order (tuples add their arity
/// byte; every nested value is tag-framed again).
pub open spec fn flat_sent_at(t: Tag, mem: Seq<u8>, at: nat) -> Seq<u8>
    decreases t, 0nat,
{
    let ac = round_up_spec(at, tag_align(t));
    match t {
        Tag::Unit => seq![TB_NONE],
        Tag::Bool | Tag::Int32 | Tag::Int64 | Tag::Float64 => seq![encoding(t)[0]] + mem.subrange(
            ac as int,
            ac as int + tag_size(t) as int,
        ),
        Tag::Tuple(ch) => seq![TB_TUPLE, ch.len() as u8] + flat_sent_fields(ch@, 0, mem, ac),
        Tag::Range(c) => seq![TB_RANGE] + flat_sent_at(*c, mem, ac) + flat_sent_at(
            *c,
            mem,
            ac + tag_size(*c),
        ) + flat_sent_at(*c, mem, ac + 2 * tag_size(*c)),
        _ => Seq::empty(),
    }
}

/// The concatenated `flat_sent_at` bodies of the fields `ts[k..]`.
pub open spec fn flat_sent_fields(ts: Seq<Tag>, k: int, mem: Seq<u8>, cur: nat) -> Seq<u8>
    decreases ts, ts.len() - k,
{
    if k < 0 || k >= ts.len() {
        Seq::empty()
    } else {
        flat_sent_at(ts[k], mem, cur) + flat_sent_fields(
            ts,
            k + 1,
            mem,
            round_up_spec(cur, tag_align(ts[k])) + tag_size(ts[k]),
        )
    }
}

/// The exact bytes `send_value` emits for a value of type `t` at cursor
/// position `at` of `mem` (meaningful when `can_send` holds): the tag
/// byte, then the body in layout order, following embedded pointers for
/// indirect values.
pub open spec fn sent_at(t: Tag, mem: Seq<u8>, at: nat) -> Seq<u8>
    decreases t, 0nat, 0nat,
{
    let ac = round_up_spec(at, tag_align(t));
    match t {
        Tag::Unit => seq![TB_NONE],
        Tag::Bool | Tag::Int32 | Tag::Int64 | Tag::Float64 => seq![encoding(t)[0]] + mem.subrange(
            ac as int,
            ac as int + tag_size(t) as int,
        ),
        Tag::Str | Tag::Bytes | Tag::ByteArray => {
            let p = u32_from_be(mem.subrange(ac as int, ac as int + 4)) as int;
            let length = u32_from_be(mem.subrange(ac as int + 4, ac as int + 8)) as int;
            seq![encoding(t)[0]] + mem.subrange(ac as int + 4, ac as int + 8) + mem.subrange(
                p,
                p + length,
            )
        },
        Tag::Tuple(ch) => seq![TB_TUPLE, ch.len() as u8] + sent_fields_at(ch@, 0, mem, ac),
        Tag::List(e) => sent_list_at(*e, mem, ac),
        Tag::Array(e, nd) => sent_array_at(*e, nd, mem, ac),
        Tag::Range(c) => seq![TB_RANGE] + sent_at(*c, mem, ac) + sent_at(*c, mem, ac + tag_size(*c))
            + sent_at(*c, mem, ac + 2 * tag_size(*c)),
        Tag::Keyword(c) => {
            let p = u32_from_be(mem.subrange(ac as int, ac as int + 4)) as int;
            let length = u32_from_be(mem.subrange(ac as int + 4, ac as int + 8)) as int;
            seq![TB_KEYWORD] + mem.subrange(ac as int + 4, ac as int + 8) + mem.subrange(
                p,
                p + length,
            ) + sent_at(*c, mem, ac + 8)
        },
        Tag::Object => {
            let p = u32_from_be(mem.subrange(ac as int, ac as int + 4)) as int;
            seq![TB_OBJECT] + mem.subrange(p, p + 4)
        },
    }
}

/// The emission of a list value whose aligned header sits at `ac`.
pub open spec fn sent_list_at(e: Tag, mem: Seq<u8>, ac: nat) -> Seq<u8>
    decreases e, 2nat, 0nat,
{
    let p = u32_from_be(mem.subrange(ac as int, ac as int + 4)) as nat;
    let length = u32_from_be(mem.subrange(ac as int + 4, ac as int + 8)) as nat;
    seq![TB_LIST] + mem.subrange(ac as int + 4, ac as int + 8) + sent_elems_at(e, mem, p, length)
}

/// The emission of an array value whose aligned header sits at `ac`.
pub open spec fn sent_array_at(e: Tag, nd: u8, mem: Seq<u8>, ac: nat) -> Seq<u8>
    decreases e, 2nat, 0nat,
{
    let p = u32_from_be(mem.subrange(ac as int, ac as int + 4)) as nat;
    let total = mem_dims_product(mem, ac as int + 4, nd as nat);
    seq![TB_ARRAY, nd] + mem.subrange(ac as int + 4, ac as int + 4 + 4 * (nd as int))
        + sent_elems_at(e, mem, p, total)
}

/// What `send_elements` emits: the element tag byte once, then the bodies
/// of `n` elements of type `e` read from `base` at the element stride.
pub open spec fn sent_elems_at(e: Tag, mem: Seq<u8>, base: nat, n: nat) -> Seq<u8>
    decreases e, 1nat, 0nat,
{
    seq![encoding(e)[0]] + sent_elems_body(e, mem, base, n)
}

/// The element bodies alone: one verbatim block for the scalar element
/// types, each element tag-framed otherwise.
pub open spec fn sent_elems_body(e: Tag, mem: Seq<u8>, base: nat, n: nat) -> Seq<u8>
    decreases e, 0nat, n,
{
    if n == 0 {
        Seq::empty()
    } else if is_scalar(e) {
        mem.subrange(base as int, base as int + (n * tag_size(e)) as int)
    } else {
        sent_elems_body(e, mem, base, (n - 1) as nat) + sent_at(
            e,
            mem,
            (base + (n - 1) * tag_size(e)) as nat,
        )
    }
}

/// The concatenated emissions of the tuple fields `ts[k..]` packed from
/// cursor position `cur`.
pub open spec fn sent_fields_at(ts: Seq<Tag>, k: int, mem: Seq<u8>, cur: nat) -> Seq<u8>
    decreases ts, 0nat, ts.len() - k,
{
    if k < 0 || k >= ts.len() {
        Seq::empty()
    } else {
        sent_at(ts[k], mem, cur) + sent_fields_at(
            ts,
            k + 1,
            mem,
            round_up_spec(cur, tag_align(ts[k])) + tag_size(ts[k]),
        )
    }
}

/// A tag acceptable at the top of an argument list: any well-formed tag,
/// a keyword wrapping one, or an object handle.
pub open spec fn arg_wf(t: Tag) -> bool {
    match t {
        Tag::Keyword(c) => tag_wf(*c),
        Tag::Object => true,
        _ => tag_wf(t),
    }
}

/// Every element of a `can_send` run of elements can itself be sent.
pub proof fn lemma_can_send_elems_index(e: Tag, mem: Seq<u8>, base: nat, n: nat, i: nat)
    requires
        can_send_elems(e, mem, base, n),
        i < n,
    ensures
        can_send(e, mem, base + i * tag_size(e)),
    decreases n,
{
    if i + 1 < n {
        lemma_can_send_elems_index(e, mem, base, (n - 1) as nat, i);
    }
}

/// Prefixes compose.
pub proof fn lemma_prefix_trans(a: Seq<u8>, b: Seq<u8>, c: Seq<u8>)
    requires
        a.is_prefix_of(b),
        b.is_prefix_of(c),
    ensures
        a.is_prefix_of(c),
{
    assert(a =~= c.subrange(0, a.len() as int));
}

/// Appends `n` bytes of `mem` starting at `base` to `out`.
fn emit_mem_range(out: &mut Vec<u8>, mem: &Arena, base: usize, n: usize)
    requires
        mem.wf(),
        base + n <= mem.mem().len(),
    ensures
        final(out)@ == old(out)@ + mem.mem().subrange(base as int, base as int + n),
{
    let ghost o0 = out@;
    let mut i: usize = 0;
    while i < n
        invariant
            i <= n,
            mem.wf(),
            base + n <= mem.mem().len(),
            out@ == o0 + mem.mem().subrange(base as int, base as int + i),
        decreases n - i,
    {
        let b = mem.read_u8(base + i);
        out.push(b);
        proof {
            assert(out@ =~= o0 + mem.mem().subrange(base as int, base as int + i + 1));
        }
        i = i + 1;
    }
    proof {
        assert(out@ =~= o0 + mem.mem().subrange(base as int, base as int + n));
    }
}

/// Encodes the tuple fields `ch[k..]`, reading each from its aligned slot.
fn send_fields(
    out: &mut Vec<u8>,
    ch: &Vec<Tag>,
    k: usize,
    mem: &Arena,
    cursor: &mut usize,
) -> (r: Result<(), RpcError>)
    requires
        tags_wf(ch@),
        sizes_ok_all(ch@),
        k <= ch@.len(),
        mem.wf(),
        *old(cursor) <= mem.mem().len(),
    ensures
        old(out)@.is_prefix_of(final(out)@),
        can_send_fields(ch@, k as int, mem.mem(), *old(cursor) as nat) ==> r is Ok,
        r is Ok ==> *final(cursor) as nat == fields_end(ch@, k as int, *old(cursor) as nat)
            && fields_end(ch@, k as int, *old(cursor) as nat) <= mem.mem().len(),
        r is Ok ==> final(out)@ == old(out)@ + sent_fields_at(
            ch@,
            k as int,
            mem.mem(),
            *old(cursor) as nat,
        ),
    decreases ch@, 0nat, ch@.len() - k,
{
    if k == ch.len() {
        proof {
            assert(final(out)@ =~= old(out)@ + sent_fields_at(
                ch@,
                k as int,
                mem.mem(),
                *old(cursor) as nat,
            ));
        }
        return Ok(());
    }
    proof {
        lemma_tags_wf_index(ch@, k as int);
        lemma_sizes_ok_index(ch@, k as int);
    }
    let ghost o0 = out@;
    let ghost c0 = *cursor as nat;
    let r1 = send_value(out, &ch[k], mem, cursor);
    match r1 {
        Err(e) => Err(e),
        Ok(()) => {
            let ghost o1 = out@;
            let r2 = send_fields(out, ch, k + 1, mem, cursor);
            proof {
                lemma_prefix_trans(o0, o1, out@);
            }
            match r2 {
                Err(e) => Err(e),
                Ok(()) => {
                    proof {
                        assert(out@ =~= o0 + sent_fields_at(ch@, k as int, mem.mem(), c0));
                    }
                    Ok(())
                },
            }
        },
    }
}

/// Encodes `length` elements of type `elt` read from `base` at the element
/// stride: the element tag byte once, then the bodies; the scalar element
/// types cross as one verbatim block.
fn send_elements(
    out: &mut Vec<u8>,
    elt: &Tag,
    length: usize,
    base: usize,
    mem: &Arena,
) -> (r: Result<(), RpcError>)
    requires
        tag_wf(*elt),
        sizes_ok(*elt),
        mem.wf(),
        (base as nat) % tag_align(*elt) == 0,
        base + length * tag_size(*elt) <= mem.mem().len(),
    ensures
        old(out)@.is_prefix_of(final(out)@),
        can_send_elems(*elt, mem.mem(), base as nat, length as nat) ==> r is Ok,
        r is Ok ==> final(out)@ == old(out)@ + sent_elems_at(
            *elt,
            mem.mem(),
            base as nat,
            length as nat,
        ),
    decreases *elt, 1nat, 0nat,
{
    let tb = elt.as_u8();
    out.push(tb);
    proof {
        assert(sent_elems_body(*elt, mem.mem(), base as nat, 0) == Seq::<u8>::empty());
        assert(out@ =~= old(out)@ + seq![encoding(*elt)[0]] + sent_elems_body(
            *elt,
            mem.mem(),
            base as nat,
            0,
        ));
        assert(old(out)@.is_prefix_of(out@)) by {
            assert(old(out)@ =~= out@.subrange(0, old(out)@.len() as int));
        }
    }
    let scalar = match elt {
        Tag::Bool | Tag::Int32 | Tag::Int64 | Tag::Float64 => true,
        _ => false,
    };
    proof {
        assert(scalar == is_scalar(*elt));
    }
    if scalar {
        let esize = elt.size();
        let n = length * esize;
        emit_mem_range(out, mem, base, n);
        proof {
            assert(sent_elems_body(*elt, mem.mem(), base as nat, length as nat) =~= mem.mem()
                .subrange(base as int, base as int + (length * tag_size(*elt)) as int));
            assert(final(out)@ =~= old(out)@ + sent_elems_at(
                *elt,
                mem.mem(),
                base as nat,
                length as nat,
            ));
        }
        Ok(())
    } else {
        let esize = elt.size();
        let ghost oinit = old(out)@;
        let mut cur: usize = base;
        let mut i: usize = 0;
        while i < length
            invariant
                tag_wf(*elt),
                sizes_ok(*elt),
                !is_scalar(*elt),
                mem.wf(),
                i <= length,
                esize as nat == tag_size(*elt),
                cur as nat == base + i * tag_size(*elt),
                (base as nat) % tag_align(*elt) == 0,
                base + length * tag_size(*elt) <= mem.mem().len(),
                oinit == old(out)@,
                oinit.is_prefix_of(out@),
                out@ == oinit + seq![encoding(*elt)[0]] + sent_elems_body(
                    *elt,
                    mem.mem(),
                    base as nat,
                    i as nat,
                ),
            decreases length - i,
        {
            proof {
                lemma_wf_layout(*elt);
                lemma_align_pos(*elt);
                lemma_mul_multiple(i as nat, tag_size(*elt), tag_align(*elt));
                lemma_mod_add_zero(base as nat, i as nat * tag_size(*elt), tag_align(*elt));
                lemma_round_up_props(cur as nat, tag_align(*elt));
                assert(round_up_spec(cur as nat, tag_align(*elt)) == cur as nat);
                assert((i + 1) * tag_size(*elt) <= length * tag_size(*elt)) by (nonlinear_arith)
                    requires
                        i < length,
                ;
                assert(base + (i + 1) * tag_size(*elt) == cur as nat + tag_size(*elt))
                    by (nonlinear_arith)
                    requires
                        cur as nat == base + i * tag_size(*elt),
                ;
                if can_send_elems(*elt, mem.mem(), base as nat, length as nat) {
                    lemma_can_send_elems_index(
                        *elt,
                        mem.mem(),
                        base as nat,
                        length as nat,
                        i as nat,
                    );
                }
            }
            let ghost opre = out@;
            let ghost cur0 = cur as nat;
            let r = send_value(out, elt, mem, &mut cur);
            proof {
                lemma_prefix_trans(oinit, opre, out@);
            }
            match r {
                Err(e) => {
                    proof {
                        if can_send_elems(*elt, mem.mem(), base as nat, length as nat) {
                            assert(false);
                        }
                    }
                    return Err(e);
                },
                Ok(()) => {
                },
            }
            proof {
                assert(cur0 == base as nat + (i as nat) * tag_size(*elt));
                assert(sent_elems_body(*elt, mem.mem(), base as nat, i as nat + 1)
                    == sent_elems_body(*elt, mem.mem(), base as nat, (i as nat + 1 - 1) as nat)
                    + sent_at(
                    *elt,
                    mem.mem(),
                    (base as nat + (i as nat + 1 - 1) * tag_size(*elt)) as nat,
                ));
                assert(sent_elems_body(*elt, mem.mem(), base as nat, i as nat + 1)
                    == sent_elems_body(*elt, mem.mem(), base as nat, i as nat) + sent_at(
                    *elt,
                    mem.mem(),
                    cur0,
                ));
                assert(out@ =~= oinit + seq![encoding(*elt)[0]] + sent_elems_body(
                    *elt,
                    mem.mem(),
                    base as nat,
                    i as nat + 1,
                ));
            }
            i = i + 1;
        }
        proof {
            assert(out@ =~= old(out)@ + sent_elems_at(
                *elt,
                mem.mem(),
                base as nat,
                length as nat,
            ));
        }
        Ok(())
    }
}

/// Encodes one value of type `tag` read from memory at the cursor: the tag
/// byte, then the body, following embedded pointers for indirect values
/// and advancing the cursor by exactly the tag's size past its aligned
/// start.  Fails, emitting a possibly incomplete stream, if a header or
/// pointer would reach outside the memory image; a value accepted by
/// `can_send` is always encoded whole.
#[verifier::spinoff_prover]
#[verifier::rlimit(100)]
pub fn send_value(
    out: &mut Vec<u8>,
    tag: &Tag,
    mem: &Arena,
    cursor: &mut usize,
) -> (r: Result<(), RpcError>)
    requires
        arg_wf(*tag),
        sizes_ok(*tag),
        mem.wf(),
        *old(cursor) <= mem.mem().len(),
    ensures
        old(out)@.is_prefix_of(final(out)@),
        can_send(*tag, mem.mem(), *old(cursor) as nat) ==> r is Ok,
        r is Ok && tag_wf(*tag) ==> *final(cursor) as nat == round_up_spec(
            *old(cursor) as nat,
            tag_align(*tag),
        ) + tag_size(*tag) && *final(cursor) <= mem.mem().len(),
        r is Ok && *tag is Object ==> *final(cursor) as nat == round_up_spec(
            *old(cursor) as nat,
            4,
        ) + 4 && *final(cursor) <= mem.mem().len(),
        r is Ok ==> final(out)@ == old(out)@ + sent_at(*tag, mem.mem(), *old(cursor) as nat),
    decreases *tag, 0nat, 0nat,
{
    let ghost c0 = *cursor as nat;
    let mlen = mem.len();
    match tag {
        Tag::Unit => {
            out.push(TB_NONE);
            proof {
                assert(round_up_spec(c0, 1) == c0);
                assert(final(out)@ =~= old(out)@ + sent_at(*tag, mem.mem(), c0));
            }
            Ok(())
        },
        Tag::Bool | Tag::Int32 | Tag::Int64 | Tag::Float64 => {
            let a = tag.alignment();
            let sz = tag.size();
            proof {
                lemma_round_up_props(c0, tag_align(*tag));
            }
            let ac = round_up(*cursor, a);
            if ac > mlen || mlen - ac < sz {
                proof {
                    assert(!can_send(*tag, mem.mem(), c0));
                }
                return Err(RpcError::UnexpectedEnd);
            }
            out.push(tag.as_u8());
            emit_mem_range(out, mem, ac, sz);
            *cursor = ac + sz;
            proof {
                assert(final(out)@ =~= old(out)@ + sent_at(*tag, mem.mem(), c0));
            }
            Ok(())
        },
        Tag::Str | Tag::Bytes | Tag::ByteArray => {
            proof {
                lemma_round_up_props(c0, 4);
            }
            let ac = round_up(*cursor, 4);
            if ac > mlen || mlen - ac < 8 {
                return Err(RpcError::UnexpectedEnd);
            }
            let p = mem.read_u32(ac) as usize;
            let length = mem.read_u32(ac + 4) as usize;
            if p > mlen || mlen - p < length {
                return Err(RpcError::UnexpectedEnd);
            }
            out.push(tag.as_u8());
            emit_mem_range(out, mem, ac + 4, 4);
            emit_mem_range(out, mem, p, length);
            *cursor = ac + 8;
            proof {
                assert(final(out)@ =~= old(out)@ + sent_at(*tag, mem.mem(), c0));
            }
            Ok(())
        },
        Tag::Object => {
            proof {
                lemma_round_up_props(c0, 4);
            }
            let ac = round_up(*cursor, 4);
            if ac > mlen || mlen - ac < 4 {
                proof {
                    assert(!can_send(*tag, mem.mem(), c0));
                }
                return Err(RpcError::UnexpectedEnd);
            }
            let p = mem.read_u32(ac) as usize;
            if p > mlen || mlen - p < 4 {
                proof {
                    assert(!can_send(*tag, mem.mem(), c0));
                }
                return Err(RpcError::UnexpectedEnd);
            }
            out.push(TB_OBJECT);
            emit_mem_range(out, mem, p, 4);
            *cursor = ac + 4;
            proof {
                assert(final(out)@ =~= old(out)@ + sent_at(*tag, mem.mem(), c0));
            }
            Ok(())
        },
        Tag::Tuple(ch) => {
            let a = tag.alignment();
            proof {
                lemma_round_up_props(c0, tag_align(*tag));
            }
            let ac = round_up(*cursor, a);
            if ac > mlen || mlen - ac < tag.size() {
                return Err(RpcError::UnexpectedEnd);
            }
            out.push(TB_TUPLE);
            let arity = ch.len() as u8;
            out.push(arity);
            *cursor = ac;
            let ghost o0 = out@;
            proof {
                assert(old(out)@.is_prefix_of(o0)) by {
                    assert(old(out)@ =~= o0.subrange(0, old(out)@.len() as int));
                }
            }
            let r = send_fields(out, ch, 0, mem, cursor);
            proof {
                lemma_prefix_trans(old(out)@, o0, out@);
            }
            match r {
                Err(e) => {
                    proof {
                        if can_send(*tag, mem.mem(), c0) {
                            assert(false);
                        }
                    }
                    Err(e)
                },
                Ok(()) => {
                    let fin = round_up(*cursor, a);
                    *cursor = fin;
                    proof {
                        let mal = mal_upto(ch@, ch@.len() as int);
                        let offn = off_after(ch@, ch@.len() as int);
                        lemma_fields_end_off(ch@, 0, ac as nat);
                        lemma_round_up_ge(offn, mal);
                        lemma_round_up_add_base(ac as nat, offn, mal);
                        assert(fields_end(ch@, 0, ac as nat) == ac as nat + offn);
                        assert(tag_size(*tag) == round_up_spec(offn, mal));
                        assert(fin as nat == ac as nat + round_up_spec(offn, mal));
                        assert(final(out)@ =~= old(out)@ + sent_at(*tag, mem.mem(), c0));
                    }
                    Ok(())
                },
            }
        },
        Tag::List(e) => {
            proof {
                assert(sizes_ok(**e));
                lemma_round_up_props(c0, 4);
            }
            let r = send_list(out, e, mem, cursor);
            proof {
                if r is Ok {
                    assert(sent_at(*tag, mem.mem(), c0) == sent_list_at(
                        **e,
                        mem.mem(),
                        round_up_spec(c0, 4),
                    ));
                }
                if can_send(*tag, mem.mem(), c0) {
                    assert(can_send_list(**e, mem.mem(), round_up_spec(c0, 4)));
                }
            }
            r
        },
        Tag::Array(e, nd) => {
            proof {
                assert(sizes_ok(**e));
                lemma_round_up_props(c0, 4);
            }
            let r = send_array(out, e, *nd, mem, cursor);
            proof {
                if r is Ok {
                    assert(sent_at(*tag, mem.mem(), c0) == sent_array_at(
                        **e,
                        *nd,
                        mem.mem(),
                        round_up_spec(c0, 4),
                    ));
                }
                if can_send(*tag, mem.mem(), c0) {
                    assert(can_send_array(**e, *nd, mem.mem(), round_up_spec(c0, 4)));
                }
            }
            r
        },
        Tag::Range(c) => {
            let a = tag.alignment();
            proof {
                lemma_wf_layout(**c);
                lemma_round_up_props(c0, tag_align(*tag));
                lemma_round_up_props(c0, tag_align(**c));
            }
            let ac = round_up(*cursor, a);
            let s = c.size();
            if ac > mlen || mlen - ac < tag.size() {
                return Err(RpcError::UnexpectedEnd);
            }
            out.push(TB_RANGE);
            *cursor = ac;
            let ghost o1 = out@;
            proof {
                assert(old(out)@.is_prefix_of(o1)) by {
                    assert(old(out)@ =~= o1.subrange(0, old(out)@.len() as int));
                }
                lemma_mod_add_zero(ac as nat, tag_size(**c), tag_align(**c));
                lemma_mod_add_zero(ac as nat + tag_size(**c), tag_size(**c), tag_align(**c));
                lemma_round_up_props(ac as nat, tag_align(**c));
            }
            let r1 = send_value(out, c, mem, cursor);
            proof {
                lemma_prefix_trans(old(out)@, o1, out@);
            }
            match r1 {
                Err(e) => {
                    return Err(e);
                },
                Ok(()) => {
                },
            }
            let ghost o2 = out@;
            let r2 = send_value(out, c, mem, cursor);
            proof {
                lemma_prefix_trans(old(out)@, o2, out@);
            }
            match r2 {
                Err(e) => {
                    return Err(e);
                },
                Ok(()) => {
                },
            }
            let ghost o3 = out@;
            let r3 = send_value(out, c, mem, cursor);
            proof {
                lemma_prefix_trans(old(out)@, o3, out@);
            }
            match r3 {
                Err(e) => {
                    return Err(e);
                },
                Ok(()) => {
                },
            }
            proof {
                let s_ = tag_size(**c);
                let a_ = tag_align(**c);
                assert(round_up_spec(ac as nat, a_) == ac as nat);
                assert(round_up_spec(ac as nat + s_, a_) == ac as nat + s_);
                assert(round_up_spec(ac as nat + 2 * s_, a_) == ac as nat + 2 * s_);
                assert(final(out)@ =~= old(out)@ + sent_at(*tag, mem.mem(), c0));
            }
            Ok(())
        },
        Tag::Keyword(c) => {
            proof {
                lemma_round_up_props(c0, 4);
            }
            let ac = round_up(*cursor, 4);
            if ac > mlen || mlen - ac < 8 {
                proof {
                    assert(!can_send(*tag, mem.mem(), c0));
                }
                return Err(RpcError::UnexpectedEnd);
            }
            let p = mem.read_u32(ac) as usize;
            let length = mem.read_u32(ac + 4) as usize;
            if p > mlen || mlen - p < length {
                proof {
                    assert(!can_send(*tag, mem.mem(), c0));
                }
                return Err(RpcError::UnexpectedEnd);
            }
            out.push(TB_KEYWORD);
            let ghost o1 = out@;
            proof {
                assert(old(out)@.is_prefix_of(o1)) by {
                    assert(old(out)@ =~= o1.subrange(0, old(out)@.len() as int));
                }
            }
            emit_mem_range(out, mem, ac + 4, 4);
            let ghost o2 = out@;
            proof {
                lemma_prefix_trans(old(out)@, o1, o2);
            }
            emit_mem_range(out, mem, p, length);
            let ghost o3 = out@;
            proof {
                lemma_prefix_trans(old(out)@, o2, o3);
            }
            let mut vcur: usize = ac + 8;
            let r = send_value(out, c, mem, &mut vcur);
            proof {
                lemma_prefix_trans(old(out)@, o3, out@);
            }
            match r {
                Err(e2) => Err(e2),
                Ok(()) => {
                    proof {
                        assert(final(out)@ =~= old(out)@ + sent_at(*tag, mem.mem(), c0));
                    }
                    Ok(())
                },
            }
        },
    }
}

/// Every element of a faithfully encodable sequence is faithfully
/// encodable.
pub proof fn lemma_tags_enc_valid_index(ts: Seq<Tag>, i: int)
    requires
        tags_enc_valid(ts),
        0 <= i < ts.len(),
    ensures
        enc_valid(ts[i]),
    decreases i,
{
    if i > 0 {
        lemma_tags_enc_valid_index(ts.subrange(1, ts.len() as int), i - 1);
    }
}

/// Receives one return value: parses the single return tag from
/// `tag_bytes` (known a priori, so the stream holds only the value body)
/// and decodes the body into the caller's buffer at `dest`.
pub fn recv_return(
    wire: &Vec<u8>,
    wpos: &mut usize,
    tag_bytes: &[u8],
    arena: &mut Arena,
    dest: usize,
) -> (r: Result<(), RpcError>)
    requires
        old(arena).wf(),
        *old(wpos) <= wire@.len(),
        exists|t: Tag, rest: Seq<u8>| enc_valid(t) && tag_bytes@ == #[trigger] (encoding(t) + rest),
        forall|t: Tag, rest: Seq<u8>|
            enc_valid(t) && tag_bytes@ == #[trigger] (encoding(t) + rest) ==> tag_wf(t)
                && sizes_ok(t) && round_up_spec(dest as nat, tag_align(t)) + tag_size(t) <= old(arena).mem().len(),
    ensures
        final(arena).wf(),
        final(arena).capacity() == old(arena).capacity(),
        final(arena).mem().len() >= old(arena).mem().len(),
        *old(wpos) <= *final(wpos) <= wire@.len(),
        old(arena).allocs().is_prefix_of(final(arena).allocs()),
        exists|t: Tag, rest: Seq<u8>|
            enc_valid(t) && tag_bytes@ == #[trigger] (encoding(t) + rest) && (forall|j: int|
                0 <= j < old(arena).mem().len() && !(round_up_spec(dest as nat, tag_align(t)) <= j
                    < round_up_spec(dest as nat, tag_align(t)) + tag_size(t)) ==> final(arena).mem()[j] == old(arena).mem()[j]) && (is_flat(t) ==> (r is Ok <==> *old(wpos)
                + wire_len(t) <= wire@.len()) && (r is Ok ==> wire@.subrange(
                *old(wpos) as int,
                *final(wpos) as int,
            ) == flat_wire_at(t, final(arena).mem(), dest as nat))) && ((t is Str || t is Bytes
                || t is ByteArray) ==> ((r is Ok <==> ({
                let length = u32_from_be(
                    wire@.subrange(*old(wpos) as int, *old(wpos) as int + 4),
                ) as nat;
                &&& *old(wpos) + 4 <= wire@.len()
                &&& round_up_spec(old(arena).mem().len(), 8) + length <= old(arena).capacity()
                &&& *old(wpos) + 4 + length <= wire@.len()
            })) && (r is Ok ==> slice_recv_ok(
                old(arena).mem(),
                final(arena).mem(),
                old(arena).allocs(),
                final(arena).allocs(),
                wire@,
                *old(wpos) as int,
                *final(wpos) as int,
                round_up_spec(dest as nat, 4) as int,
            )))) && (match t {
                Tag::List(elt) => r is Ok ==> list_recv_ok(
                    *elt,
                    old(arena).mem(),
                    final(arena).mem(),
                    wire@,
                    *old(wpos) as int,
                    *final(wpos) as int,
                    round_up_spec(dest as nat, 4) as int,
                ),
                Tag::Array(elt, nd) => r is Ok ==> array_recv_ok(
                    *elt,
                    nd,
                    old(arena).mem(),
                    final(arena).mem(),
                    wire@,
                    *old(wpos) as int,
                    *final(wpos) as int,
                    round_up_spec(dest as nat, 4) as int,
                ),
                _ => true,
            }),
{
    let mut it = TagIterator::new(tag_bytes);
    let t = match it.next() {
        Some(t) => t,
        None => {
            proof {
                let (t0, rest0) = choose|t0: Tag, rest0: Seq<u8>|
                    enc_valid(t0) && tag_bytes@ == #[trigger] (encoding(t0) + rest0);
                assert(false);
            }
            vstd::pervasive::unreached()
        },
    };
    let mut cursor = dest;
    let ghost rem = it.remaining();
    proof {
        assert(tag_bytes@ == encoding(t) + rem);
    }
    recv_value(wire, wpos, &t, arena, &mut cursor)
}

/// Concatenated per-argument emissions: the `k`-th argument of type
/// `ts[k]` is read from memory at `addrs[k]`.
pub open spec fn sent_args_cat(ts: Seq<Tag>, mem: Seq<u8>, addrs: Seq<usize>) -> Seq<u8>
    decreases ts.len(),
{
    if ts.len() == 0 {
        Seq::empty()
    } else {
        sent_args_cat(ts.drop_last(), mem, addrs) + sent_at(
            ts.last(),
            mem,
            addrs[ts.len() - 1] as nat,
        )
    }
}

/// Appending a tag appends its encoding.
pub proof fn lemma_enc_all_snoc(ts: Seq<Tag>, t: Tag)
    ensures
        encoding_all(ts.push(t)) == encoding_all(ts) + encoding(t),
    decreases ts.len(),
{
    let p = ts.push(t);
    if ts.len() == 0 {
        assert(p[0] == t);
        assert(p.subrange(1, p.len() as int) =~= Seq::<Tag>::empty());
        assert(encoding_all(Seq::<Tag>::empty()) == Seq::<u8>::empty());
        assert(encoding_all(p) == encoding(t) + encoding_all(p.subrange(1, p.len() as int)));
        assert(encoding_all(p) =~= encoding_all(ts) + encoding(t));
    } else {
        assert(p[0] == ts[0]);
        assert(p.subrange(1, p.len() as int) =~= ts.subrange(1, ts.len() as int).push(t));
        lemma_enc_all_snoc(ts.subrange(1, ts.len() as int), t);
        assert(encoding_all(p.subrange(1, p.len() as int)) == encoding_all(
            ts.subrange(1, ts.len() as int),
        ) + encoding(t));
        assert(encoding_all(p) == encoding(ts[0]) + (encoding_all(
            ts.subrange(1, ts.len() as int),
        ) + encoding(t)));
        assert(encoding_all(p) =~= encoding_all(ts) + encoding(t));
    }
}

/// Appending a faithfully encodable tag keeps the sequence faithful.
pub proof fn lemma_tags_enc_valid_snoc(ts: Seq<Tag>, t: Tag)
    requires
        tags_enc_valid(ts),
        enc_valid(t),
    ensures
        tags_enc_valid(ts.push(t)),
    decreases ts.len(),
{
    let p = ts.push(t);
    if ts.len() == 0 {
        assert(p[0] == t);
        assert(p.subrange(1, p.len() as int) =~= Seq::<Tag>::empty());
        assert(tags_enc_valid(Seq::<Tag>::empty()));
        assert(tags_enc_valid(p));
    } else {
        assert(p[0] == ts[0]);
        assert(enc_valid(p[0]));
        assert(p.subrange(1, p.len() as int) =~= ts.subrange(1, ts.len() as int).push(t));
        lemma_tags_enc_valid_snoc(ts.subrange(1, ts.len() as int), t);
        assert(tags_enc_valid(p));
    }
}

/// A sendable value's cursor position lies within the memory image.
pub proof fn lemma_can_send_bound(t: Tag, mem: Seq<u8>, at: nat)
    requires
        can_send(t, mem, at),
    ensures
        at <= mem.len(),
{
    lemma_round_up_ge(at, tag_align(t));
    let ac = round_up_spec(at, tag_align(t));
    match t {
        Tag::Unit | Tag::Bool | Tag::Int32 | Tag::Int64 | Tag::Float64 => {
            assert(ac + tag_size(t) <= mem.len());
        },
        Tag::Str | Tag::Bytes | Tag::ByteArray => {
            assert(ac + 8 <= mem.len());
        },
        Tag::Tuple(ch) => {
            assert(ac + tag_size(t) <= mem.len());
        },
        Tag::List(e) => {
            assert(can_send_list(*e, mem, ac));
            assert(ac + 8 <= mem.len());
        },
        Tag::Array(e, nd) => {
            assert(can_send_array(*e, nd, mem, ac));
            assert(ac + 4 * (1 + nd as nat) <= mem.len());
        },
        Tag::Range(c) => {
            assert(ac + tag_size(t) <= mem.len());
        },
        Tag::Keyword(c) => {
            assert(ac + 8 <= mem.len());
        },
        Tag::Object => {
            assert(ac + 4 <= mem.len());
        },
    }
}

/// Sends one call's arguments: the service id as a framed 32-bit scalar,
/// then each argument value (tag-framed) read from the memory address the
/// argument table gives for it, then a zero end-of-arguments byte, then
/// the return tag bytes verbatim.  The caller guarantees a well-formed
/// signature and sendable argument memory, so the call always succeeds
/// and the emitted bytes are fixed exactly.
pub fn send_args(
    out: &mut Vec<u8>,
    service: u32,
    tag_bytes: &[u8],
    mem: &Arena,
    arg_addrs: &Vec<usize>,
) -> (r: Result<(), RpcError>)
    requires
        mem.wf(),
        exists|i: int| 0 <= i < tag_bytes@.len() && tag_bytes@[i] == TAG_SEPARATOR,
        exists|i: int, ts: Seq<Tag>|
            0 <= i < tag_bytes@.len() && #[trigger] tag_bytes@[i] == TAG_SEPARATOR && (forall|
                j: int,
            |
                0 <= j < i ==> tag_bytes@[j] != TAG_SEPARATOR) && tag_bytes@.subrange(0, i)
                == #[trigger] encoding_all(ts),
        forall|i: int, ts: Seq<Tag>|
            {
                &&& 0 <= i < tag_bytes@.len()
                &&& #[trigger] tag_bytes@[i] == TAG_SEPARATOR
                &&& (forall|j: int| 0 <= j < i ==> tag_bytes@[j] != TAG_SEPARATOR)
                &&& tag_bytes@.subrange(0, i) == #[trigger] encoding_all(ts)
            } ==> tags_enc_valid(ts) && ts.len() == arg_addrs@.len(),
        forall|t: Tag, ts_pre: Seq<Tag>, rest: Seq<u8>|
            enc_valid(t) && tags_enc_valid(ts_pre) && ts_pre.len() < arg_addrs@.len() && (exists|
                i: int,
            |
                0 <= i < tag_bytes@.len() && tag_bytes@[i] == TAG_SEPARATOR && (forall|j: int|
                    0 <= j < i ==> tag_bytes@[j] != TAG_SEPARATOR) && tag_bytes@.subrange(0, i)
                    == #[trigger] (encoding_all(ts_pre) + encoding(t) + rest)) ==> arg_wf(t)
                && sizes_ok(t) && can_send(
                t,
                mem.mem(),
                arg_addrs@[ts_pre.len() as int] as nat,
            ),
    ensures
        old(out)@.is_prefix_of(final(out)@),
        r is Ok,
        exists|i: int, ts: Seq<Tag>|
            0 <= i < tag_bytes@.len() && #[trigger] tag_bytes@[i] == TAG_SEPARATOR && (forall|
                j: int,
            |
                0 <= j < i ==> tag_bytes@[j] != TAG_SEPARATOR) && tag_bytes@.subrange(0, i)
                == #[trigger] encoding_all(ts) && tags_enc_valid(ts) && ts.len()
                == arg_addrs@.len() && final(out)@ == old(out)@ + u32_be_bytes(service)
                + sent_args_cat(ts, mem.mem(), arg_addrs@) + seq![0u8] + tag_bytes@.subrange(
                i + 1,
                tag_bytes@.len() as int,
            ),
{
    let (arg_bytes, ret_bytes) = split_tag(tag_bytes);
    let ghost sep = arg_bytes@.len() as int;
    out.push((service >> 24) as u8);
    out.push((service >> 16) as u8);
    out.push((service >> 8) as u8);
    out.push(service as u8);
    let ghost base = out@;
    proof {
        assert(base =~= old(out)@ + u32_be_bytes(service));
        assert(old(out)@.is_prefix_of(base)) by {
            assert(old(out)@ =~= base.subrange(0, old(out)@.len() as int));
        }
    }
    proof {
        assert(arg_bytes@ == tag_bytes@.subrange(0, sep));
        let (i0, ts0) = choose|i0: int, ts0: Seq<Tag>|
            0 <= i0 < tag_bytes@.len() && #[trigger] tag_bytes@[i0] == TAG_SEPARATOR && (forall|
                j: int,
            |
                0 <= j < i0 ==> tag_bytes@[j] != TAG_SEPARATOR) && tag_bytes@.subrange(0, i0)
                == #[trigger] encoding_all(ts0);
        if i0 < sep {
            assert(tag_bytes@[i0] != TAG_SEPARATOR);
        }
        if i0 > sep {
            assert(tag_bytes@[sep] != TAG_SEPARATOR);
        }
        assert(i0 == sep);
        assert(arg_bytes@ == encoding_all(ts0));
        assert(tags_enc_valid(ts0) && ts0.len() == arg_addrs@.len());
        assert(exists|ts2: Seq<Tag>|
            arg_bytes@ == #[trigger] encoding_all(ts2) && tags_enc_valid(ts2) && ts2.len()
                == arg_addrs@.len());
    }
    let ghost ts = choose|ts: Seq<Tag>|
        arg_bytes@ == #[trigger] encoding_all(ts) && tags_enc_valid(ts) && ts.len()
            == arg_addrs@.len();
    let n_args = arg_addrs.len();
    let mut parsed: Ghost<Seq<Tag>> = Ghost(Seq::empty());
    proof {
        assert(ts.skip(0) =~= ts);
        assert(arg_bytes@.subrange(0, 0) =~= encoding_all(parsed@));
        assert(sent_args_cat(parsed@, mem.mem(), arg_addrs@) == Seq::<u8>::empty());
        assert(base =~= base + sent_args_cat(parsed@, mem.mem(), arg_addrs@));
    }
    let mut it = TagIterator::new(arg_bytes);
    let mut k: usize = 0;
    loop
        invariant
            it.wf(),
            mem.wf(),
            k <= ts.len(),
            arg_addrs@.len() == ts.len(),
            n_args == arg_addrs@.len(),
            tags_enc_valid(ts),
            arg_bytes@ == encoding_all(ts),
            arg_bytes@ == tag_bytes@.subrange(0, sep),
            0 <= sep < tag_bytes@.len(),
            tag_bytes@[sep] == TAG_SEPARATOR,
            forall|j: int| 0 <= j < sep ==> tag_bytes@[j] != TAG_SEPARATOR,
            it.remaining() == encoding_all(ts.skip(k as int)),
            parsed@.len() == k,
            tags_enc_valid(parsed@),
            arg_bytes@.subrange(0, arg_bytes@.len() - it.remaining().len()) == encoding_all(
                parsed@,
            ),
            arg_bytes@ == arg_bytes@.subrange(0, arg_bytes@.len() - it.remaining().len())
                + it.remaining(),
            base == old(out)@ + u32_be_bytes(service),
            old(out)@.is_prefix_of(base),
            out@ == base + sent_args_cat(parsed@, mem.mem(), arg_addrs@),
            forall|t: Tag, ts_pre: Seq<Tag>, rest: Seq<u8>|
                enc_valid(t) && tags_enc_valid(ts_pre) && ts_pre.len() < arg_addrs@.len() && (
                exists|i: int|
                    0 <= i < tag_bytes@.len() && tag_bytes@[i] == TAG_SEPARATOR && (forall|j: int|
                        0 <= j < i ==> tag_bytes@[j] != TAG_SEPARATOR) && tag_bytes@.subrange(0, i)
                        == #[trigger] (encoding_all(ts_pre) + encoding(t) + rest)) ==> arg_wf(t)
                    && sizes_ok(t) && can_send(
                    t,
                    mem.mem(),
                    arg_addrs@[ts_pre.len() as int] as nat,
                ),
        ensures
            k == ts.len(),
            parsed@.len() == k,
            tags_enc_valid(parsed@),
            encoding_all(parsed@) == arg_bytes@,
            out@ == base + sent_args_cat(parsed@, mem.mem(), arg_addrs@),
        decreases ts.len() - k,
    {
        let ghost rem0 = it.remaining();
        match it.next() {
            None => {
                proof {
                    if k < ts.len() {
                        let tl = ts.skip(k as int);
                        assert(tl[0] == ts[k as int]);
                        lemma_tags_enc_valid_index(ts, k as int);
                        assert(tl.subrange(1, tl.len() as int) =~= ts.skip(k as int + 1));
                        assert(it.remaining() == encoding(ts[k as int]) + encoding_all(
                            ts.skip(k as int + 1),
                        ));
                        assert(false);
                    }
                    assert(k == ts.len());
                    assert(ts.skip(k as int) =~= Seq::<Tag>::empty());
                    assert(it.remaining().len() == 0);
                    assert(encoding_all(parsed@) == arg_bytes@) by {
                        assert(arg_bytes@.subrange(0, arg_bytes@.len() as int) =~= arg_bytes@);
                    }
                }
                break ;
            },
            Some(t) => {
                let ghost rem1 = it.remaining();
                proof {
                    if k == ts.len() {
                        assert(ts.skip(k as int) =~= Seq::<Tag>::empty());
                        assert(encoding_all(ts.skip(k as int)) == Seq::<u8>::empty());
                        lemma_encoding_head(t);
                        assert((encoding(t) + rem1).len() >= 1);
                        assert(false);
                    }
                    let tl = ts.skip(k as int);
                    assert(tl[0] == ts[k as int]);
                    assert(tl.subrange(1, tl.len() as int) =~= ts.skip(k as int + 1));
                    assert(encoding_all(tl) == encoding(tl[0]) + encoding_all(
                        ts.skip(k as int + 1),
                    ));
                    lemma_tags_enc_valid_index(ts, k as int);
                    assert(enc_valid(ts[k as int]));
                    lemma_enc_len_det(
                        t,
                        ts[k as int],
                        rem1,
                        encoding_all(ts.skip(k as int + 1)),
                    );
                    assert(rem1 == encoding_all(ts.skip(k as int + 1)));
                    assert(tag_bytes@.subrange(0, sep) == encoding_all(parsed@) + encoding(t)
                        + rem1) by {
                        assert(arg_bytes@ =~= encoding_all(parsed@) + (encoding(t) + rem1));
                        assert(encoding_all(parsed@) + (encoding(t) + rem1) =~= encoding_all(
                            parsed@,
                        ) + encoding(t) + rem1);
                    }
                    assert(arg_wf(t) && sizes_ok(t) && can_send(
                        t,
                        mem.mem(),
                        arg_addrs@[k as int] as nat,
                    ));
                    lemma_can_send_bound(t, mem.mem(), arg_addrs@[k as int] as nat);
                }
                let addr = arg_addrs[k];
                let mut cur = addr;
                let ghost opre = out@;
                let r = send_value(out, &t, mem, &mut cur);
                match r {
                    Err(_) => {
                        proof {
                            assert(false);
                        }
                        return vstd::pervasive::unreached();
                    },
                    Ok(()) => {
                    },
                }
                proof {
                    lemma_enc_all_snoc(parsed@, t);
                    lemma_tags_enc_valid_snoc(parsed@, t);
                    let p2 = parsed@.push(t);
                    assert(p2.drop_last() =~= parsed@);
                    assert(p2.last() == t);
                    assert(sent_args_cat(p2, mem.mem(), arg_addrs@) == sent_args_cat(
                        parsed@,
                        mem.mem(),
                        arg_addrs@,
                    ) + sent_at(t, mem.mem(), arg_addrs@[k as int] as nat));
                    assert(out@ =~= base + sent_args_cat(p2, mem.mem(), arg_addrs@));
                    parsed@ = p2;
                }
                k = k + 1;
                proof {
                    assert(arg_bytes@ =~= arg_bytes@.subrange(
                        0,
                        arg_bytes@.len() - it.remaining().len(),
                    ) + it.remaining());
                    assert(arg_bytes@.subrange(0, arg_bytes@.len() - it.remaining().len())
                        =~= encoding_all(parsed@));
                }
            },
        }
    }
    let ghost mid = sent_args_cat(parsed@, mem.mem(), arg_addrs@);
    out.push(0);
    let n_ret = ret_bytes.len();
    let ghost o_sent = out@;
    let mut i: usize = 0;
    while i < n_ret
        invariant
            i <= n_ret,
            n_ret == ret_bytes@.len(),
            out@ == o_sent + ret_bytes@.subrange(0, i as int),
        decreases n_ret - i,
    {
        out.push(*vstd::slice::slice_index_get(ret_bytes, i));
        proof {
            assert(out@ =~= o_sent + ret_bytes@.subrange(0, i as int + 1));
        }
        i = i + 1;
    }
    proof {
        assert(ret_bytes@ == tag_bytes@.subrange(sep + 1, tag_bytes@.len() as int));
        assert(ret_bytes@.subrange(0, n_ret as int) =~= ret_bytes@);
        assert(out@ =~= old(out)@ + u32_be_bytes(service) + mid + seq![0u8] + tag_bytes@.subrange(
            sep + 1,
            tag_bytes@.len() as int,
        ));
        assert(old(out)@.is_prefix_of(out@)) by {
            assert(old(out)@ =~= out@.subrange(0, old(out)@.len() as int));
        }
    }
    Ok(())
}

/// The wire body of a flat value in bounds is exactly `wire_len` long.
pub proof fn lemma_flat_wire_len(t: Tag, mem: Seq<u8>, at: nat)
    requires
        tag_wf(t),
        is_flat(t),
        round_up_spec(at, tag_align(t)) + tag_size(t) <= mem.len(),
    ensures
        flat_wire_at(t, mem, at).len() == wire_len(t),
    decreases t, 0nat,
{
    lemma_wf_layout(t);
    let ac = round_up_spec(at, tag_align(t));
    match t {
        Tag::Tuple(ch) => {
            let mal = mal_upto(ch@, ch@.len() as int);
            lemma_round_up_props(at, mal);
            lemma_tags_flat_all(ch@);
            lemma_fields_end_off(ch@, 0, ac);
            lemma_round_up_ge(off_after(ch@, ch@.len() as int), mal);
            lemma_flat_fields_len(ch@, 0, mem, ac);
        },
        Tag::Range(c) => {
            let s = tag_size(*c);
            let a = tag_align(*c);
            lemma_wf_layout(*c);
            lemma_round_up_props(at, a);
            lemma_mod_add_zero(ac, s, a);
            lemma_mod_add_zero(ac + s, s, a);
            lemma_flat_wire_len(*c, mem, ac);
            lemma_flat_wire_len(*c, mem, ac + s);
            lemma_flat_wire_len(*c, mem, ac + 2 * s);
        },
        _ => {},
    }
}

/// `lemma_flat_wire_len` over a field suffix.
pub proof fn lemma_flat_fields_len(ts: Seq<Tag>, k: int, mem: Seq<u8>, cur: nat)
    requires
        tags_wf(ts),
        fields_flat(ts, k),
        0 <= k <= ts.len(),
        fields_end(ts, k, cur) <= mem.len(),
    ensures
        flat_fields_at(ts, k, mem, cur).len() == wire_len_fields(ts, k),
    decreases ts, 1nat, ts.len() - k,
{
    if k < ts.len() {
        lemma_tags_wf_index(ts, k);
        let a = tag_align(ts[k]);
        let nxt = round_up_spec(cur, a) + tag_size(ts[k]);
        lemma_round_up_ge(cur, a);
        lemma_fields_end_ge(ts, k + 1, nxt);
        lemma_flat_wire_len(ts[k], mem, cur);
        lemma_flat_fields_len(ts, k + 1, mem, nxt);
    }
}

/// Round trip, flat values: two memory images that decode to the same
/// wire body (they agree on every non-padding byte of the value) encode
/// to exactly the same tagged wire stream.
pub proof fn lemma_flat_round_trip(t: Tag, m1: Seq<u8>, m2: Seq<u8>, at: nat)
    requires
        tag_wf(t),
        is_flat(t),
        m1.len() == m2.len(),
        round_up_spec(at, tag_align(t)) + tag_size(t) <= m1.len(),
        flat_wire_at(t, m1, at) == flat_wire_at(t, m2, at),
    ensures
        flat_sent_at(t, m1, at) == flat_sent_at(t, m2, at),
    decreases t, 0nat,
{
    lemma_wf_layout(t);
    let ac = round_up_spec(at, tag_align(t));
    match t {
        Tag::Tuple(ch) => {
            let mal = mal_upto(ch@, ch@.len() as int);
            lemma_round_up_props(at, mal);
            lemma_tags_flat_all(ch@);
            lemma_fields_end_off(ch@, 0, ac);
            lemma_round_up_ge(off_after(ch@, ch@.len() as int), mal);
            lemma_flat_fields_round_trip(ch@, 0, m1, m2, ac);
        },
        Tag::Range(c) => {
            let s = tag_size(*c);
            let a = tag_align(*c);
            lemma_wf_layout(*c);
            lemma_round_up_props(at, a);
            lemma_mod_add_zero(ac, s, a);
            lemma_mod_add_zero(ac + s, s, a);
            lemma_flat_wire_len(*c, m1, ac);
            lemma_flat_wire_len(*c, m1, ac + s);
            lemma_flat_wire_len(*c, m2, ac);
            lemma_flat_wire_len(*c, m2, ac + s);
            assert(flat_wire_at(*c, m1, ac) + (flat_wire_at(*c, m1, ac + s) + flat_wire_at(
                *c,
                m1,
                ac + 2 * s,
            )) =~= flat_wire_at(t, m1, at));
            assert(flat_wire_at(*c, m2, ac) + (flat_wire_at(*c, m2, ac + s) + flat_wire_at(
                *c,
                m2,
                ac + 2 * s,
            )) =~= flat_wire_at(t, m2, at));
            lemma_concat_split(
                flat_wire_at(*c, m1, ac),
                flat_wire_at(*c, m1, ac + s) + flat_wire_at(*c, m1, ac + 2 * s),
                flat_wire_at(*c, m2, ac),
                flat_wire_at(*c, m2, ac + s) + flat_wire_at(*c, m2, ac + 2 * s),
            );
            lemma_concat_split(
                flat_wire_at(*c, m1, ac + s),
                flat_wire_at(*c, m1, ac + 2 * s),
                flat_wire_at(*c, m2, ac + s),
                flat_wire_at(*c, m2, ac + 2 * s),
            );
            lemma_flat_round_trip(*c, m1, m2, ac);
            lemma_flat_round_trip(*c, m1, m2, ac + s);
            lemma_flat_round_trip(*c, m1, m2, ac + 2 * s);
        },
        _ => {},
    }
}

/// `lemma_flat_round_trip` over a field suffix.
pub proof fn lemma_flat_fields_round_trip(ts: Seq<Tag>, k: int, m1: Seq<u8>, m2: Seq<u8>, cur: nat)
    requires
        tags_wf(ts),
        fields_flat(ts, k),
        0 <= k <= ts.len(),
        m1.len() == m2.len(),
        fields_end(ts, k, cur) <= m1.len(),
        flat_fields_at(ts, k, m1, cur) == flat_fields_at(ts, k, m2, cur),
    ensures
        flat_sent_fields(ts, k, m1, cur) == flat_sent_fields(ts, k, m2, cur),
    decreases ts, 1nat, ts.len() - k,
{
    if k < ts.len() {
        lemma_tags_wf_index(ts, k);
        let a = tag_align(ts[k]);
        let nxt = round_up_spec(cur, a) + tag_size(ts[k]);
        lemma_round_up_ge(cur, a);
        lemma_fields_end_ge(ts, k + 1, nxt);
        lemma_flat_wire_len(ts[k], m1, cur);
        lemma_flat_wire_len(ts[k], m2, cur);
        lemma_concat_split(
            flat_wire_at(ts[k], m1, cur),
            flat_fields_at(ts, k + 1, m1, nxt),
            flat_wire_at(ts[k], m2, cur),
            flat_fields_at(ts, k + 1, m2, nxt),
        );
        lemma_flat_round_trip(ts[k], m1, m2, cur);
        lemma_flat_fields_round_trip(ts, k + 1, m1, m2, nxt);
    }
}


/// Encodes a list: the tag byte, the 32-bit length echoed from the header,
/// then the elements read through the header's elements pointer.
#[verifier::spinoff_prover]
#[verifier::rlimit(100)]
fn send_list(out: &mut Vec<u8>, e: &Tag, mem: &Arena, cursor: &mut usize) -> (r: Result<
    (),
    RpcError,
>)
    requires
        tag_wf(*e),
        sizes_ok(*e),
        mem.wf(),
        *old(cursor) <= mem.mem().len(),
    ensures
        old(out)@.is_prefix_of(final(out)@),
        can_send_list(*e, mem.mem(), round_up_spec(*old(cursor) as nat, 4)) ==> r is Ok,
        r is Ok ==> *final(cursor) as nat == round_up_spec(*old(cursor) as nat, 4) + 8 && *final(cursor) <= mem.mem().len(),
        r is Ok ==> final(out)@ == old(out)@ + sent_list_at(
            *e,
            mem.mem(),
            round_up_spec(*old(cursor) as nat, 4),
        ),
    decreases *e, 2nat, 0nat,
{
    let ghost c0 = *cursor as nat;
    let mlen = mem.len();
    proof {
        lemma_round_up_props(c0, 4);
        lemma_wf_layout(*e);
    }
    proof {
        assert(sizes_ok(*e));
        lemma_round_up_props(c0, 4);
        lemma_wf_layout(*e);
    }
    let ac = round_up(*cursor, 4);
    if ac > mlen || mlen - ac < 8 {
        return Err(RpcError::UnexpectedEnd);
    }
    let p = mem.read_u32(ac) as usize;
    let len32 = mem.read_u32(ac + 4);
    let length = len32 as usize;
    let esize = e.size();
    let ealign = e.alignment();
    if p % ealign != 0 {
        return Err(RpcError::UnexpectedEnd);
    }
    if length != 0 && esize > 0xffff_fff0usize / length {
        proof {
            if can_send_list(*e, mem.mem(), round_up_spec(c0, 4)) {
                assert((length as nat) * tag_size(*e) <= 0xffff_fff0);
                assert(esize * length <= 0xffff_fff0) by (nonlinear_arith)
                    requires
                        (length as nat) * tag_size(*e) <= 0xffff_fff0,
                        esize as nat == tag_size(*e),
                ;
                assert(esize <= 0xffff_fff0usize / length) by (nonlinear_arith)
                    requires
                        esize * length <= 0xffff_fff0,
                        length != 0,
                ;
            }
        }
        return Err(RpcError::UnexpectedEnd);
    }
    proof {
        assert(esize * length <= 0xffff_fff0) by (nonlinear_arith)
            requires
                length == 0 || esize <= 0xffff_fff0usize / length,
        ;
        assert((length * tag_size(*e)) as nat == (esize * length) as nat)
            by (nonlinear_arith)
            requires
                esize as nat == tag_size(*e),
        ;
    }
    let need = esize * length;
    if p > mlen || mlen - p < need {
        return Err(RpcError::UnexpectedEnd);
    }
    out.push(TB_LIST);
    let ghost o1 = out@;
    proof {
        assert(old(out)@.is_prefix_of(o1)) by {
            assert(old(out)@ =~= o1.subrange(0, old(out)@.len() as int));
        }
    }
    emit_mem_range(out, mem, ac + 4, 4);
    let ghost o2 = out@;
    proof {
        lemma_prefix_trans(old(out)@, o1, o2);
    }
    let r = send_elements(out, e, length, p, mem);
    proof {
        lemma_prefix_trans(old(out)@, o2, out@);
    }
    match r {
        Err(e2) => {
            proof {
                if can_send_list(*e, mem.mem(), round_up_spec(c0, 4)) {
                    assert(false);
                }
            }
            Err(e2)
        },
        Ok(()) => {
            *cursor = ac + 8;
            proof {
                assert(final(out)@ =~= old(out)@ + sent_list_at(*e, mem.mem(), round_up_spec(c0, 4)));
            }
            Ok(())
        },
    }
}

/// Encodes an array: the tag byte and dimension count, the 32-bit
/// dimension lengths echoed from the header, then the elements read
/// through the backing pointer.
#[verifier::spinoff_prover]
#[verifier::rlimit(100)]
fn send_array(out: &mut Vec<u8>, e: &Tag, nd: u8, mem: &Arena, cursor: &mut usize) -> (r: Result<
    (),
    RpcError,
>)
    requires
        tag_wf(*e),
        sizes_ok(*e),
        mem.wf(),
        *old(cursor) <= mem.mem().len(),
    ensures
        old(out)@.is_prefix_of(final(out)@),
        can_send_array(*e, nd, mem.mem(), round_up_spec(*old(cursor) as nat, 4)) ==> r is Ok,
        r is Ok ==> *final(cursor) as nat == round_up_spec(*old(cursor) as nat, 4) + 4 * (1
            + nd as nat) && *final(cursor) <= mem.mem().len(),
        r is Ok ==> final(out)@ == old(out)@ + sent_array_at(
            *e,
            nd,
            mem.mem(),
            round_up_spec(*old(cursor) as nat, 4),
        ),
    decreases *e, 2nat, 0nat,
{
    let ghost c0 = *cursor as nat;
    let mlen = mem.len();
    proof {
        lemma_round_up_props(c0, 4);
        lemma_wf_layout(*e);
    }
    proof {
        assert(sizes_ok(*e));
        lemma_round_up_props(c0, 4);
        lemma_wf_layout(*e);
    }
    let num_dims = nd as usize;
    let ac = round_up(*cursor, 4);
    if ac > mlen || mlen - ac < 4 + 4 * num_dims {
        return Err(RpcError::UnexpectedEnd);
    }
    let p = mem.read_u32(ac) as usize;
    out.push(TB_ARRAY);
    out.push(nd);
    proof {
        assert(old(out)@.is_prefix_of(out@)) by {
            assert(old(out)@ =~= out@.subrange(0, old(out)@.len() as int));
        }
    }
    let mut total: usize = 1;
    let mut d: usize = 0;
    while d < num_dims
        invariant
            d <= num_dims,
            mem.wf(),
            ac + 4 + 4 * num_dims <= mem.mem().len(),
            ac as nat == round_up_spec(*old(cursor) as nat, 4),
            old(out)@.is_prefix_of(out@),
            out@ == old(out)@ + seq![TB_ARRAY, nd] + mem.mem().subrange(
                ac as int + 4,
                ac as int + 4 + 4 * (d as int),
            ),
            total <= 0xffff_fff0,
            total as nat * mem_dims_product(
                mem.mem(),
                ac as int + 4 + 4 * d,
                (num_dims - d) as nat,
            ) == mem_dims_product(mem.mem(), ac as int + 4, num_dims as nat),
            mem_dims_partials_ok(mem.mem(), ac as int + 4, num_dims as nat, 1)
                ==> mem_dims_partials_ok(
                mem.mem(),
                ac as int + 4 + 4 * d,
                (num_dims - d) as nat,
                total as nat,
            ),
            can_send_array(*e, nd, mem.mem(), round_up_spec(*old(cursor) as nat, 4)) ==> mem_dims_partials_ok(
                mem.mem(),
                ac as int + 4,
                num_dims as nat,
                1,
            ),
        decreases num_dims - d,
    {
        let dim32 = mem.read_u32(ac + 4 + 4 * d);
        let ghost opre = out@;
        emit_mem_range(out, mem, ac + 4 + 4 * d, 4);
        proof {
            lemma_prefix_trans(old(out)@, opre, out@);
            assert(out@ =~= old(out)@ + seq![TB_ARRAY, nd] + mem.mem().subrange(
                ac as int + 4,
                ac as int + 4 + 4 * (d as int) + 4,
            ));
        }
        let dim = dim32 as usize;
        if dim != 0 && total > 0xffff_fff0usize / dim {
            proof {
                if mem_dims_partials_ok(mem.mem(), ac as int + 4, num_dims as nat, 1) {
                    assert(mem_dims_partials_ok(
                        mem.mem(),
                        ac as int + 4 + 4 * d,
                        (num_dims - d) as nat,
                        total as nat,
                    ));
                    assert((total as nat) * (dim32 as nat) <= 0xffff_fff0);
                    assert(total <= 0xffff_fff0usize / dim) by (nonlinear_arith)
                        requires
                            (total as nat) * (dim as nat) <= 0xffff_fff0,
                            dim != 0,
                    ;
                    assert(false);
                }
            }
            return Err(RpcError::UnexpectedEnd);
        }
        proof {
            assert(total * dim <= 0xffff_fff0) by (nonlinear_arith)
                requires
                    dim == 0 || total <= 0xffff_fff0usize / dim,
                    total <= 0xffff_fff0,
            ;
            assert(mem_dims_product(
                mem.mem(),
                ac as int + 4 + 4 * d,
                (num_dims - d) as nat,
            ) == (dim32 as nat) * mem_dims_product(
                mem.mem(),
                ac as int + 4 + 4 * (d + 1),
                (num_dims - d - 1) as nat,
            ));
            assert((total * dim) as nat * mem_dims_product(
                mem.mem(),
                ac as int + 4 + 4 * (d + 1),
                (num_dims - d - 1) as nat,
            ) == mem_dims_product(mem.mem(), ac as int + 4, num_dims as nat))
                by (nonlinear_arith)
                requires
                    total as nat * mem_dims_product(
                        mem.mem(),
                        ac as int + 4 + 4 * d,
                        (num_dims - d) as nat,
                    ) == mem_dims_product(mem.mem(), ac as int + 4, num_dims as nat),
                    mem_dims_product(
                        mem.mem(),
                        ac as int + 4 + 4 * d,
                        (num_dims - d) as nat,
                    ) == (dim32 as nat) * mem_dims_product(
                        mem.mem(),
                        ac as int + 4 + 4 * (d + 1),
                        (num_dims - d - 1) as nat,
                    ),
                    dim == dim32 as usize,
            ;
        }
        total = total * dim;
        d = d + 1;
    }
    proof {
        assert(mem_dims_product(mem.mem(), ac as int + 4 + 4 * num_dims, 0) == 1);
        assert(total as nat * 1 == total as nat) by (nonlinear_arith);
        assert(total as nat == mem_dims_product(mem.mem(), ac as int + 4, num_dims as nat));
    }
    let esize = e.size();
    if p % e.alignment() != 0 {
        return Err(RpcError::UnexpectedEnd);
    }
    if total != 0 && esize > 0xffff_fff0usize / total {
        proof {
            if can_send_array(*e, nd, mem.mem(), round_up_spec(c0, 4)) {
                assert(total as nat * tag_size(*e) <= 0xffff_fff0);
                assert(esize * total <= 0xffff_fff0) by (nonlinear_arith)
                    requires
                        total as nat * tag_size(*e) <= 0xffff_fff0,
                        esize as nat == tag_size(*e),
                ;
                assert(esize <= 0xffff_fff0usize / total) by (nonlinear_arith)
                    requires
                        esize * total <= 0xffff_fff0,
                        total != 0,
                ;
            }
        }
        return Err(RpcError::UnexpectedEnd);
    }
    proof {
        assert(esize * total <= 0xffff_fff0) by (nonlinear_arith)
            requires
                total == 0 || esize <= 0xffff_fff0usize / total,
        ;
    }
    let need = esize * total;
    if p > mlen || mlen - p < need {
        proof {
            if can_send_array(*e, nd, mem.mem(), round_up_spec(c0, 4)) {
                assert(need as nat == (total as nat) * tag_size(*e)) by (nonlinear_arith)
                    requires
                        need == esize * total,
                        esize as nat == tag_size(*e),
                ;
                assert(false);
            }
        }
        return Err(RpcError::UnexpectedEnd);
    }
    proof {
        assert((total * tag_size(*e)) as nat == (esize * total) as nat)
            by (nonlinear_arith)
            requires
                esize as nat == tag_size(*e),
        ;
        assert(mem_dims_product(mem.mem(), ac as int + 4, num_dims as nat) == total as nat
            || !can_send_array(*e, nd, mem.mem(), round_up_spec(c0, 4)));
    }
    let r = send_elements(out, e, total, p, mem);
    match r {
        Err(e2) => {
            proof {
                if can_send_array(*e, nd, mem.mem(), round_up_spec(c0, 4)) {
                    assert(false);
                }
            }
            Err(e2)
        },
        Ok(()) => {
            *cursor = ac + 4 + 4 * num_dims;
            proof {
                assert(final(out)@ =~= old(out)@ + sent_array_at(*e, nd, mem.mem(), round_up_spec(c0, 4)));
            }
            Ok(())
        },
    }
}

} // verus!
