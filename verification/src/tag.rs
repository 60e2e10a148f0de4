//! The tag grammar: one byte per type constructor, composites inline.
//!
//! A tag denotes a type and fully determines the in-memory layout of a value
//! of that type on the modeled target: a 32-bit machine whose pointers are
//! 4 bytes, whose slice header (pointer + 32-bit length) is 8 bytes aligned
//! to its pointer-sized fields, and whose allocator returns 8-byte-aligned
//! memory.  `tag_size` gives the stride between consecutive values of the
//! type (tail padding included); `tag_align` gives the alignment.  For every
//! well-formed tag the alignment divides the size, so strides in lists and
//! arrays equal the element size exactly.

use vstd::prelude::*;

verus! {


/// The wire bytes of the tag grammar.
pub const TB_NONE: u8 = 110;
pub const TB_BOOL: u8 = 98;
pub const TB_INT32: u8 = 105;
pub const TB_INT64: u8 = 73;
pub const TB_FLOAT64: u8 = 102;
pub const TB_STRING: u8 = 115;
pub const TB_BYTES: u8 = 66;
pub const TB_BYTE_ARRAY: u8 = 65;
pub const TB_TUPLE: u8 = 116;
pub const TB_LIST: u8 = 108;
pub const TB_ARRAY: u8 = 97;
pub const TB_RANGE: u8 = 114;
pub const TB_KEYWORD: u8 = 107;
pub const TB_OBJECT: u8 = 79;

/// One type in the schema grammar.  Composite tags own their child tags.
#[derive(Debug, PartialEq)]
pub enum Tag {
    /// Wire byte `n`: the unit type, no bytes in memory.
    Unit,
    /// Wire byte `b`: one byte, 0 or 1.
    Bool,
    /// Wire byte `i`: signed 32-bit integer.
    Int32,
    /// Wire byte `I`: signed 64-bit integer.
    Int64,
    /// Wire byte `f`: IEEE-754 binary64, handled as 8 opaque bytes.
    Float64,
    /// Wire byte `s`: UTF-8 text behind a slice header.
    Str,
    /// Wire byte `B`: opaque bytes behind a slice header.
    Bytes,
    /// Wire byte `A`: mutable bytes behind a slice header.
    ByteArray,
    /// Wire byte `t`, then an arity byte, then that many child tags.
    Tuple(Vec<Tag>),
    /// Wire byte `l`, then the element tag.
    List(Box<Tag>),
    /// Wire byte `a`, then a dimension-count byte, then the element tag.
    Array(Box<Tag>, u8),
    /// Wire byte `r`, then the (scalar) element tag: (start, stop, step).
    Range(Box<Tag>),
    /// Wire byte `k`, then the value tag; only at the top of an argument list.
    Keyword(Box<Tag>),
    /// Wire byte `O`: a kernel object handle; only at the top of an argument list.
    Object,
}

/// The serialized form of a tag: its wire byte, then its children inline.
pub open spec fn encoding(t: Tag) -> Seq<u8>
    decreases t, 0nat,
{
    match t {
        Tag::Unit => seq![TB_NONE],
        Tag::Bool => seq![TB_BOOL],
        Tag::Int32 => seq![TB_INT32],
        Tag::Int64 => seq![TB_INT64],
        Tag::Float64 => seq![TB_FLOAT64],
        Tag::Str => seq![TB_STRING],
        Tag::Bytes => seq![TB_BYTES],
        Tag::ByteArray => seq![TB_BYTE_ARRAY],
        Tag::Tuple(ch) => seq![TB_TUPLE, ch.len() as u8] + encoding_all(ch@),
        Tag::List(c) => seq![TB_LIST] + encoding(*c),
        Tag::Array(c, nd) => seq![TB_ARRAY, nd] + encoding(*c),
        Tag::Range(c) => seq![TB_RANGE] + encoding(*c),
        Tag::Keyword(c) => seq![TB_KEYWORD] + encoding(*c),
        Tag::Object => seq![TB_OBJECT],
    }
}

/// The concatenated encodings of the tags of `ts`, in order.
pub open spec fn encoding_all(ts: Seq<Tag>) -> Seq<u8>
    decreases ts,
{
    if ts.len() == 0 {
        Seq::empty()
    } else {
        encoding(ts[0]) + encoding_all(ts.subrange(1, ts.len() as int))
    }
}

/// Whether `encoding` is faithful: every tuple's arity fits the arity byte.
pub open spec fn enc_valid(t: Tag) -> bool
    decreases t, 0nat,
{
    match t {
        Tag::Tuple(ch) => ch@.len() <= 255 && tags_enc_valid(ch@),
        Tag::List(c) => enc_valid(*c),
        Tag::Array(c, _) => enc_valid(*c),
        Tag::Range(c) => enc_valid(*c),
        Tag::Keyword(c) => enc_valid(*c),
        _ => true,
    }
}

/// `enc_valid` for every tag of `ts`.
pub open spec fn tags_enc_valid(ts: Seq<Tag>) -> bool
    decreases ts,
{
    ts.len() == 0 || (enc_valid(ts[0]) && tags_enc_valid(ts.subrange(1, ts.len() as int)))
}

/// The scalar types: the only valid element types of a `Range`.
pub open spec fn is_scalar(t: Tag) -> bool {
    t is Bool || t is Int32 || t is Int64 || t is Float64
}

/// A tag that may be sized and laid out in memory: no `Keyword` or `Object`
/// (those never nest inside composites), tuples are non-empty with an arity
/// that fits the arity byte, and ranges span scalars only.
pub open spec fn tag_wf(t: Tag) -> bool
    decreases t, 0nat,
{
    match t {
        Tag::Unit | Tag::Bool | Tag::Int32 | Tag::Int64 | Tag::Float64 => true,
        Tag::Str | Tag::Bytes | Tag::ByteArray => true,
        Tag::Tuple(ch) => 1 <= ch@.len() && ch@.len() <= 255 && tags_wf(ch@),
        Tag::List(c) => tag_wf(*c),
        Tag::Array(c, _) => tag_wf(*c),
        Tag::Range(c) => is_scalar(*c),
        Tag::Keyword(_) | Tag::Object => false,
    }
}

/// `tag_wf` for every tag of `ts`.
pub open spec fn tags_wf(ts: Seq<Tag>) -> bool
    decreases ts,
{
    ts.len() == 0 || (tag_wf(ts[0]) && tags_wf(ts.subrange(1, ts.len() as int)))
}

/// A tag whose values live entirely within the cursor window: no slice
/// headers, no allocated backing storage.
pub open spec fn is_flat(t: Tag) -> bool
    decreases t, 0nat,
{
    match t {
        Tag::Unit | Tag::Bool | Tag::Int32 | Tag::Int64 | Tag::Float64 => true,
        Tag::Tuple(ch) => tags_flat(ch@),
        Tag::Range(c) => is_flat(*c),
        _ => false,
    }
}

/// `is_flat` for every tag of `ts`.
pub open spec fn tags_flat(ts: Seq<Tag>) -> bool
    decreases ts,
{
    ts.len() == 0 || (is_flat(ts[0]) && tags_flat(ts.subrange(1, ts.len() as int)))
}

/// `val` rounded up to the next multiple of `align` (`align == 0` rounds not at all).
pub open spec fn round_up_spec(val: nat, align: nat) -> nat {
    if align == 0 || val % align == 0 {
        val
    } else {
        (val + align - val % align) as nat
    }
}

/// The alignments the layout produces: 1, 2, 4 or 8.
pub open spec fn align_ok(a: nat) -> bool {
    a == 1 || a == 2 || a == 4 || a == 8
}

/// The alignment of a value of type `t` on the modeled target.
pub open spec fn tag_align(t: Tag) -> nat
    decreases t, 0nat,
{
    match t {
        Tag::Unit => 1,
        Tag::Bool => 1,
        Tag::Int32 => 4,
        Tag::Int64 => 8,
        Tag::Float64 => 8,
        // Slice and array headers align to their pointer-sized fields.
        Tag::Str | Tag::Bytes | Tag::ByteArray | Tag::List(_) | Tag::Array(_, _) => 4,
        Tag::Tuple(ch) => mal_upto(ch@, ch@.len() as int),
        Tag::Range(c) => tag_align(*c),
        // Only at the top of an argument list: aligned like their
        // pointer-sized fields; excluded from composites by `tag_wf`.
        Tag::Keyword(_) | Tag::Object => 4,
    }
}

/// The largest alignment among the first `k` tags of `ts`, at least 1.
pub open spec fn mal_upto(ts: Seq<Tag>, k: int) -> nat
    decreases ts, k,
{
    if k <= 0 || k > ts.len() {
        1
    } else {
        let a = tag_align(ts[k - 1]);
        let m = mal_upto(ts, k - 1);
        if a > m {
            a
        } else {
            m
        }
    }
}

/// The size in bytes of a value of type `t`: the stride between consecutive
/// values in a list or array, tail padding included.
pub open spec fn tag_size(t: Tag) -> nat
    decreases t, 0nat,
{
    match t {
        Tag::Unit => 0,
        Tag::Bool => 1,
        Tag::Int32 => 4,
        Tag::Int64 => 8,
        Tag::Float64 => 8,
        // An 8-byte slice header: 4-byte pointer, 4-byte length.
        Tag::Str | Tag::Bytes | Tag::ByteArray | Tag::List(_) => 8,
        // A 4-byte pointer followed by one 4-byte length per dimension.
        Tag::Array(_, nd) => 4 * (1 + nd as nat),
        // Fields packed in order, the total rounded up to the tuple's alignment.
        Tag::Tuple(ch) => round_up_spec(
            off_after(ch@, ch@.len() as int),
            mal_upto(ch@, ch@.len() as int),
        ),
        Tag::Range(c) => 3 * tag_size(*c),
        // Never laid out in memory; excluded by `tag_wf`.
        Tag::Keyword(_) | Tag::Object => 0,
    }
}

/// The running offset just past field `k - 1` when the fields `ts[..k]` are
/// packed in order from offset 0: each field sits at the previous running
/// offset rounded up to its own alignment.
pub open spec fn off_after(ts: Seq<Tag>, k: int) -> nat
    decreases ts, k,
{
    if k <= 0 || k > ts.len() {
        0
    } else {
        round_up_spec(off_after(ts, k - 1), tag_align(ts[k - 1])) + tag_size(ts[k - 1])
    }
}

/// The offset of field `i` of a tuple with fields `ts`.
pub open spec fn field_offset(ts: Seq<Tag>, i: int) -> nat {
    round_up_spec(off_after(ts, i), tag_align(ts[i]))
}

/// Tuple packing: each field sits at the running size of the fields before
/// it rounded up to its own alignment, and the tuple's total size is the
/// final running size rounded up to the largest field alignment, so that
/// arrays of tuples have the correct stride.
pub proof fn lemma_tuple_packing(ch: Vec<Tag>, i: int)
    requires
        tag_wf(Tag::Tuple(ch)),
        0 <= i < ch@.len(),
    ensures
        off_after(ch@, i + 1) == field_offset(ch@, i) + tag_size(ch@[i]),
        field_offset(ch@, i) >= off_after(ch@, i),
        tag_size(Tag::Tuple(ch)) == round_up_spec(
            off_after(ch@, ch@.len() as int),
            mal_upto(ch@, ch@.len() as int),
        ),
        tag_align(Tag::Tuple(ch)) == mal_upto(ch@, ch@.len() as int),
        tag_size(Tag::Tuple(ch)) % tag_align(Tag::Tuple(ch)) == 0,
{
    lemma_round_up_ge(off_after(ch@, i), tag_align(ch@[i]));
    lemma_wf_layout(Tag::Tuple(ch));
}

/// Rounding up lands on a multiple of `align`, moves by less than `align`,
/// and leaves multiples of `align` in place.
pub proof fn lemma_round_up_props(val: nat, align: nat)
    requires
        align >= 1,
    ensures
        round_up_spec(val, align) % align == 0,
        val <= round_up_spec(val, align) < val + align,
{
    if val % align != 0 {
        let m = val % align;
        assert((val + align - m) as int % align as int == 0) by (nonlinear_arith)
            requires
                align >= 1,
                m == val % align,
                m != 0,
        ;
    }
}

/// Rounding never moves a value down.
pub proof fn lemma_round_up_ge(val: nat, align: nat)
    ensures
        round_up_spec(val, align) >= val,
{
}

/// Rounding past an aligned base leaves the base in place.
pub proof fn lemma_round_up_add_base(base: nat, val: nat, align: nat)
    requires
        align >= 1,
        base % align == 0,
    ensures
        round_up_spec(base + val, align) == base + round_up_spec(val, align),
{
    vstd::arithmetic::div_mod::lemma_fundamental_div_mod(base as int, align as int);
    let q = base as int / align as int;
    vstd::arithmetic::div_mod::lemma_mod_multiples_vanish(q, val as int, align as int);
    assert((base + val) % align == val % align);
}

/// Among the alignments the layout produces, the smaller divides the larger.
pub proof fn lemma_align_divides(a: nat, b: nat)
    requires
        align_ok(a),
        align_ok(b),
        a <= b,
    ensures
        b % a == 0,
{
    if a == 1 {
        assert(b % 1 == 0) by (nonlinear_arith);
    } else if a == 2 {
        assert(b == 2 || b == 4 || b == 8);
        assert(b % 2 == 0);
    } else if a == 4 {
        assert(b == 4 || b == 8);
        assert(b % 4 == 0);
    } else {
        assert(b % 8 == 0);
    }
}

/// A multiple of `b` is a multiple of every divisor of `b`.
pub proof fn lemma_aligned_multiple(x: nat, a: nat, b: nat)
    requires
        a >= 1,
        b >= 1,
        x % b == 0,
        b % a == 0,
    ensures
        x % a == 0,
{
    vstd::arithmetic::div_mod::lemma_fundamental_div_mod(x as int, b as int);
    vstd::arithmetic::div_mod::lemma_fundamental_div_mod(b as int, a as int);
    let q = x as int / b as int;
    let p = b as int / a as int;
    assert(x == (p * q) * (a as int)) by (nonlinear_arith)
        requires
            x == (b as int) * q,
            b == (a as int) * p,
    ;
    vstd::arithmetic::div_mod::lemma_mod_multiples_basic(p * q, a as int);
}

/// A multiple of `a` times anything is still a multiple of `a`.
pub proof fn lemma_mul_multiple(k: nat, s: nat, a: nat)
    requires
        a >= 1,
        s % a == 0,
    ensures
        (k * s) % a == 0,
{
    vstd::arithmetic::div_mod::lemma_fundamental_div_mod(s as int, a as int);
    let q = s as int / a as int;
    assert(k * s == (k * q) * (a as int)) by (nonlinear_arith)
        requires
            s == (a as int) * q,
    ;
    vstd::arithmetic::div_mod::lemma_mod_multiples_basic(k as int * q, a as int);
}

/// Every element of a well-formed sequence of tags is well-formed.
pub proof fn lemma_tags_wf_index(ts: Seq<Tag>, i: int)
    requires
        tags_wf(ts),
        0 <= i < ts.len(),
    ensures
        tag_wf(ts[i]),
    decreases i,
{
    if i > 0 {
        lemma_tags_wf_index(ts.subrange(1, ts.len() as int), i - 1);
    }
}

/// Every element of a flat sequence of tags is flat.
pub proof fn lemma_tags_flat_index(ts: Seq<Tag>, i: int)
    requires
        tags_flat(ts),
        0 <= i < ts.len(),
    ensures
        is_flat(ts[i]),
    decreases i,
{
    if i > 0 {
        lemma_tags_flat_index(ts.subrange(1, ts.len() as int), i - 1);
    }
}

/// Alignment is always at least 1.
pub proof fn lemma_align_pos(t: Tag)
    ensures
        tag_align(t) >= 1,
    decreases t, 0nat,
{
    match t {
        Tag::Tuple(ch) => {
            lemma_mal_pos(ch@, ch@.len() as int);
        },
        Tag::Range(c) => {
            lemma_align_pos(*c);
        },
        _ => {},
    }
}

/// The running maximum alignment is at least 1 and never decreases with `k`.
pub proof fn lemma_mal_pos(ts: Seq<Tag>, k: int)
    ensures
        mal_upto(ts, k) >= 1,
    decreases ts, k,
{
    if 0 < k <= ts.len() {
        lemma_mal_pos(ts, k - 1);
    }
}

/// The maximum alignment of the first `k` fields bounds each of their
/// alignments, and is itself one of the alignments the layout produces.
pub proof fn lemma_mal_props(ts: Seq<Tag>, k: int)
    requires
        tags_wf(ts),
        0 <= k <= ts.len(),
    ensures
        align_ok(mal_upto(ts, k)),
        forall|i: int| 0 <= i < k ==> tag_align(#[trigger] ts[i]) <= mal_upto(ts, k),
    decreases ts, k, 1nat,
{
    if k == 0 {
    } else {
        lemma_mal_props(ts, k - 1);
        lemma_tags_wf_index(ts, k - 1);
        lemma_wf_layout_ok(ts[k - 1]);
    }
}

/// The well-formed layout invariant: the alignment is 1, 2, 4 or 8 and
/// divides the size, so the stride of consecutive values equals the size.
pub open spec fn layout_ok(t: Tag) -> bool {
    align_ok(tag_align(t)) && tag_size(t) % tag_align(t) == 0
}

/// Every well-formed tag satisfies `layout_ok`.
pub proof fn lemma_wf_layout(t: Tag)
    requires
        tag_wf(t),
    ensures
        align_ok(tag_align(t)),
        tag_size(t) % tag_align(t) == 0,
        layout_ok(t),
    decreases t, 0nat, 0nat,
{
    lemma_wf_layout_ok(t);
}

/// Every well-formed tag satisfies `layout_ok`.
proof fn lemma_wf_layout_ok(t: Tag)
    requires
        tag_wf(t),
    ensures
        layout_ok(t),
    decreases t, 0nat, 0nat,
{
    match t {
        Tag::Tuple(ch) => {
            lemma_mal_props(ch@, ch@.len() as int);
            let off = off_after(ch@, ch@.len() as int);
            let mal = mal_upto(ch@, ch@.len() as int);
            lemma_round_up_props(off, mal);
            assert(tag_size(t) == round_up_spec(off, mal));
            assert(tag_align(t) == mal);
            assert(layout_ok(t));
        },
        Tag::Range(c) => {
            let s = tag_size(*c);
            let a = tag_align(*c);
            match *c {
                Tag::Bool => {
                    assert(s == 1 && a == 1);
                },
                Tag::Int32 => {
                    assert(s == 4 && a == 4);
                },
                Tag::Int64 | Tag::Float64 => {
                    assert(s == 8 && a == 8);
                },
                _ => {
                    assert(false);
                },
            }
            lemma_mul_multiple(3, s, a);
            assert(3 * s == tag_size(t));
        },
        Tag::Array(_, nd) => {
            assert(4 * (1 + nd as nat) % 4 == 0) by (nonlinear_arith);
            assert(layout_ok(t));
        },
        Tag::Unit => {
            assert(layout_ok(t));
        },
        Tag::Bool => {
            assert(tag_size(t) == 1);
            assert(tag_align(t) == 1);
            assert(1nat % 1nat == 0);
            assert(layout_ok(t));
        },
        Tag::Int32 => {
            assert(tag_size(t) == 4);
            assert(tag_align(t) == 4);
            assert(4nat % 4nat == 0);
            assert(layout_ok(t));
        },
        Tag::Int64 => {
            assert(tag_size(t) == 8);
            assert(tag_align(t) == 8);
            assert(8nat % 8nat == 0);
            assert(layout_ok(t));
        },
        Tag::Float64 => {
            assert(tag_size(t) == 8);
            assert(tag_align(t) == 8);
            assert(8nat % 8nat == 0);
            assert(layout_ok(t));
        },
        Tag::Str => {
            assert(tag_size(t) == 8);
            assert(tag_align(t) == 4);
            assert(8nat % 4nat == 0);
            assert(layout_ok(t));
        },
        Tag::Bytes => {
            assert(tag_size(t) == 8);
            assert(tag_align(t) == 4);
            assert(8nat % 4nat == 0);
            assert(layout_ok(t));
        },
        Tag::ByteArray => {
            assert(tag_size(t) == 8);
            assert(tag_align(t) == 4);
            assert(8nat % 4nat == 0);
            assert(layout_ok(t));
        },
        Tag::List(c) => {
            assert(tag_size(t) == 8);
            assert(tag_align(t) == 4);
            assert(8nat % 4nat == 0);
            assert(layout_ok(t));
        },
        Tag::Keyword(_) | Tag::Object => {
            assert(false);
        },
    }
}

/// Packing offsets only grow as fields are added.
pub proof fn lemma_off_after_mono(ts: Seq<Tag>, j: int, k: int)
    requires
        0 <= j <= k <= ts.len(),
    ensures
        off_after(ts, j) <= off_after(ts, k),
    decreases k,
{
    if j < k {
        lemma_off_after_mono(ts, j, k - 1);
        lemma_round_up_ge(off_after(ts, k - 1), tag_align(ts[k - 1]));
    }
}

impl Tag {
    /// The alignment in bytes of a value of this type.
    pub fn alignment(&self) -> (r: usize)
        requires
            tag_wf(*self),
        ensures
            r as nat == tag_align(*self),
            align_ok(r as nat),
        decreases *self, 0nat,
    {
        proof {
            lemma_wf_layout(*self);
        }
        match self {
            Tag::Unit | Tag::Bool => 1,
            Tag::Int32 => 4,
            Tag::Int64 | Tag::Float64 => 8,
            Tag::Str | Tag::Bytes | Tag::ByteArray | Tag::List(_) | Tag::Array(_, _) => 4,
            Tag::Tuple(ch) => max_align_fields(ch, 0, 1),
            Tag::Range(c) => c.alignment(),
            Tag::Keyword(_) | Tag::Object => vstd::pervasive::unreached(),
        }
    }

    /// The size in bytes of a value of this type: the stride between
    /// consecutive values of the type, tail padding included.
    pub fn size(&self) -> (r: usize)
        requires
            tag_wf(*self),
            tag_size(*self) <= usize::MAX,
        ensures
            r as nat == tag_size(*self),
        decreases *self, 0nat,
    {
        match self {
            Tag::Unit => 0,
            Tag::Bool => 1,
            Tag::Int32 => 4,
            Tag::Int64 | Tag::Float64 => 8,
            Tag::Str | Tag::Bytes | Tag::ByteArray | Tag::List(_) => 8,
            Tag::Array(_, nd) => 4 * (1 + *nd as usize),
            Tag::Tuple(ch) => {
                proof {
                    lemma_round_up_ge(
                        off_after(ch@, ch@.len() as int),
                        mal_upto(ch@, ch@.len() as int),
                    );
                }
                let off = fields_off(ch, 0, 0);
                let a = max_align_fields(ch, 0, 1);
                round_up(off, a)
            },
            Tag::Range(c) => {
                let s = c.size();
                s * 3
            },
            Tag::Keyword(_) | Tag::Object => vstd::pervasive::unreached(),
        }
    }

    /// The canonical wire byte of this tag: the first byte of its encoding.
    pub fn as_u8(&self) -> (r: u8)
        ensures
            r == encoding(*self)[0],
    {
        match self {
            Tag::Unit => TB_NONE,
            Tag::Bool => TB_BOOL,
            Tag::Int32 => TB_INT32,
            Tag::Int64 => TB_INT64,
            Tag::Float64 => TB_FLOAT64,
            Tag::Str => TB_STRING,
            Tag::Bytes => TB_BYTES,
            Tag::ByteArray => TB_BYTE_ARRAY,
            Tag::Tuple(_) => TB_TUPLE,
            Tag::List(_) => TB_LIST,
            Tag::Array(_, _) => TB_ARRAY,
            Tag::Range(_) => TB_RANGE,
            Tag::Keyword(_) => TB_KEYWORD,
            Tag::Object => TB_OBJECT,
        }
    }
}

/// The running maximum alignment over the fields of `ch`, continued from
/// field `k` with maximum-so-far `acc`.
fn max_align_fields(ch: &Vec<Tag>, k: usize, acc: usize) -> (r: usize)
    requires
        tags_wf(ch@),
        k <= ch@.len(),
        acc as nat == mal_upto(ch@, k as int),
        acc >= 1,
    ensures
        r as nat == mal_upto(ch@, ch@.len() as int),
        r >= 1,
    decreases ch@, ch@.len() - k,
{
    if k == ch.len() {
        acc
    } else {
        proof {
            lemma_tags_wf_index(ch@, k as int);
        }
        let a = ch[k].alignment();
        let nacc = if a > acc {
            a
        } else {
            acc
        };
        max_align_fields(ch, k + 1, nacc)
    }
}

/// The running packing offset over the fields of `ch`, continued from field
/// `k` with offset-so-far `acc`.
fn fields_off(ch: &Vec<Tag>, k: usize, acc: usize) -> (r: usize)
    requires
        tags_wf(ch@),
        k <= ch@.len(),
        acc as nat == off_after(ch@, k as int),
        off_after(ch@, ch@.len() as int) <= usize::MAX,
    ensures
        r as nat == off_after(ch@, ch@.len() as int),
    decreases ch@, ch@.len() - k,
{
    if k == ch.len() {
        acc
    } else {
        proof {
            lemma_tags_wf_index(ch@, k as int);
            lemma_align_pos(ch@[k as int]);
            lemma_off_after_mono(ch@, k as int + 1, ch@.len() as int);
            lemma_round_up_ge(acc as nat, tag_align(ch@[k as int]));
        }
        let a = ch[k].alignment();
        let ru = round_up(acc, a);
        let s = ch[k].size();
        fields_off(ch, k + 1, ru + s)
    }
}

/// Splitting two concatenations whose first parts have equal length.
pub proof fn lemma_concat_split(a: Seq<u8>, b: Seq<u8>, c: Seq<u8>, d: Seq<u8>)
    requires
        a + b == c + d,
        a.len() == c.len(),
    ensures
        a == c,
        b == d,
{
    assert forall|i: int| 0 <= i < a.len() implies a[i] == c[i] by {
        assert((a + b)[i] == a[i]);
        assert((c + d)[i] == c[i]);
    }
    assert(a =~= c);
    assert((a + b).len() == a.len() + b.len());
    assert((c + d).len() == c.len() + d.len());
    assert(b.len() == d.len());
    assert forall|i: int| 0 <= i < b.len() implies b[i] == d[i] by {
        assert((a + b)[a.len() + i] == b[i]);
        assert((c + d)[c.len() + i] == d[i]);
    }
    assert(b =~= d);
}

/// Every encoding is non-empty, starts with the tag's wire byte, and the
/// wire byte determines the constructor.
pub proof fn lemma_encoding_head(t: Tag)
    ensures
        encoding(t).len() >= 1,
        encoding(t)[0] == TB_NONE ==> t is Unit,
        encoding(t)[0] == TB_BOOL ==> t is Bool,
        encoding(t)[0] == TB_INT32 ==> t is Int32,
        encoding(t)[0] == TB_INT64 ==> t is Int64,
        encoding(t)[0] == TB_FLOAT64 ==> t is Float64,
        encoding(t)[0] == TB_STRING ==> t is Str,
        encoding(t)[0] == TB_BYTES ==> t is Bytes,
        encoding(t)[0] == TB_BYTE_ARRAY ==> t is ByteArray,
        encoding(t)[0] == TB_TUPLE ==> t is Tuple,
        encoding(t)[0] == TB_LIST ==> t is List,
        encoding(t)[0] == TB_ARRAY ==> t is Array,
        encoding(t)[0] == TB_RANGE ==> t is Range,
        encoding(t)[0] == TB_KEYWORD ==> t is Keyword,
        encoding(t)[0] == TB_OBJECT ==> t is Object,
        encoding(t)[0] == TB_NONE || encoding(t)[0] == TB_BOOL || encoding(t)[0] == TB_INT32
            || encoding(t)[0] == TB_INT64 || encoding(t)[0] == TB_FLOAT64
            || encoding(t)[0] == TB_STRING || encoding(t)[0] == TB_BYTES
            || encoding(t)[0] == TB_BYTE_ARRAY || encoding(t)[0] == TB_TUPLE
            || encoding(t)[0] == TB_LIST || encoding(t)[0] == TB_ARRAY
            || encoding(t)[0] == TB_RANGE || encoding(t)[0] == TB_KEYWORD
            || encoding(t)[0] == TB_OBJECT,
{
    match t {
        Tag::Unit => {
            assert(encoding(t)[0] == TB_NONE);
        },
        Tag::Bool => {
            assert(encoding(t)[0] == TB_BOOL);
        },
        Tag::Int32 => {
            assert(encoding(t)[0] == TB_INT32);
        },
        Tag::Int64 => {
            assert(encoding(t)[0] == TB_INT64);
        },
        Tag::Float64 => {
            assert(encoding(t)[0] == TB_FLOAT64);
        },
        Tag::Str => {
            assert(encoding(t)[0] == TB_STRING);
        },
        Tag::Bytes => {
            assert(encoding(t)[0] == TB_BYTES);
        },
        Tag::ByteArray => {
            assert(encoding(t)[0] == TB_BYTE_ARRAY);
        },
        Tag::Tuple(ch) => {
            assert(encoding(t)[0] == TB_TUPLE);
        },
        Tag::List(c) => {
            assert(encoding(t)[0] == TB_LIST);
        },
        Tag::Array(c, nd) => {
            assert(encoding(t)[0] == TB_ARRAY);
        },
        Tag::Range(c) => {
            assert(encoding(t)[0] == TB_RANGE);
        },
        Tag::Keyword(c) => {
            assert(encoding(t)[0] == TB_KEYWORD);
        },
        Tag::Object => {
            assert(encoding(t)[0] == TB_OBJECT);
        },
    }
}

/// Two faithful encodings that prefix the same stream have the same length
/// (and so are the same bytes): the grammar is prefix-determined.
pub proof fn lemma_enc_len_det(t1: Tag, t2: Tag, r1: Seq<u8>, r2: Seq<u8>)
    requires
        enc_valid(t1),
        enc_valid(t2),
        encoding(t1) + r1 == encoding(t2) + r2,
    ensures
        encoding(t1).len() == encoding(t2).len(),
        encoding(t1) == encoding(t2),
        r1 == r2,
    decreases t1, 0nat,
{
    lemma_encoding_head(t1);
    lemma_encoding_head(t2);
    let s = encoding(t1) + r1;
    assert(encoding(t1)[0] == s[0]);
    assert(encoding(t2)[0] == s[0]);
    match t1 {
        Tag::List(c1) => {
            match t2 {
                Tag::List(c2) => {
                    assert(encoding(t1) == seq![TB_LIST] + encoding(*c1));
                    assert(encoding(t2) == seq![TB_LIST] + encoding(*c2));
                    assert(encoding(*c1) + r1 =~= s.subrange(1, s.len() as int));
                    assert(encoding(*c2) + r2 =~= s.subrange(1, s.len() as int));
                    lemma_enc_len_det(*c1, *c2, r1, r2);
                },
                _ => {
                    assert(false);
                },
            }
        },
        Tag::Range(c1) => {
            match t2 {
                Tag::Range(c2) => {
                    assert(encoding(*c1) + r1 =~= s.subrange(1, s.len() as int));
                    assert(encoding(*c2) + r2 =~= s.subrange(1, s.len() as int));
                    lemma_enc_len_det(*c1, *c2, r1, r2);
                },
                _ => {
                    assert(false);
                },
            }
        },
        Tag::Keyword(c1) => {
            match t2 {
                Tag::Keyword(c2) => {
                    assert(encoding(*c1) + r1 =~= s.subrange(1, s.len() as int));
                    assert(encoding(*c2) + r2 =~= s.subrange(1, s.len() as int));
                    lemma_enc_len_det(*c1, *c2, r1, r2);
                },
                _ => {
                    assert(false);
                },
            }
        },
        Tag::Array(c1, nd1) => {
            match t2 {
                Tag::Array(c2, nd2) => {
                    assert(encoding(t1)[1] == nd1 && encoding(t2)[1] == nd2);
                    assert(encoding(t1)[1] == s[1] && encoding(t2)[1] == s[1]);
                    assert(encoding(*c1) + r1 =~= s.subrange(2, s.len() as int));
                    assert(encoding(*c2) + r2 =~= s.subrange(2, s.len() as int));
                    lemma_enc_len_det(*c1, *c2, r1, r2);
                },
                _ => {
                    assert(false);
                },
            }
        },
        Tag::Tuple(ch1) => {
            match t2 {
                Tag::Tuple(ch2) => {
                    assert(encoding(t1)[1] == ch1.len() as u8 && encoding(t2)[1] == ch2.len() as u8);
                    assert(encoding(t1)[1] == s[1] && encoding(t2)[1] == s[1]);
                    assert(ch1@.len() == ch2@.len());
                    assert(encoding_all(ch1@) + r1 =~= s.subrange(2, s.len() as int));
                    assert(encoding_all(ch2@) + r2 =~= s.subrange(2, s.len() as int));
                    lemma_enc_all_len_det(ch1@, ch2@, r1, r2);
                },
                _ => {
                    assert(false);
                },
            }
        },
        _ => {
            // Single-byte encodings: both heads equal the stream's first byte.
            assert(encoding(t1).len() == 1 && encoding(t2).len() == 1);
            lemma_concat_split(encoding(t1), r1, encoding(t2), r2);
        },
    }
    lemma_concat_split(encoding(t1), r1, encoding(t2), r2);
}

/// `lemma_enc_len_det` lifted to equally long sequences of tags.
pub proof fn lemma_enc_all_len_det(ts1: Seq<Tag>, ts2: Seq<Tag>, r1: Seq<u8>, r2: Seq<u8>)
    requires
        tags_enc_valid(ts1),
        tags_enc_valid(ts2),
        ts1.len() == ts2.len(),
        encoding_all(ts1) + r1 == encoding_all(ts2) + r2,
    ensures
        encoding_all(ts1).len() == encoding_all(ts2).len(),
        encoding_all(ts1) == encoding_all(ts2),
        r1 == r2,
    decreases ts1, 1nat,
{
    if ts1.len() == 0 {
        assert(encoding_all(ts1) == Seq::<u8>::empty());
        assert(encoding_all(ts2) == Seq::<u8>::empty());
    } else {
        let tl1 = ts1.subrange(1, ts1.len() as int);
        let tl2 = ts2.subrange(1, ts2.len() as int);
        assert(encoding_all(ts1) == encoding(ts1[0]) + encoding_all(tl1));
        assert(encoding_all(ts2) == encoding(ts2[0]) + encoding_all(tl2));
        let s = encoding_all(ts1) + r1;
        assert(encoding(ts1[0]) + (encoding_all(tl1) + r1) =~= s);
        assert(encoding(ts2[0]) + (encoding_all(tl2) + r2) =~= s);
        lemma_enc_len_det(ts1[0], ts2[0], encoding_all(tl1) + r1, encoding_all(tl2) + r2);
        lemma_enc_all_len_det(tl1, tl2, r1, r2);
    }
    lemma_concat_split(encoding_all(ts1), r1, encoding_all(ts2), r2);
}

/// `val` rounded up to the next multiple of `align`.
pub fn round_up(val: usize, align: usize) -> (r: usize)
    requires
        align >= 1,
        round_up_spec(val as nat, align as nat) <= usize::MAX,
    ensures
        r == round_up_spec(val as nat, align as nat),
{
    let rem = val % align;
    if rem == 0 {
        val
    } else {
        val + (align - rem)
    }
}


/// Dropping `k` then `m` more is dropping `k + m`.
pub proof fn lemma_skip_skip(s: Seq<u8>, p: int, k: int)
    requires
        0 <= p,
        0 <= k,
        p + k <= s.len(),
    ensures
        s.skip(p).skip(k) == s.skip(p + k),
{
    assert(s.skip(p).skip(k) =~= s.skip(p + k));
}

/// Dropping a concatenation's first part leaves its second.
pub proof fn lemma_drop_prefix(a: Seq<u8>, x: Seq<u8>)
    ensures
        (a + x).skip(a.len() as int) == x,
{
    assert((a + x).skip(a.len() as int) =~= x);
}

/// Parses one tag from `data` at `pos`: on success the returned position
/// delimits exactly the returned tag's encoding.  `None` means that no
/// faithful encoding starts there: end of input, an unknown byte, or a
/// truncated composite.
fn parse_tag(data: &Vec<u8>, pos: usize) -> (r: Option<(Tag, usize)>)
    requires
        pos <= data@.len(),
    ensures
        r matches Some(tp) ==> pos < tp.1 <= data@.len() && enc_valid(tp.0)
            && data@.subrange(pos as int, tp.1 as int) == encoding(tp.0)
            && data@.skip(pos as int) == encoding(tp.0) + data@.skip(tp.1 as int),
        r is None ==> (forall|t: Tag, rest: Seq<u8>|
            enc_valid(t) ==> data@.skip(pos as int) != #[trigger] (encoding(t) + rest)),
    decreases data@.len() - pos, 0nat,
{
    let ghost rem = data@.skip(pos as int);
    if pos == data.len() {
        proof {
            assert forall|t: Tag, rest: Seq<u8>| enc_valid(t) implies rem != #[trigger] (encoding(
                t,
            ) + rest) by {
                lemma_encoding_head(t);
                assert((encoding(t) + rest).len() >= 1);
                assert(rem.len() == 0);
            }
        }
        return None;
    }
    let b = data[pos];
    proof {
        assert(rem[0] == data@[pos as int]);
    }
    if b == TB_NONE || b == TB_BOOL || b == TB_INT32 || b == TB_INT64 || b == TB_FLOAT64
        || b == TB_STRING || b == TB_BYTES || b == TB_BYTE_ARRAY || b == TB_OBJECT {
        let t = if b == TB_NONE {
            Tag::Unit
        } else if b == TB_BOOL {
            Tag::Bool
        } else if b == TB_INT32 {
            Tag::Int32
        } else if b == TB_INT64 {
            Tag::Int64
        } else if b == TB_FLOAT64 {
            Tag::Float64
        } else if b == TB_STRING {
            Tag::Str
        } else if b == TB_BYTES {
            Tag::Bytes
        } else if b == TB_BYTE_ARRAY {
            Tag::ByteArray
        } else {
            Tag::Object
        };
        proof {
            assert(encoding(t) == seq![b]);
            assert(data@.subrange(pos as int, pos as int + 1) =~= seq![b]);
            assert(data@.skip(pos as int) =~= seq![b] + data@.skip(pos as int + 1));
        }
        return Some((t, pos + 1));
    }
    if b == TB_LIST || b == TB_RANGE || b == TB_KEYWORD {
        match parse_tag(data, pos + 1) {
            Some((c, p2)) => {
                let ghost ce = encoding(c);
                let t = if b == TB_LIST {
                    Tag::List(Box::new(c))
                } else if b == TB_RANGE {
                    Tag::Range(Box::new(c))
                } else {
                    Tag::Keyword(Box::new(c))
                };
                proof {
                    assert(encoding(t) == seq![b] + ce);
                    assert(data@.subrange(pos as int, p2 as int) =~= seq![b] + data@.subrange(
                        pos as int + 1,
                        p2 as int,
                    ));
                    assert(data@.skip(pos as int) =~= data@.subrange(pos as int, p2 as int)
                        + data@.skip(p2 as int));
                }
                Some((t, p2))
            },
            None => {
                proof {
                    assert forall|t: Tag, rest: Seq<u8>| enc_valid(t) implies rem != #[trigger] (
                    encoding(t) + rest) by {
                        lemma_encoding_head(t);
                        if rem == encoding(t) + rest {
                            assert(encoding(t)[0] == rem[0]);
                            match t {
                                Tag::List(c2) => {
                                    assert(rem =~= seq![TB_LIST] + (encoding(*c2) + rest));
                                    lemma_drop_prefix(seq![TB_LIST], encoding(*c2) + rest);
                                    lemma_skip_skip(data@, pos as int, 1);
                                    assert(data@.skip(pos as int + 1) == encoding(*c2) + rest);
                                },
                                Tag::Range(c2) => {
                                    assert(rem =~= seq![TB_RANGE] + (encoding(*c2) + rest));
                                    lemma_drop_prefix(seq![TB_RANGE], encoding(*c2) + rest);
                                    lemma_skip_skip(data@, pos as int, 1);
                                    assert(data@.skip(pos as int + 1) == encoding(*c2) + rest);
                                },
                                Tag::Keyword(c2) => {
                                    assert(rem =~= seq![TB_KEYWORD] + (encoding(*c2) + rest));
                                    lemma_drop_prefix(seq![TB_KEYWORD], encoding(*c2) + rest);
                                    lemma_skip_skip(data@, pos as int, 1);
                                    assert(data@.skip(pos as int + 1) == encoding(*c2) + rest);
                                },
                                _ => {},
                            }
                            assert(false);
                        }
                    }
                }
                None
            },
        }
    } else if b == TB_TUPLE || b == TB_ARRAY {
        if pos + 1 == data.len() {
            proof {
                assert forall|t: Tag, rest: Seq<u8>| enc_valid(t) implies rem != #[trigger] (
                encoding(t) + rest) by {
                    lemma_encoding_head(t);
                    if rem == encoding(t) + rest {
                        assert(encoding(t)[0] == rem[0]);
                        match t {
                            Tag::Tuple(ch2) => {
                                assert(encoding(t) == seq![TB_TUPLE, ch2.len() as u8]
                                    + encoding_all(ch2@));
                                assert((encoding(t) + rest).len() >= 2);
                                assert(rem.len() == 1);
                            },
                            Tag::Array(c2, nd2) => {
                                assert(encoding(t) == seq![TB_ARRAY, nd2] + encoding(*c2));
                                assert((encoding(t) + rest).len() >= 2);
                                assert(rem.len() == 1);
                            },
                            _ => {},
                        }
                        assert(false);
                    }
                }
            }
            return None;
        }
        let n = data[pos + 1];
        proof {
            assert(rem[1] == data@[pos as int + 1]);
        }
        if b == TB_TUPLE {
            match parse_tags_n(data, pos + 2, n as usize) {
                Some((ch, p2)) => {
                    let ghost chs = ch@;
                    let t = Tag::Tuple(ch);
                    proof {
                        assert(chs.len() == n as nat);
                        assert(chs.len() as u8 == n);
                        assert(encoding(t) == seq![TB_TUPLE, n] + encoding_all(chs));
                        assert(data@.subrange(pos as int, p2 as int) =~= seq![TB_TUPLE, n]
                            + data@.subrange(pos as int + 2, p2 as int));
                        assert(data@.skip(pos as int) =~= data@.subrange(pos as int, p2 as int)
                            + data@.skip(p2 as int));
                    }
                    Some((t, p2))
                },
                None => {
                    proof {
                        assert forall|t: Tag, rest: Seq<u8>| enc_valid(t) implies rem != #[trigger] (
                        encoding(t) + rest) by {
                            lemma_encoding_head(t);
                            if rem == encoding(t) + rest {
                                assert(encoding(t)[0] == rem[0]);
                                match t {
                                    Tag::Tuple(ch2) => {
                                        assert(rem =~= seq![TB_TUPLE, ch2.len() as u8]
                                            + (encoding_all(ch2@) + rest));
                                        assert(rem[1] == ch2.len() as u8);
                                        assert(ch2@.len() <= 255);
                                        assert(ch2@.len() == n as nat);
                                        lemma_drop_prefix(
                                            seq![TB_TUPLE, ch2.len() as u8],
                                            encoding_all(ch2@) + rest,
                                        );
                                        lemma_skip_skip(data@, pos as int, 2);
                                        assert(data@.skip(pos as int + 2) == encoding_all(ch2@)
                                            + rest);
                                    },
                                    _ => {},
                                }
                                assert(false);
                            }
                        }
                    }
                    None
                },
            }
        } else {
            match parse_tag(data, pos + 2) {
                Some((c, p2)) => {
                    let ghost ce = encoding(c);
                    let t = Tag::Array(Box::new(c), n);
                    proof {
                        assert(encoding(t) == seq![TB_ARRAY, n] + ce);
                        assert(data@.subrange(pos as int, p2 as int) =~= seq![TB_ARRAY, n]
                            + data@.subrange(pos as int + 2, p2 as int));
                        assert(data@.skip(pos as int) =~= data@.subrange(pos as int, p2 as int)
                            + data@.skip(p2 as int));
                    }
                    Some((t, p2))
                },
                None => {
                    proof {
                        assert forall|t: Tag, rest: Seq<u8>| enc_valid(t) implies rem != #[trigger] (
                        encoding(t) + rest) by {
                            lemma_encoding_head(t);
                            if rem == encoding(t) + rest {
                                assert(encoding(t)[0] == rem[0]);
                                match t {
                                    Tag::Array(c2, nd2) => {
                                        assert(rem =~= seq![TB_ARRAY, nd2] + (encoding(*c2)
                                            + rest));
                                        lemma_drop_prefix(seq![TB_ARRAY, nd2], encoding(*c2)
                                            + rest);
                                        lemma_skip_skip(data@, pos as int, 2);
                                        assert(data@.skip(pos as int + 2) == encoding(*c2)
                                            + rest);
                                    },
                                    _ => {},
                                }
                                assert(false);
                            }
                        }
                    }
                    None
                },
            }
        }
    } else {
        proof {
            assert forall|t: Tag, rest: Seq<u8>| enc_valid(t) implies rem != #[trigger] (encoding(
                t,
            ) + rest) by {
                lemma_encoding_head(t);
                if rem == encoding(t) + rest {
                    assert(encoding(t)[0] == rem[0]);
                    assert(false);
                }
            }
        }
        None
    }
}

/// Parses exactly `n` consecutive tags from `data` at `pos`.
fn parse_tags_n(data: &Vec<u8>, pos: usize, n: usize) -> (r: Option<(Vec<Tag>, usize)>)
    requires
        pos <= data@.len(),
    ensures
        r matches Some(tp) ==> pos <= tp.1 <= data@.len() && tp.0@.len() == n && tags_enc_valid(
            tp.0@,
        ) && data@.subrange(pos as int, tp.1 as int) == encoding_all(tp.0@)
            && data@.skip(pos as int) == encoding_all(tp.0@) + data@.skip(tp.1 as int),
        r is None ==> (forall|ts: Seq<Tag>, rest: Seq<u8>|
            ts.len() == n && tags_enc_valid(ts) ==> data@.skip(pos as int) != #[trigger] (
            encoding_all(ts) + rest)),
    decreases data@.len() - pos, n as nat + 1,
{
    let ghost rem = data@.skip(pos as int);
    if n == 0 {
        let v: Vec<Tag> = Vec::new();
        proof {
            assert(encoding_all(v@) == Seq::<u8>::empty());
            assert(data@.subrange(pos as int, pos as int) =~= encoding_all(v@));
            assert(rem =~= encoding_all(v@) + rem);
        }
        return Some((v, pos));
    }
    match parse_tag(data, pos) {
        None => {
            proof {
                assert forall|ts: Seq<Tag>, rest: Seq<u8>|
                    ts.len() == n && tags_enc_valid(ts) implies rem != #[trigger] (encoding_all(ts)
                    + rest) by {
                    if rem == encoding_all(ts) + rest {
                        let tl = ts.subrange(1, ts.len() as int);
                        assert(encoding_all(ts) == encoding(ts[0]) + encoding_all(tl));
                        assert(enc_valid(ts[0]));
                        assert(rem =~= encoding(ts[0]) + (encoding_all(tl) + rest));
                        assert(false);
                    }
                }
            }
            None
        },
        Some((t, p1)) => {
            let ghost te = encoding(t);
            match parse_tags_n(data, p1, n - 1) {
                None => {
                    proof {
                        assert forall|ts: Seq<Tag>, rest: Seq<u8>|
                            ts.len() == n && tags_enc_valid(ts) implies rem != #[trigger] (
                        encoding_all(ts) + rest) by {
                            if rem == encoding_all(ts) + rest {
                                let tl = ts.subrange(1, ts.len() as int);
                                assert(encoding_all(ts) == encoding(ts[0]) + encoding_all(tl));
                                assert(enc_valid(ts[0]));
                                assert(rem =~= encoding(ts[0]) + (encoding_all(tl) + rest));
                                lemma_enc_len_det(
                                    t,
                                    ts[0],
                                    data@.skip(p1 as int),
                                    encoding_all(tl) + rest,
                                );
                                assert(data@.skip(p1 as int) == encoding_all(tl) + rest);
                                assert(tl.len() == n - 1 && tags_enc_valid(tl));
                                assert(false);
                            }
                        }
                    }
                    None
                },
                Some((rest_v, p2)) => {
                    let ghost rs = rest_v.view();
                    let mut v = rest_v;
                    v.insert(0, t);
                    proof {
                        assert(v@ =~= seq![t] + rs);
                        assert(v@[0] == t);
                        assert(v@.subrange(1, v@.len() as int) =~= rs);
                        assert(encoding_all(v@) == te + encoding_all(rs));
                        assert(data@.subrange(pos as int, p2 as int) =~= data@.subrange(
                            pos as int,
                            p1 as int,
                        ) + data@.subrange(p1 as int, p2 as int));
                        assert(data@.subrange(pos as int, p2 as int) == encoding_all(v@));
                        assert(rem =~= encoding_all(v@) + data@.skip(p2 as int));
                    }
                    Some((v, p2))
                },
            }
        },
    }
}

/// A cursor over a tag byte string, yielding one parsed tag per `next` call.
#[derive(Debug, Clone)]
pub struct TagIterator {
    data: Vec<u8>,
    pos: usize,
}

impl TagIterator {
    /// The cursor never points past the end of the tag bytes.
    pub closed spec fn wf(&self) -> bool {
        self.pos <= self.data@.len()
    }

    /// The tag bytes not yet consumed.
    pub closed spec fn remaining(&self) -> Seq<u8> {
        self.data@.skip(self.pos as int)
    }

    /// The number of tag bytes not yet consumed.  After `next` returns
    /// `None`, a non-zero count means the stream is malformed (an unknown
    /// tag byte or a truncated composite), a structural failure the caller
    /// must treat as fatal; zero means the tags are simply exhausted.
    pub fn remaining_len(&self) -> (r: usize)
        requires
            self.wf(),
        ensures
            r == self.remaining().len(),
    {
        self.data.len() - self.pos
    }

    /// A fresh iterator over the whole tag byte string.
    pub fn new(data: &[u8]) -> (r: TagIterator)
        ensures
            r.wf(),
            r.remaining() == data@,
    {
        let v = vstd::slice::slice_to_vec(data);
        proof {
            assert(v@.skip(0) =~= v@);
        }
        TagIterator { data: v, pos: 0 }
    }

    /// Consumes and returns the next tag.  Exactly the returned tag's
    /// encoding is consumed, so the sub-tags of a composite span exactly
    /// the byte range that describes its children.  `None` with bytes still
    /// remaining means that no faithful tag encoding starts there.
    pub fn next(&mut self) -> (r: Option<Tag>)
        requires
            old(self).wf(),
        ensures
            final(self).wf(),
            r matches Some(t) ==> enc_valid(t) && old(self).remaining() == encoding(t)
                + final(self).remaining(),
            r is None ==> final(self).remaining() == old(self).remaining() && (forall|
                t: Tag,
                rest: Seq<u8>,
            |
                enc_valid(t) ==> old(self).remaining() != #[trigger] (encoding(t) + rest)),
    {
        match parse_tag(&self.data, self.pos) {
            Some((t, p2)) => {
                self.pos = p2;
                Some(t)
            },
            None => None,
        }
    }
}

/// The byte separating argument tags from the return tag in a signature.
pub const TAG_SEPARATOR: u8 = 58;

/// Splits a full signature `arg_tags ":" return_tag` at the first separator:
/// the argument tag bytes (separator-free) and the return tag bytes.
pub fn split_tag(tag_bytes: &[u8]) -> (r: (&[u8], &[u8]))
    requires
        exists|i: int| 0 <= i < tag_bytes@.len() && tag_bytes@[i] == TAG_SEPARATOR,
    ensures
        r.0@.len() < tag_bytes@.len(),
        r.0@ == tag_bytes@.subrange(0, r.0@.len() as int),
        tag_bytes@[r.0@.len() as int] == TAG_SEPARATOR,
        forall|j: int| 0 <= j < r.0@.len() ==> tag_bytes@[j] != TAG_SEPARATOR,
        r.1@ == tag_bytes@.subrange(r.0@.len() as int + 1, tag_bytes@.len() as int),
{
    let n: usize = tag_bytes.len();
    let mut i: usize = 0;
    while i < n
        invariant
            i <= n,
            n == tag_bytes@.len(),
            forall|j: int| 0 <= j < i ==> tag_bytes@[j] != TAG_SEPARATOR,
            exists|k: int| 0 <= k < tag_bytes@.len() && tag_bytes@[k] == TAG_SEPARATOR,
        decreases n - i,
    {
        if *vstd::slice::slice_index_get(tag_bytes, i) == TAG_SEPARATOR {
            let args = vstd::slice::slice_subrange(tag_bytes, 0, i);
            let ret = vstd::slice::slice_subrange(tag_bytes, i + 1, n);
            return (args, ret);
        }
        i = i + 1;
    }
    proof {
        let k = choose|k: int| 0 <= k < tag_bytes@.len() && tag_bytes@[k] == TAG_SEPARATOR;
        assert(tag_bytes@[k] != TAG_SEPARATOR);
        assert(false);
    }
    vstd::pervasive::unreached()
}

} // verus!
