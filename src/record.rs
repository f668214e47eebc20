//! The binary record format of points and layer nodes.
//!
//! A record is a sequence of tagged fields. Each field starts with a key byte,
//! `(field number << 3) | wire type`; integers are base-128 varints, least significant
//! group first; a distance or a vector component is four little-endian bytes. A field
//! whose value is zero (or false, or empty) is left out. The layouts:
//!
//! - Point: 1 = varint idx; 2 = length-delimited packed components.
//! - LayerNode: 1 = varint level; 2 = varint idx; 3 = varint visible flag;
//!   4 = one length-delimited entry per neighbor { 1 = varint index; 2 = four-byte distance }.
//!
//! Decoding accepts exactly the encodings: anything else, trailing bytes included, is
//! refused.
use vstd::prelude::*;
use vstd::bytes::{spec_u32_to_le_bytes, u32_to_le_bytes, u32_from_le_bytes};
use crate::order::{Entry, distinct_ids, has_id};
use crate::node::{LayerNode, Point};
use crate::errors::DeserializeError;

verus! {

/// Key bytes of the fields.
pub const KEY_FIELD1_VARINT: u8 = 0x08;
pub const KEY_FIELD2_VARINT: u8 = 0x10;
pub const KEY_FIELD3_VARINT: u8 = 0x18;
pub const KEY_FIELD2_PACKED: u8 = 0x12;
pub const KEY_FIELD2_FIXED32: u8 = 0x15;
pub const KEY_FIELD4_MESSAGE: u8 = 0x22;

/// The varint of `v`: seven bits per byte, high bit set on all bytes but the last.
pub open spec fn varint(v: nat) -> Seq<u8>
    decreases v,
{
    if v < 128 {
        seq![v as u8]
    } else {
        seq![(v % 128 + 128) as u8] + varint(v / 128)
    }
}

/// A varint field with key byte `key`, left out when `v` is zero.
pub open spec fn opt_field(key: u8, v: u32) -> Seq<u8> {
    if v == 0 {
        Seq::empty()
    } else {
        seq![key] + varint(v as nat)
    }
}

/// The visible flag's field, left out when false.
pub open spec fn flag_field(visible: bool) -> Seq<u8> {
    if visible {
        seq![KEY_FIELD3_VARINT, 1u8]
    } else {
        Seq::empty()
    }
}

/// The distance field of a neighbor entry, left out when its bits are zero.
pub open spec fn distance_field(d: u32) -> Seq<u8> {
    if d == 0 {
        Seq::empty()
    } else {
        seq![KEY_FIELD2_FIXED32] + spec_u32_to_le_bytes(d)
    }
}

/// The contents of one neighbor entry.
pub open spec fn entry_body(e: Entry) -> Seq<u8> {
    opt_field(KEY_FIELD1_VARINT, e.0) + distance_field(e.1)
}

/// One neighbor entry as a length-delimited field.
pub open spec fn enc_entry(e: Entry) -> Seq<u8> {
    seq![KEY_FIELD4_MESSAGE] + varint(entry_body(e).len()) + entry_body(e)
}

/// The neighbor entries, in order.
pub open spec fn enc_entries(s: Seq<Entry>) -> Seq<u8>
    decreases s.len(),
{
    if s.len() == 0 {
        Seq::empty()
    } else {
        enc_entries(s.drop_last()) + enc_entry(s.last())
    }
}

/// The fields of a layer node before its entries.
pub open spec fn node_header(level: u32, idx: u32, visible: bool) -> Seq<u8> {
    opt_field(KEY_FIELD1_VARINT, level) + opt_field(KEY_FIELD2_VARINT, idx) + flag_field(visible)
}

/// The encoding of a layer node.
pub open spec fn enc_node(n: LayerNode) -> Seq<u8> {
    node_header(n.level, n.idx, n.visible) + enc_entries(n.neighbors@)
}

/// Components as consecutive four-byte little-endian words.
pub open spec fn le_words(s: Seq<u32>) -> Seq<u8>
    decreases s.len(),
{
    if s.len() == 0 {
        Seq::empty()
    } else {
        le_words(s.drop_last()) + spec_u32_to_le_bytes(s.last())
    }
}

/// The packed components field, left out when there are none.
pub open spec fn packed_field(v: Seq<u32>) -> Seq<u8> {
    if v.len() == 0 {
        Seq::empty()
    } else {
        seq![KEY_FIELD2_PACKED] + varint(4 * v.len()) + le_words(v)
    }
}

/// The encoding of a point.
pub open spec fn enc_point(p: Point) -> Seq<u8> {
    opt_field(KEY_FIELD1_VARINT, p.idx) + packed_field(p.v@)
}

/// Two nodes hold the same values.
pub open spec fn same_node(a: LayerNode, b: LayerNode) -> bool {
    a.level == b.level && a.idx == b.idx && a.visible == b.visible && a.neighbors@ == b.neighbors@
}

/// Two points hold the same values.
pub open spec fn same_point(a: Point, b: Point) -> bool {
    a.idx == b.idx && a.v@ == b.v@
}

/// Appends the varint of `v`.
fn write_varint(out: &mut Vec<u8>, v: u64)
    ensures
        final(out)@ == old(out)@ + varint(v as nat),
{
    let mut w: u64 = v;
    while w >= 128
        invariant
            old(out)@ + varint(v as nat) == out@ + varint(w as nat),
        decreases w,
    {
        let ghost pre = out@;
        out.push((w % 128 + 128) as u8);
        proof {
            assert(varint(w as nat) == seq![(w % 128 + 128) as u8] + varint((w / 128) as nat));
            assert(pre + varint(w as nat) =~= out@ + varint((w / 128) as nat));
        }
        w = w / 128;
    }
    let ghost pre = out@;
    out.push(w as u8);
    proof {
        assert(pre + varint(w as nat) =~= out@);
    }
}

/// Appends all bytes of `src`.
fn append_bytes(out: &mut Vec<u8>, src: &Vec<u8>)
    ensures
        final(out)@ == old(out)@ + src@,
{
    let mut i: usize = 0;
    while i < src.len()
        invariant
            i <= src@.len(),
            out@ == old(out)@ + src@.subrange(0, i as int),
        decreases src@.len() - i,
    {
        out.push(src[i]);
        proof {
            assert(out@ =~= old(out)@ + src@.subrange(0, i as int + 1));
        }
        i = i + 1;
    }
    proof {
        assert(src@.subrange(0, i as int) =~= src@);
    }
}

/// Appends a varint field, left out when `v` is zero.
fn write_opt_field(out: &mut Vec<u8>, key: u8, v: u32)
    ensures
        final(out)@ == old(out)@ + opt_field(key, v),
{
    if v != 0 {
        out.push(key);
        let ghost mid = out@;
        write_varint(out, v as u64);
        proof {
            assert(out@ =~= old(out)@ + opt_field(key, v));
        }
    } else {
        assert(out@ =~= old(out)@ + opt_field(key, v));
    }
}

/// Appends four little-endian bytes.
fn write_word(out: &mut Vec<u8>, x: u32)
    ensures
        final(out)@ == old(out)@ + spec_u32_to_le_bytes(x),
{
    let w = u32_to_le_bytes(x);
    append_bytes(out, &w);
}

/// Appends one neighbor entry.
fn write_entry(out: &mut Vec<u8>, e: Entry)
    ensures
        final(out)@ == old(out)@ + enc_entry(e),
{
    let mut body: Vec<u8> = Vec::new();
    write_opt_field(&mut body, KEY_FIELD1_VARINT, e.0);
    if e.1 != 0 {
        body.push(KEY_FIELD2_FIXED32);
        write_word(&mut body, e.1);
    }
    assert(body@ =~= entry_body(e));
    out.push(KEY_FIELD4_MESSAGE);
    write_varint(out, body.len() as u64);
    append_bytes(out, &body);
    assert(out@ =~= old(out)@ + enc_entry(e));
}

proof fn lemma_varint_len(v: nat)
    ensures
        varint(v).len() >= 1,
    decreases v,
{
    if v >= 128 {
        lemma_varint_len(v / 128);
    }
}

/// The record bytes of a layer node.
pub fn encode_node(n: &LayerNode) -> (r: Vec<u8>)
    ensures
        r@ == enc_node(*n),
{
    let mut out: Vec<u8> = Vec::new();
    write_opt_field(&mut out, KEY_FIELD1_VARINT, n.level);
    write_opt_field(&mut out, KEY_FIELD2_VARINT, n.idx);
    if n.visible {
        out.push(KEY_FIELD3_VARINT);
        out.push(1u8);
    }
    let ghost header = node_header(n.level, n.idx, n.visible);
    assert(out@ =~= header);
    let mut i: usize = 0;
    while i < n.neighbors.len()
        invariant
            i <= n.neighbors@.len(),
            out@ == header + enc_entries(n.neighbors@.subrange(0, i as int)),
        decreases n.neighbors@.len() - i,
    {
        write_entry(&mut out, n.neighbors[i]);
        proof {
            let s = n.neighbors@.subrange(0, i as int + 1);
            assert(s.drop_last() =~= n.neighbors@.subrange(0, i as int));
            assert(out@ =~= header + enc_entries(s));
        }
        i = i + 1;
    }
    proof {
        assert(n.neighbors@.subrange(0, i as int) =~= n.neighbors@);
    }
    out
}

/// The record bytes of a point. The components' byte length must fit in 64 bits.
pub fn encode_point(p: &Point) -> (r: Vec<u8>)
    requires
        4 * p.v@.len() <= u64::MAX,
    ensures
        r@ == enc_point(*p),
{
    let mut out: Vec<u8> = Vec::new();
    write_opt_field(&mut out, KEY_FIELD1_VARINT, p.idx);
    let ghost head = out@;
    if p.v.len() > 0 {
        out.push(KEY_FIELD2_PACKED);
        write_varint(&mut out, 4 * (p.v.len() as u64));
        let ghost start = out@;
        let mut i: usize = 0;
        while i < p.v.len()
            invariant
                i <= p.v@.len(),
                out@ == start + le_words(p.v@.subrange(0, i as int)),
            decreases p.v@.len() - i,
        {
            write_word(&mut out, p.v[i]);
            proof {
                let s = p.v@.subrange(0, i as int + 1);
                assert(s.drop_last() =~= p.v@.subrange(0, i as int));
                assert(out@ =~= start + le_words(s));
            }
            i = i + 1;
        }
        proof {
            assert(p.v@.subrange(0, i as int) =~= p.v@);
            assert(out@ =~= head + packed_field(p.v@));
        }
    } else {
        assert(out@ =~= head + packed_field(p.v@));
    }
    out
}

proof fn lemma_varint_first(v: nat)
    ensures
        varint(v).len() >= 1,
        v < 128 <==> varint(v)[0] < 128,
{
    lemma_varint_len(v);
}

proof fn lemma_split(b: Seq<u8>, a: int, c: int, x: Seq<u8>, y: Seq<u8>)
    requires
        0 <= a <= c <= b.len(),
        b.subrange(a, c) == x + y,
    ensures
        b.subrange(a, a + x.len()) == x,
        b.subrange(a + x.len(), c) == y,
        a + x.len() <= c,
{
    assert(b.subrange(a, a + x.len()) =~= (x + y).subrange(0, x.len() as int));
    assert(b.subrange(a + x.len(), c) =~= (x + y).subrange(x.len() as int, (x + y).len() as int));
}

proof fn lemma_join(b: Seq<u8>, a: int, m: int, c: int)
    requires
        0 <= a <= m <= c <= b.len(),
    ensures
        b.subrange(a, c) == b.subrange(a, m) + b.subrange(m, c),
{
    assert(b.subrange(a, c) =~= b.subrange(a, m) + b.subrange(m, c));
}

/// Reads a varint of value at most `limit` from `b[pos..stop)`.
fn read_varint(b: &Vec<u8>, pos: usize, stop: usize, limit: u64) -> (r: Option<(u64, usize)>)
    requires
        pos <= stop <= b@.len(),
    ensures
        r matches Some((v, end)) ==> v <= limit && pos < end <= stop && b@.subrange(pos as int, end as int)
            == varint(v as nat),
        forall|v: nat, end: int|
            #![trigger b@.subrange(pos as int, end), varint(v)]
            v <= limit && pos <= end <= stop && b@.subrange(pos as int, end) == varint(v) ==> r == Some(
                (v as u64, end as usize),
            ),
    decreases stop - pos,
{
    if pos >= stop {
        proof {
            assert forall|v: nat, end: int|
                #![trigger b@.subrange(pos as int, end), varint(v)]
                v <= limit && pos <= end <= stop && b@.subrange(pos as int, end) == varint(v) implies false by {
                lemma_varint_first(v);
            }
        }
        return None;
    }
    let byte = b[pos];
    if byte < 128 {
        proof {
            assert forall|v: nat, end: int|
                #![trigger b@.subrange(pos as int, end), varint(v)]
                v <= limit && pos <= end <= stop && b@.subrange(pos as int, end) == varint(v) implies (byte as u64
                    <= limit && v == byte as nat && end == pos + 1) by {
                lemma_varint_first(v);
                assert(b@.subrange(pos as int, end)[0] == byte);
                if v >= 128 {
                    assert(varint(v)[0] >= 128);
                }
            }
        }
        if (byte as u64) <= limit {
            assert(b@.subrange(pos as int, pos + 1) =~= varint(byte as nat));
            return Some((byte as u64, pos + 1));
        } else {
            return None;
        }
    }
    proof {
        assert forall|v: nat, end: int|
            #![trigger b@.subrange(pos as int, end), varint(v)]
            v <= limit && pos <= end <= stop && b@.subrange(pos as int, end) == varint(v) implies (v >= 128 && byte
                == (v % 128 + 128) as u8 && pos + 1 <= end && b@.subrange(pos + 1, end) == varint(v / 128)) by {
            lemma_varint_first(v);
            assert(b@.subrange(pos as int, end)[0] == byte);
            if v < 128 {
                assert(varint(v)[0] < 128);
            }
            lemma_split(b@, pos as int, end, seq![(v % 128 + 128) as u8], varint(v / 128));
        }
    }
    if limit < 128 {
        return None;
    }
    let low: u64 = (byte - 128) as u64;
    let sub_limit: u64 = (limit - low) / 128;
    let rec = read_varint(b, pos + 1, stop, sub_limit);
    proof {
        assert forall|v: nat, end: int|
            #![trigger b@.subrange(pos as int, end), varint(v)]
            v <= limit && pos <= end <= stop && b@.subrange(pos as int, end) == varint(v) implies rec == Some(
                ((v / 128) as u64, end as usize),
            ) && v % 128 == low by {
            assert(v / 128 <= sub_limit) by (nonlinear_arith)
                requires
                    v <= limit,
                    sub_limit == (limit - v % 128) / 128,
                    v % 128 < 128,
            ;
            assert(v >= 128 && byte == (v % 128 + 128) as u8 && pos + 1 <= end && b@.subrange(pos + 1, end) == varint(v / 128));
            assert(v % 128 == low);
            let mark1: usize = (pos + 1) as usize;
            assert(mark1 <= end);
            assert(b@.subrange(mark1 as int, end) == varint(v / 128));
            assert(rec == Some(((v / 128) as u64, end as usize)));
        }
    }
    match rec {
        None => None,
        Some((w, end)) => {
            if w == 0 {
                proof {
                    assert forall|v: nat, end2: int|
                        #![trigger b@.subrange(pos as int, end2), varint(v)]
                        v <= limit && pos <= end2 <= stop && b@.subrange(pos as int, end2) == varint(v) implies false by {
                        assert(v / 128 >= 1);
                    }
                }
                None
            } else {
                assert(low + 128 * w <= limit) by (nonlinear_arith)
                    requires
                        w <= sub_limit,
                        sub_limit == (limit - low) / 128,
                        low <= limit,
                ;
                let v: u64 = low + 128 * w;
                proof {
                    assert(v as nat % 128 == low as nat);
                    assert(v as nat / 128 == w as nat);
                    assert(varint(v as nat) == seq![(v % 128 + 128) as u8] + varint(w as nat));
                    lemma_join(b@, pos as int, pos + 1, end as int);
                    assert(b@.subrange(pos as int, pos + 1) =~= seq![(v % 128 + 128) as u8]);
                }
                Some((v, end))
            }
        },
    }
}

/// Reads a varint field with key byte `key` from `b[pos..stop)`, or takes it as left
/// out (zero) when the next byte is not `key`.
fn read_opt_field(b: &Vec<u8>, pos: usize, stop: usize, key: u8) -> (r: Option<(u32, usize)>)
    requires
        pos <= stop <= b@.len(),
    ensures
        r matches Some((v, end)) ==> pos <= end <= stop && b@.subrange(pos as int, end as int) == opt_field(key, v),
        forall|v: u32, end: int|
            #![trigger b@.subrange(pos as int, end), opt_field(key, v)]
            pos <= end <= stop && b@.subrange(pos as int, end) == opt_field(key, v) && (v != 0 || end == stop
                || b@[end] != key) ==> r == Some((v, end as usize)),
{
    if pos < stop && b[pos] == key {
        let rv = read_varint(b, pos + 1, stop, 0xffff_ffffu64);
        proof {
            assert forall|v: u32, end: int|
                #![trigger b@.subrange(pos as int, end), opt_field(key, v)]
                pos <= end <= stop && b@.subrange(pos as int, end) == opt_field(key, v) && (v != 0 || end == stop
                    || b@[end] != key) implies rv == Some((v as u64, end as usize)) && v != 0 by {
                if v == 0 {
                    assert(b@.subrange(pos as int, end).len() == 0);
                    assert(end == pos);
                } else {
                    lemma_split(b@, pos as int, end, seq![key], varint(v as nat));
                    let mark1: usize = (pos + 1) as usize;
                    assert(b@.subrange(mark1 as int, end) == varint(v as nat));
                }
            }
        }
        match rv {
            None => None,
            Some((v, end)) => {
                if v == 0 {
                    None
                } else {
                    proof {
                        lemma_join(b@, pos as int, pos + 1, end as int);
                        assert(b@.subrange(pos as int, pos + 1) =~= seq![key]);
                    }
                    Some((v as u32, end))
                }
            },
        }
    } else {
        proof {
            assert(b@.subrange(pos as int, pos as int) =~= opt_field(key, 0));
            assert forall|v: u32, end: int|
                #![trigger b@.subrange(pos as int, end), opt_field(key, v)]
                pos <= end <= stop && b@.subrange(pos as int, end) == opt_field(key, v) && (v != 0 || end == stop
                    || b@[end] != key) implies v == 0 && end == pos by {
                if v != 0 {
                    assert(b@.subrange(pos as int, end)[0] == key);
                } else {
                    assert(b@.subrange(pos as int, end).len() == 0);
                }
            }
        }
        Some((0, pos))
    }
}

/// Reads one neighbor entry from `b[pos..stop)`.
#[verifier::rlimit(60)]
fn read_entry(b: &Vec<u8>, pos: usize, stop: usize) -> (r: Option<(Entry, usize)>)
    requires
        pos <= stop <= b@.len(),
    ensures
        r matches Some((e, end)) ==> pos < end <= stop && b@.subrange(pos as int, end as int) == enc_entry(e),
        forall|e: Entry, end: int|
            #![trigger b@.subrange(pos as int, end), enc_entry(e)]
            pos <= end <= stop && b@.subrange(pos as int, end) == enc_entry(e) ==> r == Some((e, end as usize)),
{
    proof {
        assert forall|e: Entry, end: int|
            #![trigger b@.subrange(pos as int, end), enc_entry(e)]
            pos <= end <= stop && b@.subrange(pos as int, end) == enc_entry(e) implies pos < stop && b@[pos as int]
                == KEY_FIELD4_MESSAGE by {
            assert(enc_entry(e)[0] == KEY_FIELD4_MESSAGE);
            assert(b@.subrange(pos as int, end).len() >= 1);
            assert(b@.subrange(pos as int, end)[0] == KEY_FIELD4_MESSAGE);
        }
    }
    if pos >= stop || b[pos] != KEY_FIELD4_MESSAGE {
        return None;
    }
    let mark0 = pos + 1;
    let rl = read_varint(b, mark0, stop, (stop - mark0) as u64);
    proof {
        assert forall|e: Entry, end: int|
            #![trigger b@.subrange(pos as int, end), enc_entry(e)]
            pos <= end <= stop && b@.subrange(pos as int, end) == enc_entry(e) implies ({
                let body = entry_body(e);
                let mark1 = end - body.len();
                &&& rl == Some((body.len() as u64, mark1 as usize))
                &&& mark0 <= mark1 <= end
                &&& b@.subrange(mark1, end) == body
            }) by {
            let body = entry_body(e);
            lemma_split(b@, pos as int, end, seq![KEY_FIELD4_MESSAGE] + varint(body.len()), body);
            lemma_split(b@, pos as int, end - body.len(), seq![KEY_FIELD4_MESSAGE], varint(body.len()));
            assert(b@.subrange(mark0 as int, end - body.len()) == varint(body.len()));
        }
    }
    let (len, mark1) = match rl {
        None => { return None; },
        Some(x) => x,
    };
    if len as usize > stop - mark1 {
        return None;
    }
    let body_end: usize = mark1 + len as usize;
    let rk = read_opt_field(b, mark1, body_end, KEY_FIELD1_VARINT);
    proof {
        assert forall|e: Entry, end: int|
            #![trigger b@.subrange(pos as int, end), enc_entry(e)]
            pos <= end <= stop && b@.subrange(pos as int, end) == enc_entry(e) implies ({
                let q1 = mark1 + opt_field(KEY_FIELD1_VARINT, e.0).len();
                &&& end == body_end
                &&& rk == Some((e.0, q1 as usize))
                &&& b@.subrange(q1, end) == distance_field(e.1)
            }) by {
            let of = opt_field(KEY_FIELD1_VARINT, e.0);
            let df = distance_field(e.1);
            lemma_split(b@, mark1 as int, end, of, df);
            if e.0 == 0 && mark1 + of.len() != end {
                assert(b@.subrange(mark1 + of.len(), end)[0] == KEY_FIELD2_FIXED32);
            }
        }
    }
    let (k, q1) = match rk {
        None => { return None; },
        Some(x) => x,
    };
    let mut d: u32 = 0;
    let mut q2: usize = q1;
    if q1 < body_end && b[q1] == KEY_FIELD2_FIXED32 {
        if body_end - q1 < 5 {
            proof {
                assert forall|e: Entry, end: int|
                    #![trigger b@.subrange(pos as int, end), enc_entry(e)]
                    pos <= end <= stop && b@.subrange(pos as int, end) == enc_entry(e) implies false by {
                    vstd::bytes::lemma_auto_spec_u32_to_from_le_bytes();
                    if e.1 == 0 {
                        assert(b@.subrange(q1 as int, end).len() == 0);
                    } else {
                        assert(distance_field(e.1).len() == 5);
                    }
                }
            }
            return None;
        }
        let w = vec![b[q1 + 1], b[q1 + 2], b[q1 + 3], b[q1 + 4]];
        assert(w@ =~= b@.subrange(q1 + 1, q1 + 5));
        d = u32_from_le_bytes(w.as_slice());
        q2 = q1 + 5;
        proof {
            vstd::bytes::lemma_auto_spec_u32_to_from_le_bytes();
            assert forall|e: Entry, end: int|
                #![trigger b@.subrange(pos as int, end), enc_entry(e)]
                pos <= end <= stop && b@.subrange(pos as int, end) == enc_entry(e) implies e.1 == d && end == q2 by {
                if e.1 == 0 {
                    assert(b@.subrange(q1 as int, end).len() == 0);
                } else {
                    lemma_split(b@, q1 as int, end, seq![KEY_FIELD2_FIXED32], spec_u32_to_le_bytes(e.1));
                    assert(b@.subrange(q1 + 1, end) =~= w@);
                }
            }
        }
        if d == 0 {
            return None;
        }
        proof {
            vstd::bytes::lemma_auto_spec_u32_to_from_le_bytes();
            assert(spec_u32_to_le_bytes(d) == w@);
            lemma_join(b@, q1 as int, q1 + 1, q2 as int);
            assert(b@.subrange(q1 as int, q1 + 1) =~= seq![KEY_FIELD2_FIXED32]);
            assert(b@.subrange(q1 as int, q2 as int) == distance_field(d));
        }
    } else {
        proof {
            assert(b@.subrange(q1 as int, q1 as int) =~= distance_field(0));
            assert forall|e: Entry, end: int|
                #![trigger b@.subrange(pos as int, end), enc_entry(e)]
                pos <= end <= stop && b@.subrange(pos as int, end) == enc_entry(e) implies e.1 == 0 by {
                if e.1 != 0 {
                    assert(b@.subrange(q1 as int, end)[0] == KEY_FIELD2_FIXED32);
                }
            }
        }
    }
    if q2 != body_end {
        return None;
    }
    let e: Entry = (k, d);
    proof {
        lemma_join(b@, mark1 as int, q1 as int, body_end as int);
        assert(b@.subrange(mark1 as int, body_end as int) == entry_body(e));
        lemma_join(b@, pos as int, mark0 as int, mark1 as int);
        lemma_join(b@, pos as int, mark1 as int, body_end as int);
        assert(b@.subrange(pos as int, mark0 as int) =~= seq![KEY_FIELD4_MESSAGE]);
        assert(b@.subrange(pos as int, body_end as int) =~= enc_entry(e));
    }
    Some((e, body_end))
}

proof fn lemma_entries_split(a: Seq<Entry>, c: Seq<Entry>)
    ensures
        enc_entries(a + c) == enc_entries(a) + enc_entries(c),
    decreases c.len(),
{
    if c.len() == 0 {
        assert(a + c =~= a);
        assert(enc_entries(a) + enc_entries(c) =~= enc_entries(a));
    } else {
        assert((a + c).drop_last() =~= a + c.drop_last());
        lemma_entries_split(a, c.drop_last());
        assert(enc_entries(a + c) =~= enc_entries(a) + enc_entries(c));
    }
}

proof fn lemma_entries_front(s: Seq<Entry>)
    requires
        s.len() > 0,
    ensures
        enc_entries(s) == enc_entry(s[0]) + enc_entries(s.subrange(1, s.len() as int)),
        enc_entries(s).len() > 0,
        enc_entries(s)[0] == KEY_FIELD4_MESSAGE,
{
    let one = s.subrange(0, 1);
    assert(one + s.subrange(1, s.len() as int) =~= s);
    lemma_entries_split(one, s.subrange(1, s.len() as int));
    assert(one.drop_last() =~= Seq::<Entry>::empty());
    assert(enc_entries(Seq::<Entry>::empty()) == Seq::<u8>::empty());
    assert(enc_entries(one) =~= enc_entry(s[0]));
    assert(enc_entry(s[0])[0] == KEY_FIELD4_MESSAGE);
}

proof fn lemma_words_split(a: Seq<u32>, c: Seq<u32>)
    ensures
        le_words(a + c) == le_words(a) + le_words(c),
    decreases c.len(),
{
    if c.len() == 0 {
        assert(a + c =~= a);
        assert(le_words(a) + le_words(c) =~= le_words(a));
    } else {
        assert((a + c).drop_last() =~= a + c.drop_last());
        lemma_words_split(a, c.drop_last());
        assert(le_words(a + c) =~= le_words(a) + le_words(c));
    }
}

proof fn lemma_words_len(s: Seq<u32>)
    ensures
        le_words(s).len() == 4 * s.len(),
    decreases s.len(),
{
    vstd::bytes::lemma_auto_spec_u32_to_from_le_bytes();
    if s.len() > 0 {
        lemma_words_len(s.drop_last());
    }
}

proof fn lemma_words_front(s: Seq<u32>)
    requires
        s.len() > 0,
    ensures
        le_words(s) == spec_u32_to_le_bytes(s[0]) + le_words(s.subrange(1, s.len() as int)),
{
    let one = s.subrange(0, 1);
    assert(one + s.subrange(1, s.len() as int) =~= s);
    lemma_words_split(one, s.subrange(1, s.len() as int));
    assert(one.drop_last() =~= Seq::<u32>::empty());
    assert(le_words(Seq::<u32>::empty()) == Seq::<u8>::empty());
    assert(le_words(one) =~= spec_u32_to_le_bytes(s[0]));
}

/// Whether some entry of `s` has index `id`.
fn contains_id(s: &Vec<Entry>, id: u32) -> (r: bool)
    ensures
        r == has_id(s@, id),
{
    let mut i: usize = 0;
    while i < s.len()
        invariant
            i <= s@.len(),
            forall|k: int| 0 <= k < i ==> (#[trigger] s@[k]).0 != id,
        decreases s@.len() - i,
    {
        if s[i].0 == id {
            return true;
        }
        i = i + 1;
    }
    false
}

/// Reads the fields of a layer node that come before its entries.
#[verifier::rlimit(60)]
fn read_node_header(b: &Vec<u8>) -> (r: Option<(u32, u32, bool, usize)>)
    ensures
        r matches Some((level, idx, visible, p)) ==> p <= b@.len() && b@.subrange(0, p as int) == node_header(
            level,
            idx,
            visible,
        ),
        forall|n: LayerNode| n.wf() && #[trigger] enc_node(n) == b@ ==> {
            let p = node_header(n.level, n.idx, n.visible).len();
            &&& r == Some((n.level, n.idx, n.visible, p as usize))
            &&& b@.subrange(p as int, b@.len() as int) == enc_entries(n.neighbors@)
        },
{
    let len = b.len();
    proof {
        assert(b@.subrange(0, len as int) =~= b@);
        assert forall|n: LayerNode| n.wf() && #[trigger] enc_node(n) == b@ implies ({
            let f1 = opt_field(KEY_FIELD1_VARINT, n.level);
            let f2 = opt_field(KEY_FIELD2_VARINT, n.idx);
            let f3 = flag_field(n.visible);
            let e = enc_entries(n.neighbors@);
            &&& b@.subrange(0, f1.len() as int) == f1
            &&& b@.subrange(f1.len() as int, (f1 + f2).len() as int) == f2
            &&& b@.subrange((f1 + f2).len() as int, (f1 + f2 + f3).len() as int) == f3
            &&& b@.subrange((f1 + f2 + f3).len() as int, len as int) == e
            &&& (n.level != 0 || f1.len() == len || b@[f1.len() as int] != KEY_FIELD1_VARINT)
            &&& (n.idx != 0 || (f1 + f2).len() == len || b@[(f1 + f2).len() as int] != KEY_FIELD2_VARINT)
            &&& (!n.visible ==> (f1 + f2 + f3).len() == len || b@[(f1 + f2 + f3).len() as int] != KEY_FIELD3_VARINT)
        }) by {
            let f1 = opt_field(KEY_FIELD1_VARINT, n.level);
            let f2 = opt_field(KEY_FIELD2_VARINT, n.idx);
            let f3 = flag_field(n.visible);
            let e = enc_entries(n.neighbors@);
            assert(b@ =~= f1 + (f2 + (f3 + e)));
            lemma_split(b@, 0, len as int, f1, f2 + (f3 + e));
            lemma_split(b@, f1.len() as int, len as int, f2, f3 + e);
            lemma_split(b@, (f1 + f2).len() as int, len as int, f3, e);
            if n.neighbors@.len() > 0 {
                lemma_entries_front(n.neighbors@);
            } else {
                assert(e.len() == 0);
            }
            if n.level == 0 && f1.len() != len {
                assert(b@[f1.len() as int] == (f2 + (f3 + e))[0]);
            }
            if n.idx == 0 && (f1 + f2).len() != len {
                assert(b@[(f1 + f2).len() as int] == (f3 + e)[0]);
            }
            if !n.visible && (f1 + f2 + f3).len() != len {
                assert(b@[(f1 + f2 + f3).len() as int] == e[0]);
            }
        }
    }
    let (level, mark1) = match read_opt_field(b, 0, len, KEY_FIELD1_VARINT) {
        None => { return None; },
        Some(x) => x,
    };
    let (idx, mark2) = match read_opt_field(b, mark1, len, KEY_FIELD2_VARINT) {
        None => { return None; },
        Some(x) => x,
    };
    let mut visible = false;
    let mut mark3 = mark2;
    if mark2 < len && b[mark2] == KEY_FIELD3_VARINT {
        if mark2 + 1 < len && b[mark2 + 1] == 1u8 {
            visible = true;
            mark3 = mark2 + 2;
            assert(b@.subrange(mark2 as int, mark3 as int) =~= flag_field(true));
        } else {
            proof {
                assert forall|n: LayerNode| n.wf() && #[trigger] enc_node(n) == b@ implies false by {
                    if n.visible {
                        let f3 = flag_field(true);
                        assert(b@.subrange(mark2 as int, mark2 + 2) == f3);
                        assert(f3[1] == 1u8);
                    }
                }
            }
            return None;
        }
    } else {
        assert(b@.subrange(mark2 as int, mark2 as int) =~= flag_field(false));
    }
    proof {
        lemma_join(b@, 0, mark1 as int, mark2 as int);
        lemma_join(b@, 0, mark2 as int, mark3 as int);
        assert forall|n: LayerNode| n.wf() && #[trigger] enc_node(n) == b@ implies level == n.level && idx
            == n.idx && visible == n.visible by {
            if n.visible != visible {
                if n.visible {
                    let f3 = flag_field(true);
                    assert(f3[0] == KEY_FIELD3_VARINT);
                    assert(b@.subrange(mark2 as int, mark2 + 2) == f3);
                }
            }
        }
    }
    Some((level, idx, visible, mark3))
}

/// Decodes a layer node; fails with `InvalidForm` unless `b` is the encoding of a node.
#[verifier::rlimit(60)]
pub fn decode_node(b: &Vec<u8>) -> (r: Result<LayerNode, DeserializeError>)
    ensures
        r matches Ok(n) ==> n.wf() && enc_node(n) == b@,
        forall|n: LayerNode| n.wf() && #[trigger] enc_node(n) == b@ ==> (r matches Ok(m) && same_node(m, n)),
        r matches Err(e) ==> e == DeserializeError::InvalidForm,
{
    let len = b.len();
    let (level, idx, visible, mark3) = match read_node_header(b) {
        None => { return Err(DeserializeError::InvalidForm); },
        Some(x) => x,
    };
    let ghost header = node_header(level, idx, visible);
    proof {
        assert forall|n: LayerNode| n.wf() && #[trigger] enc_node(n) == b@ implies
            n.neighbors@.subrange(0, 0) == Seq::<Entry>::empty() && b@.subrange(mark3 as int, len as int)
            == enc_entries(n.neighbors@.subrange(0, n.neighbors@.len() as int)) by {
            assert(n.neighbors@.subrange(0, 0) =~= Seq::<Entry>::empty());
            assert(n.neighbors@.subrange(0, n.neighbors@.len() as int) =~= n.neighbors@);
        }
        assert(Seq::<Entry>::empty().len() == 0);
        assert(header + enc_entries(Seq::<Entry>::empty()) =~= header);
    }
    let mut out: Vec<Entry> = Vec::new();
    let mut pos: usize = mark3;
    while pos < len
        invariant
            mark3 <= pos <= len,
            len == b@.len(),
            header == node_header(level, idx, visible),
            mark3 == header.len(),
            distinct_ids(out@),
            b@.subrange(0, pos as int) == header + enc_entries(out@),
            forall|n: LayerNode| n.wf() && #[trigger] enc_node(n) == b@ ==> {
                &&& level == n.level && idx == n.idx && visible == n.visible
                &&& out@.len() <= n.neighbors@.len()
                &&& out@ == n.neighbors@.subrange(0, out@.len() as int)
                &&& b@.subrange(pos as int, len as int) == enc_entries(
                    n.neighbors@.subrange(out@.len() as int, n.neighbors@.len() as int),
                )
            },
        decreases len - pos,
    {
        let re = read_entry(b, pos, len);
        proof {
            assert forall|n: LayerNode| n.wf() && #[trigger] enc_node(n) == b@ implies ({
                let c = out@.len() as int;
                let rest = n.neighbors@.subrange(c, n.neighbors@.len() as int);
                &&& c < n.neighbors@.len()
                &&& re == Some((n.neighbors@[c], (pos + enc_entry(n.neighbors@[c]).len()) as usize))
                &&& b@.subrange(pos + enc_entry(n.neighbors@[c]).len(), len as int) == enc_entries(
                    n.neighbors@.subrange(c + 1, n.neighbors@.len() as int))
                &&& !has_id(out@, n.neighbors@[c].0)
            }) by {
                let c = out@.len() as int;
                let nb = n.neighbors@;
                let rest = nb.subrange(c, nb.len() as int);
                if rest.len() == 0 {
                    assert(enc_entries(rest).len() == 0);
                }
                lemma_entries_front(rest);
                assert(rest.subrange(1, rest.len() as int) =~= nb.subrange(c + 1, nb.len() as int));
                lemma_split(b@, pos as int, len as int, enc_entry(nb[c]), enc_entries(nb.subrange(c + 1, nb.len() as int)));
                if has_id(out@, nb[c].0) {
                    let k = choose|k: int| 0 <= k < out@.len() && (#[trigger] out@[k]).0 == nb[c].0;
                    assert(out@[k] == nb[k]);
                }
            }
        }
        let (e, end) = match re {
            None => { return Err(DeserializeError::InvalidForm); },
            Some(x) => x,
        };
        if contains_id(&out, e.0) {
            return Err(DeserializeError::InvalidForm);
        }
        let ghost before = out@;
        out.push(e);
        proof {
            assert(out@.drop_last() =~= before);
            lemma_join(b@, 0, pos as int, end as int);
            assert(b@.subrange(0, end as int) =~= header + enc_entries(out@));
            assert forall|i: int, j: int| 0 <= i < out@.len() && 0 <= j < out@.len() && i != j implies
                (#[trigger] out@[i]).0 != (#[trigger] out@[j]).0 by {
                if i < before.len() && j < before.len() {
                    assert(out@[i] == before[i]);
                    assert(out@[j] == before[j]);
                } else if i < before.len() {
                    assert(out@[i] == before[i]);
                } else {
                    assert(out@[j] == before[j]);
                }
            }
            assert forall|n: LayerNode| n.wf() && #[trigger] enc_node(n) == b@ implies
                out@ == n.neighbors@.subrange(0, out@.len() as int) by {
                assert(out@ =~= n.neighbors@.subrange(0, out@.len() as int));
            }
        }
        pos = end;
    }
    let node = LayerNode { level, idx, visible, neighbors: out };
    proof {
        assert(b@.subrange(0, len as int) =~= b@);
        assert forall|n: LayerNode| n.wf() && #[trigger] enc_node(n) == b@ implies same_node(node, n) by {
            let nb = n.neighbors@;
            let rest = nb.subrange(node.neighbors@.len() as int, nb.len() as int);
            if rest.len() > 0 {
                lemma_entries_front(rest);
            }
            assert(node.neighbors@ =~= nb);
        }
    }
    Ok(node)
}

/// Decodes a point; fails with `InvalidForm` unless `b` is the encoding of a point.
#[verifier::rlimit(60)]
pub fn decode_point(b: &Vec<u8>) -> (r: Result<Point, DeserializeError>)
    ensures
        r matches Ok(p) ==> enc_point(p) == b@,
        forall|p: Point| #[trigger] enc_point(p) == b@ ==> (r matches Ok(m) && same_point(m, p)),
        r matches Err(e) ==> e == DeserializeError::InvalidForm,
{
    let len = b.len();
    proof {
        assert(b@.subrange(0, len as int) =~= b@);
        assert forall|p: Point| #[trigger] enc_point(p) == b@ implies ({
            let f1 = opt_field(KEY_FIELD1_VARINT, p.idx);
            &&& b@.subrange(0, f1.len() as int) == f1
            &&& b@.subrange(f1.len() as int, len as int) == packed_field(p.v@)
            &&& (p.idx != 0 || f1.len() == len || b@[f1.len() as int] != KEY_FIELD1_VARINT)
        }) by {
            let f1 = opt_field(KEY_FIELD1_VARINT, p.idx);
            lemma_split(b@, 0, len as int, f1, packed_field(p.v@));
            if p.idx == 0 && f1.len() != len {
                assert(b@[f1.len() as int] == packed_field(p.v@)[0]);
            }
        }
    }
    let (idx, mark1) = match read_opt_field(b, 0, len, KEY_FIELD1_VARINT) {
        None => { return Err(DeserializeError::InvalidForm); },
        Some(x) => x,
    };
    if mark1 == len {
        let pt = Point { idx, v: Vec::new() };
        proof {
            assert(enc_point(pt) =~= b@);
            assert forall|p: Point| #[trigger] enc_point(p) == b@ implies same_point(pt, p) by {
                if p.v@.len() > 0 {
                    assert(b@.subrange(mark1 as int, len as int).len() == 0);
                }
                assert(pt.v@ =~= p.v@);
            }
        }
        return Ok(pt);
    }
    if b[mark1] != KEY_FIELD2_PACKED {
        proof {
            assert forall|p: Point| #[trigger] enc_point(p) == b@ implies false by {
                assert(b@.subrange(mark1 as int, len as int)[0] == b@[mark1 as int]);
            }
        }
        return Err(DeserializeError::InvalidForm);
    }
    let q = mark1 + 1;
    let rl = read_varint(b, q, len, (len - q) as u64);
    proof {
        assert forall|p: Point| #[trigger] enc_point(p) == b@ implies ({
            let n = p.v@.len();
            &&& n > 0
            &&& rl == Some(((4 * n) as u64, (len - 4 * n) as usize))
            &&& b@.subrange(len - 4 * n, len as int) == le_words(p.v@)
        }) by {
            let n = p.v@.len();
            if n == 0 {
                assert(b@.subrange(mark1 as int, len as int).len() == 0);
            }
            lemma_words_len(p.v@);
            lemma_split(b@, mark1 as int, len as int, seq![KEY_FIELD2_PACKED] + varint(4 * n), le_words(p.v@));
            lemma_split(b@, mark1 as int, len - 4 * n, seq![KEY_FIELD2_PACKED], varint(4 * n));
        }
    }
    let (blen, mark2) = match rl {
        None => { return Err(DeserializeError::InvalidForm); },
        Some(x) => x,
    };
    proof {
        assert forall|p: Point| #[trigger] enc_point(p) == b@ implies blen == 4 * p.v@.len() && blen != 0
            && blen % 4 == 0 && blen / 4 == p.v@.len() && blen as usize == len - mark2 && b@.subrange(
            mark2 as int, len as int) == le_words(p.v@) by {
            let n = p.v@.len();
            lemma_words_len(p.v@);
            assert(b@.subrange(len - 4 * n, len as int).len() == 4 * n);
            assert(0 <= len - 4 * n);
            assert(rl == Some(((4 * n) as u64, (len - 4 * n) as usize)));
            assert(blen == 4 * n);
            assert(mark2 == len - 4 * n);
            assert((4 * n) % 4 == 0 && (4 * n) / 4 == n) by (nonlinear_arith);
        }
    }
    if blen == 0 || blen % 4 != 0 || blen as usize != len - mark2 {
        return Err(DeserializeError::InvalidForm);
    }
    let count: usize = (blen / 4) as usize;
    let mut out: Vec<u32> = Vec::new();
    let mut pos: usize = mark2;
    proof {
        assert(b@.subrange(mark2 as int, mark2 as int) =~= le_words(out@));
        assert forall|p: Point| #[trigger] enc_point(p) == b@ implies p.v@.len() == count && out@
            == p.v@.subrange(0, 0) && b@.subrange(pos as int, len as int) == le_words(
            p.v@.subrange(0, p.v@.len() as int)) by {
            assert(p.v@.subrange(0, 0) =~= out@);
            assert(p.v@.subrange(0, p.v@.len() as int) =~= p.v@);
        }
    }
    while out.len() < count
        invariant
            mark2 <= pos <= len,
            len == b@.len(),
            pos == mark2 + 4 * out@.len(),
            len == mark2 + 4 * count,
            out@.len() <= count,
            b@.subrange(mark2 as int, pos as int) == le_words(out@),
            forall|p: Point| #[trigger] enc_point(p) == b@ ==> {
                &&& p.v@.len() == count
                &&& out@ == p.v@.subrange(0, out@.len() as int)
                &&& b@.subrange(pos as int, len as int) == le_words(p.v@.subrange(out@.len() as int, count as int))
            },
        decreases count - out@.len(),
    {
        let w = vec![b[pos], b[pos + 1], b[pos + 2], b[pos + 3]];
        assert(w@ =~= b@.subrange(pos as int, pos + 4));
        let x = u32_from_le_bytes(w.as_slice());
        proof {
            vstd::bytes::lemma_auto_spec_u32_to_from_le_bytes();
            assert(spec_u32_to_le_bytes(x) == w@);
            assert forall|p: Point| #[trigger] enc_point(p) == b@ implies ({
                let c = out@.len() as int;
                &&& p.v@[c] == x
                &&& b@.subrange(pos + 4, len as int) == le_words(p.v@.subrange(c + 1, count as int))
            }) by {
                let c = out@.len() as int;
                let rest = p.v@.subrange(c, count as int);
                lemma_words_front(rest);
                assert(rest.subrange(1, rest.len() as int) =~= p.v@.subrange(c + 1, count as int));
                lemma_split(b@, pos as int, len as int, spec_u32_to_le_bytes(rest[0]), le_words(
                    p.v@.subrange(c + 1, count as int)));
                assert(spec_u32_to_le_bytes(rest[0]).len() == 4);
            }
        }
        let ghost before = out@;
        out.push(x);
        proof {
            assert(out@.drop_last() =~= before);
            lemma_join(b@, mark2 as int, pos as int, pos + 4);
            assert(b@.subrange(mark2 as int, pos + 4) =~= le_words(out@));
            assert forall|p: Point| #[trigger] enc_point(p) == b@ implies out@ == p.v@.subrange(
                0, out@.len() as int) by {
                assert(out@ =~= p.v@.subrange(0, out@.len() as int));
            }
        }
        pos = pos + 4;
    }
    let pt = Point { idx, v: out };
    proof {
        lemma_join(b@, 0, mark1 as int, len as int);
        lemma_join(b@, mark1 as int, q as int, mark2 as int);
        lemma_join(b@, mark1 as int, mark2 as int, len as int);
        assert(b@.subrange(mark1 as int, q as int) =~= seq![KEY_FIELD2_PACKED]);
        assert(b@.subrange(mark1 as int, len as int) =~= packed_field(pt.v@));
        assert(enc_point(pt) =~= b@);
        assert forall|p: Point| #[trigger] enc_point(p) == b@ implies same_point(pt, p) by {
            assert(pt.v@ =~= p.v@);
        }
    }
    Ok(pt)
}

} // verus!
