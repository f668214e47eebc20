//! Total order on stored distances.
//!
//! Distances are kept as the raw IEEE-754 single-precision bit patterns, so that a
//! record decodes to exactly the bits that were encoded. Comparing them goes through
//! `key_of`, which maps a bit pattern to an unsigned integer whose order is the
//! numeric order of the float (with -0 before +0), and which sends every NaN to the
//! largest key, so that a NaN distance sorts after every valid one.
use vstd::prelude::*;

verus! {

/// A neighbor entry: (point index, distance bits).
pub type Entry = (u32, u32);

/// The bit pattern is a NaN: all exponent bits set and a nonzero fraction.
pub open spec fn is_nan_bits(b: u32) -> bool {
    (b & 0x7f80_0000u32) == 0x7f80_0000u32 && (b & 0x007f_ffffu32) != 0
}

/// The sort key of a distance given by its bits.
pub open spec fn key_of(b: u32) -> u32 {
    if is_nan_bits(b) {
        0xffff_ffffu32
    } else if (b & 0x8000_0000u32) != 0 {
        !b
    } else {
        b | 0x8000_0000u32
    }
}

/// Entry `a` comes no later than entry `b`: smaller distance key first, ties by index.
pub open spec fn precedes(a: Entry, b: Entry) -> bool {
    key_of(a.1) < key_of(b.1) || (key_of(a.1) == key_of(b.1) && a.0 <= b.0)
}

/// The entries are in ascending order of distance (ties by index).
pub open spec fn sorted(s: Seq<Entry>) -> bool {
    forall|i: int, j: int| 0 <= i < j < s.len() ==> precedes(#[trigger] s[i], #[trigger] s[j])
}

/// No two entries share a point index.
pub open spec fn distinct_ids(s: Seq<Entry>) -> bool {
    forall|i: int, j: int| 0 <= i < s.len() && 0 <= j < s.len() && i != j ==> (#[trigger] s[i]).0 != (#[trigger] s[j]).0
}

/// Some entry of `s` has point index `id`.
pub open spec fn has_id(s: Seq<Entry>, id: u32) -> bool {
    exists|i: int| 0 <= i < s.len() && (#[trigger] s[i]).0 == id
}

/// Every NaN distance sorts strictly after every other distance.
pub proof fn lemma_nan_sorts_last(nan: u32, b: u32)
    requires
        is_nan_bits(nan),
        !is_nan_bits(b),
    ensures
        key_of(b) < key_of(nan),
{
    assert(!((b & 0x7f80_0000u32) == 0x7f80_0000u32 && (b & 0x007f_ffffu32) != 0) ==> (
        if (b & 0x8000_0000u32) != 0 { !b } else { b | 0x8000_0000u32 }) < 0xffff_ffffu32)
        by (bit_vector);
}

/// Two distinct distances that are not NaN get distinct keys.
pub proof fn lemma_key_injective(a: u32, b: u32)
    requires
        !is_nan_bits(a),
        !is_nan_bits(b),
        a != b,
    ensures
        key_of(a) != key_of(b),
{
    assert(a != b ==> (if (a & 0x8000_0000u32) != 0 { !a } else { a | 0x8000_0000u32 }) != (
        if (b & 0x8000_0000u32) != 0 { !b } else { b | 0x8000_0000u32 })) by (bit_vector);
}

proof fn lemma_precedes_total(a: Entry, b: Entry)
    ensures
        precedes(a, b) || precedes(b, a),
{
}

proof fn lemma_precedes_trans(a: Entry, b: Entry, c: Entry)
    requires
        precedes(a, b),
        precedes(b, c),
    ensures
        precedes(a, c),
{
}

/// The sort key of a distance.
pub fn order_key(b: u32) -> (r: u32)
    ensures
        r == key_of(b),
{
    if (b & 0x7f80_0000u32) == 0x7f80_0000u32 && (b & 0x007f_ffffu32) != 0 {
        0xffff_ffffu32
    } else if (b & 0x8000_0000u32) != 0 {
        !b
    } else {
        b | 0x8000_0000u32
    }
}

/// Whether entry `a` comes no later than entry `b`.
pub fn entry_precedes(a: Entry, b: Entry) -> (r: bool)
    ensures
        r == precedes(a, b),
{
    let ka = order_key(a.1);
    let kb = order_key(b.1);
    ka < kb || (ka == kb && a.0 <= b.0)
}

/// The number of leading entries of `s` that precede `x`.
pub open spec fn lead(s: Seq<Entry>, x: Entry) -> nat
    decreases s.len(),
{
    if s.len() == 0 {
        0
    } else if precedes(s[0], x) {
        1 + lead(s.subrange(1, s.len() as int), x)
    } else {
        0
    }
}

/// `s` with `x` inserted after its leading entries that precede `x`.
pub open spec fn insert_in_order(s: Seq<Entry>, x: Entry) -> Seq<Entry> {
    s.insert(lead(s, x) as int, x)
}

proof fn lemma_lead(s: Seq<Entry>, x: Entry, i: int)
    requires
        0 <= i <= s.len(),
        forall|k: int| 0 <= k < i ==> precedes(#[trigger] s[k], x),
    ensures
        lead(s, x) == i + lead(s.subrange(i, s.len() as int), x),
    decreases i,
{
    if i > 0 {
        let t = s.subrange(1, s.len() as int);
        lemma_lead(t, x, i - 1);
        assert(t.subrange(i - 1, t.len() as int) =~= s.subrange(i, s.len() as int));
    } else {
        assert(s.subrange(0, s.len() as int) =~= s);
    }
}

/// Inserts `x` into the sorted list `v`, after every entry that precedes it.
pub fn insert_sorted(v: &mut Vec<Entry>, x: Entry)
    requires
        sorted(old(v)@),
    ensures
        sorted(final(v)@),
        final(v)@ == insert_in_order(old(v)@, x),
        exists|i: int| 0 <= i <= old(v)@.len() && final(v)@ == old(v)@.insert(i, x),
{
    let mut i: usize = 0;
    while i < v.len() && entry_precedes(v[i], x)
        invariant
            i <= v@.len(),
            v@ == old(v)@,
            sorted(v@),
            forall|k: int| 0 <= k < i ==> precedes(#[trigger] v@[k], x),
        decreases v@.len() - i,
    {
        i = i + 1;
    }
    proof {
        if i < v@.len() {
            lemma_precedes_total(v@[i as int], x);
            assert forall|k: int| i <= k < v@.len() implies precedes(x, #[trigger] v@[k]) by {
                if k > i {
                    lemma_precedes_trans(x, v@[i as int], v@[k]);
                }
            }
        }
    }
    proof {
        lemma_lead(v@, x, i as int);
        let t = v@.subrange(i as int, v@.len() as int);
        if i < v@.len() {
            assert(t[0] == v@[i as int]);
        }
    }
    let ghost pre = v@;
    v.insert(i, x);
    proof {
        pre.insert_ensures(i as int, x);
        assert forall|a: int, b: int| 0 <= a < b < v@.len() implies precedes(#[trigger] v@[a], #[trigger] v@[b]) by {
            if b < i {
            } else if a < i && b == i {
            } else if a < i {
                lemma_precedes_trans(v@[a], x, v@[b]);
            } else if a == i {
            } else {
                assert(v@[a] == pre[a - 1]);
                assert(v@[b] == pre[b - 1]);
            }
        }
    }
}

} // verus!
