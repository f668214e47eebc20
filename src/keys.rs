//! The key-value schema: keys of every stored value under a tenant tag, and the
//! decimal text of the index-wide counters.
use vstd::prelude::*;
use crate::errors::DeserializeError;

verus! {

/// The decimal digits of `n`, most significant first, as ASCII bytes.
pub open spec fn digits(n: nat) -> Seq<u8>
    decreases n,
{
    if n < 10 {
        seq![(n + 48) as u8]
    } else {
        digits(n / 10).push((n % 10 + 48) as u8)
    }
}

/// The bytes `.value.` that follow the tenant tag in every key.
pub open spec fn value_infix() -> Seq<u8> {
    seq![46u8, 118u8, 97u8, 108u8, 117u8, 101u8, 46u8]
}

/// Key of point `idx`: `T.value.idx`.
pub open spec fn point_key_of(tag: Seq<u8>, idx: nat) -> Seq<u8> {
    tag + value_infix() + digits(idx)
}

/// Key of the layer node of point `idx` at `level`: `T.value.level:idx`.
pub open spec fn node_key_of(tag: Seq<u8>, level: nat, idx: nat) -> Seq<u8> {
    tag + value_infix() + digits(level) + seq![58u8] + digits(idx)
}

/// Key of the metadata of point `idx`: `T.value.m:idx`.
pub open spec fn metadata_key_of(tag: Seq<u8>, idx: nat) -> Seq<u8> {
    tag + value_infix() + seq![109u8, 58u8] + digits(idx)
}

/// Appends the decimal digits of `n`.
fn write_decimal(out: &mut Vec<u8>, n: u64)
    ensures
        final(out)@ == old(out)@ + digits(n as nat),
    decreases n,
{
    if n >= 10 {
        write_decimal(out, n / 10);
    }
    let ghost pre = out@;
    out.push((n % 10 + 48) as u8);
    proof {
        if n < 10 {
            assert(out@ =~= old(out)@ + digits(n as nat));
        } else {
            assert(out@ =~= old(out)@ + digits(n as nat));
        }
    }
}

fn write_bytes(out: &mut Vec<u8>, src: &Vec<u8>)
    ensures
        final(out)@ == old(out)@ + src@,
{
    let mut i: usize = 0;
    while i < src.len()
        invariant
            i <= src@.len(),
            out@ == old(out)@ + src@.subrange(0, i as int),
        decreases src@.len() - i,
    {
        out.push(src[i]);
        proof {
            assert(out@ =~= old(out)@ + src@.subrange(0, i as int + 1));
        }
        i = i + 1;
    }
    proof {
        assert(src@.subrange(0, i as int) =~= src@);
    }
}

fn tag_prefix(tag: &Vec<u8>) -> (r: Vec<u8>)
    ensures
        r@ == tag@ + value_infix(),
{
    let mut out: Vec<u8> = Vec::new();
    write_bytes(&mut out, tag);
    out.push(46u8);
    out.push(118u8);
    out.push(97u8);
    out.push(108u8);
    out.push(117u8);
    out.push(101u8);
    out.push(46u8);
    assert(out@ =~= tag@ + value_infix());
    out
}

/// The key of point `idx` under tenant `tag`.
pub fn point_key(tag: &Vec<u8>, idx: u64) -> (r: Vec<u8>)
    ensures
        r@ == point_key_of(tag@, idx as nat),
{
    let mut out = tag_prefix(tag);
    write_decimal(&mut out, idx);
    out
}

/// The key of the layer node of point `idx` at `level` under tenant `tag`.
pub fn node_key(tag: &Vec<u8>, level: u64, idx: u64) -> (r: Vec<u8>)
    ensures
        r@ == node_key_of(tag@, level as nat, idx as nat),
{
    let mut out = tag_prefix(tag);
    write_decimal(&mut out, level);
    out.push(58u8);
    write_decimal(&mut out, idx);
    out
}

/// The key of the metadata of point `idx` under tenant `tag`.
pub fn metadata_key(tag: &Vec<u8>, idx: u64) -> (r: Vec<u8>)
    ensures
        r@ == metadata_key_of(tag@, idx as nat),
{
    let mut out = tag_prefix(tag);
    out.push(109u8);
    out.push(58u8);
    write_decimal(&mut out, idx);
    out
}

/// The key of an index-wide counter named `name` (`datasize`, `num_layers`, `ep`).
pub fn scalar_key(tag: &Vec<u8>, name: &Vec<u8>) -> (r: Vec<u8>)
    ensures
        r@ == tag@ + value_infix() + name@,
{
    let mut out = tag_prefix(tag);
    write_bytes(&mut out, name);
    out
}

/// The decimal text of a counter.
pub fn decimal_bytes(n: u64) -> (r: Vec<u8>)
    ensures
        r@ == digits(n as nat),
{
    let mut out: Vec<u8> = Vec::new();
    write_decimal(&mut out, n);
    assert(out@ =~= digits(n as nat));
    out
}

/// The value of a string of ASCII digits.
pub open spec fn digits_value(s: Seq<u8>) -> nat
    decreases s.len(),
{
    if s.len() == 0 {
        0
    } else {
        digits_value(s.drop_last()) * 10 + (s.last() - 48) as nat
    }
}

/// Every byte is an ASCII digit.
pub open spec fn all_digits(s: Seq<u8>) -> bool {
    forall|i: int| 0 <= i < s.len() ==> 48 <= #[trigger] s[i] <= 57
}

/// The digits of a counter's text: the text without one leading `+`.
pub open spec fn unsigned_part(s: Seq<u8>) -> Seq<u8> {
    if s.len() > 0 && s[0] == 43u8 {
        s.subrange(1, s.len() as int)
    } else {
        s
    }
}

/// The text is a counter that fits in 64 bits: an optional `+`, then at least one digit.
pub open spec fn is_counter_text(s: Seq<u8>) -> bool {
    let d = unsigned_part(s);
    d.len() > 0 && all_digits(d) && digits_value(d) <= u64::MAX
}

proof fn lemma_value_grows(s: Seq<u8>, i: int)
    requires
        all_digits(s),
        0 <= i <= s.len(),
    ensures
        digits_value(s.subrange(0, i)) <= digits_value(s),
    decreases s.len() - i,
{
    if i < s.len() {
        lemma_value_grows(s, i + 1);
        let t = s.subrange(0, i + 1);
        assert(t.drop_last() =~= s.subrange(0, i));
        assert(48 <= s[i]);
    } else {
        assert(s.subrange(0, i) =~= s);
    }
}

/// Reads a counter from its decimal text; `InvalidForm` unless the text is an optional
/// `+` and then digits whose value fits in 64 bits.
pub fn parse_counter(b: &Vec<u8>) -> (r: Result<u64, DeserializeError>)
    ensures
        r is Ok <==> is_counter_text(b@),
        r matches Ok(v) ==> v == digits_value(unsigned_part(b@)),
        r matches Err(e) ==> e == DeserializeError::InvalidForm,
{
    let start: usize = if b.len() > 0 && b[0] == 43u8 { 1 } else { 0 };
    let ghost d = unsigned_part(b@);
    proof {
        assert(d =~= b@.subrange(start as int, b@.len() as int));
    }
    if start >= b.len() {
        return Err(DeserializeError::InvalidForm);
    }
    let mut acc: u64 = 0;
    let mut i: usize = start;
    while i < b.len()
        invariant
            start <= i <= b@.len(),
            d == b@.subrange(start as int, b@.len() as int),
            d == unsigned_part(b@),
            all_digits(d.subrange(0, i - start)),
            acc == digits_value(d.subrange(0, i - start)),
        decreases b@.len() - i,
    {
        let c = b[i];
        if c < 48 || c > 57 {
            proof {
                let k = (i - start) as int;
                assert(d[k] == c);
                if all_digits(d) {
                    assert(48 <= d[k] <= 57);
                }
                assert(!all_digits(d));
                assert(!is_counter_text(b@));
            }
            return Err(DeserializeError::InvalidForm);
        }
        let digit: u64 = (c - 48) as u64;
        let ghost t = d.subrange(0, i - start + 1);
        proof {
            assert(t.drop_last() =~= d.subrange(0, i - start));
            assert(t.last() == c);
            assert(all_digits(t));
        }
        if acc > (u64::MAX - digit) / 10 {
            proof {
                assert(acc * 10 + digit > u64::MAX) by (nonlinear_arith)
                    requires
                        acc > (u64::MAX - digit) / 10,
                        digit <= 9,
                ;
                assert(digits_value(t) == acc * 10 + digit);
                if all_digits(d) {
                    lemma_value_grows(d, i - start + 1);
                    assert(digits_value(d) > u64::MAX);
                }
                assert(!is_counter_text(b@));
            }
            return Err(DeserializeError::InvalidForm);
        }
        acc = acc * 10 + digit;
        i = i + 1;
    }
    proof {
        assert(d.subrange(0, i - start) =~= d);
    }
    Ok(acc)
}

} // verus!
