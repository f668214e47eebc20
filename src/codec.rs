//! Records as text: the record bytes wrapped in standard padded base64, so that a
//! stored value is always a valid string.
use vstd::prelude::*;
use crate::errors::DeserializeError;
use crate::node::{LayerNode, Point};
use crate::record::{enc_node, enc_point, same_node, same_point, encode_node, encode_point, decode_node, decode_point};

verus! {

/// The standard padded base64 text of a byte string.
pub uninterp spec fn base64_of(b: Seq<u8>) -> Seq<char>;

/// Relies on base64's `STANDARD` engine `encode`: padded standard-alphabet text, which
/// depends on the bytes alone.
#[verifier::external_body]
fn b64_encode(b: &Vec<u8>) -> (r: String)
    ensures
        r@ == base64_of(b@),
{
    base64::Engine::encode(&base64::engine::general_purpose::STANDARD, b)
}

/// Relies on base64's `STANDARD` engine `decode`: it requires canonical padding and
/// refuses nonzero trailing bits, so it succeeds exactly on the texts that `encode`
/// produces, and then returns the bytes that were encoded.
#[verifier::external_body]
fn b64_decode(s: &str) -> (r: Option<Vec<u8>>)
    ensures
        r is Some ==> base64_of(r->Some_0@) == s@,
        forall|b: Seq<u8>| #[trigger] base64_of(b) == s@ ==> (r is Some && r->Some_0@ == b),
{
    base64::Engine::decode(&base64::engine::general_purpose::STANDARD, s).ok()
}

/// The stored text of a point. The components' byte length must fit in 64 bits.
pub fn point_to_base64(point: &Point) -> (r: String)
    requires
        4 * point.v@.len() <= u64::MAX,
    ensures
        r@ == base64_of(enc_point(*point)),
{
    let bytes = encode_point(point);
    b64_encode(&bytes)
}

/// Reads a point back from its stored text; `InvalidForm` unless the text is the
/// stored text of some point, which is then returned.
pub fn base64_to_point(e_point: &str) -> (r: Result<Point, DeserializeError>)
    ensures
        r matches Ok(p) ==> base64_of(enc_point(p)) == e_point@,
        forall|p: Point| #[trigger] base64_of(enc_point(p)) == e_point@ ==> (r matches Ok(m) && same_point(m, p)),
        r matches Err(e) ==> e == DeserializeError::InvalidForm,
{
    match b64_decode(e_point) {
        None => Err(DeserializeError::InvalidForm),
        Some(bytes) => decode_point(&bytes),
    }
}

/// The stored text of a layer node.
pub fn node_to_base64(node: &LayerNode) -> (r: String)
    ensures
        r@ == base64_of(enc_node(*node)),
{
    let bytes = encode_node(node);
    b64_encode(&bytes)
}

/// Reads a layer node back from its stored text; `InvalidForm` unless the text is the
/// stored text of some node, which is then returned.
pub fn base64_to_node(e_node: &str) -> (r: Result<LayerNode, DeserializeError>)
    ensures
        r matches Ok(n) ==> n.wf() && base64_of(enc_node(n)) == e_node@,
        forall|n: LayerNode| n.wf() && #[trigger] base64_of(enc_node(n)) == e_node@ ==> (r matches Ok(m)
            && same_node(m, n)),
        r matches Err(e) ==> e == DeserializeError::InvalidForm,
{
    match b64_decode(e_node) {
        None => Err(DeserializeError::InvalidForm),
        Some(bytes) => decode_node(&bytes),
    }
}

/// The text is the stored text of some layer node.
pub open spec fn is_node_text(s: Seq<char>) -> bool {
    exists|n: LayerNode| n.wf() && #[trigger] base64_of(enc_node(n)) == s
}

/// The text is the stored text of some point.
pub open spec fn is_point_text(s: Seq<char>) -> bool {
    exists|p: Point| #[trigger] base64_of(enc_point(p)) == s
}

/// Reads the layer nodes stored under a list of keys, given what the store holds for
/// each (`None` when the key is absent). The first absent key gives `MissingKey`, the
/// first text that is no node gives `InvalidForm`, whichever comes first.
pub fn nodes_from_texts(values: &Vec<Option<String>>) -> (r: Result<Vec<LayerNode>, DeserializeError>)
    ensures
        r matches Ok(v) ==> v@.len() == values@.len() && forall|i: int| 0 <= i < values@.len() ==> {
            &&& (#[trigger] values@[i]) is Some
            &&& v@[i].wf()
            &&& base64_of(enc_node(v@[i])) == values@[i]->Some_0@
        },
        r matches Err(e) ==> exists|i: int| 0 <= i < values@.len() && (forall|j: int| 0 <= j < i ==> (#[trigger] values@[j]) is Some
            && is_node_text(values@[j]->Some_0@)) && (if values@[i] is Some {
                !is_node_text(values@[i]->Some_0@) && e == DeserializeError::InvalidForm
            } else {
                e == DeserializeError::MissingKey
            }),
{
    let mut out: Vec<LayerNode> = Vec::new();
    let mut i: usize = 0;
    while i < values.len()
        invariant
            i <= values@.len(),
            out@.len() == i,
            forall|j: int| 0 <= j < i ==> {
                &&& (#[trigger] values@[j]) is Some
                &&& out@[j].wf()
                &&& base64_of(enc_node(out@[j])) == values@[j]->Some_0@
            },
        decreases values@.len() - i,
    {
        match &values[i] {
            None => {
                proof {
                    assert forall|j: int| 0 <= j < i implies (#[trigger] values@[j]) is Some && is_node_text(
                        values@[j]->Some_0@) by {
                        assert(out@[j].wf() && base64_of(enc_node(out@[j])) == values@[j]->Some_0@);
                    }
                }
                return Err(DeserializeError::MissingKey);
            },
            Some(text) => {
                match base64_to_node(text.as_str()) {
                    Ok(n) => {
                        out.push(n);
                        proof {
                            assert forall|j: int| 0 <= j < i + 1 implies {
                                &&& (#[trigger] values@[j]) is Some
                                &&& out@[j].wf()
                                &&& base64_of(enc_node(out@[j])) == values@[j]->Some_0@
                            } by {
                                if j < i {
                                }
                            }
                        }
                    },
                    Err(e) => {
                        proof {
                            assert forall|j: int| 0 <= j < i implies (#[trigger] values@[j]) is Some && is_node_text(
                                values@[j]->Some_0@) by {
                                assert(out@[j].wf() && base64_of(enc_node(out@[j])) == values@[j]->Some_0@);
                            }
                        }
                        return Err(e);
                    },
                }
            },
        }
        i = i + 1;
    }
    Ok(out)
}

/// Reads the points stored under a list of keys, given what the store holds for each
/// (`None` when the key is absent). The first absent key gives `MissingKey`, the first
/// text that is no point gives `InvalidForm`, whichever comes first.
pub fn points_from_texts(values: &Vec<Option<String>>) -> (r: Result<Vec<Point>, DeserializeError>)
    ensures
        r matches Ok(v) ==> v@.len() == values@.len() && forall|i: int| 0 <= i < values@.len() ==> {
            &&& (#[trigger] values@[i]) is Some
            &&& base64_of(enc_point(v@[i])) == values@[i]->Some_0@
        },
        r matches Err(e) ==> exists|i: int| 0 <= i < values@.len() && (forall|j: int| 0 <= j < i ==> (#[trigger] values@[j]) is Some
            && is_point_text(values@[j]->Some_0@)) && (if values@[i] is Some {
                !is_point_text(values@[i]->Some_0@) && e == DeserializeError::InvalidForm
            } else {
                e == DeserializeError::MissingKey
            }),
{
    let mut out: Vec<Point> = Vec::new();
    let mut i: usize = 0;
    while i < values.len()
        invariant
            i <= values@.len(),
            out@.len() == i,
            forall|j: int| 0 <= j < i ==> {
                &&& (#[trigger] values@[j]) is Some
                &&& base64_of(enc_point(out@[j])) == values@[j]->Some_0@
            },
        decreases values@.len() - i,
    {
        match &values[i] {
            None => {
                proof {
                    assert forall|j: int| 0 <= j < i implies (#[trigger] values@[j]) is Some && is_point_text(
                        values@[j]->Some_0@) by {
                        assert(base64_of(enc_point(out@[j])) == values@[j]->Some_0@);
                    }
                }
                return Err(DeserializeError::MissingKey);
            },
            Some(text) => {
                match base64_to_point(text.as_str()) {
                    Ok(p) => {
                        out.push(p);
                        proof {
                            assert forall|j: int| 0 <= j < i + 1 implies {
                                &&& (#[trigger] values@[j]) is Some
                                &&& base64_of(enc_point(out@[j])) == values@[j]->Some_0@
                            } by {
                                if j < i {
                                }
                            }
                        }
                    },
                    Err(e) => {
                        proof {
                            assert forall|j: int| 0 <= j < i implies (#[trigger] values@[j]) is Some && is_point_text(
                                values@[j]->Some_0@) by {
                                assert(base64_of(enc_point(out@[j])) == values@[j]->Some_0@);
                            }
                        }
                        return Err(e);
                    },
                }
            },
        }
        i = i + 1;
    }
    Ok(out)
}

} // verus!
