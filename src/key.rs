//! The message key of a journal event: the order id as eight big-endian
//! bytes.

use vstd::prelude::*;

verus! {

/// The eight big-endian bytes of `x`.
pub open spec fn be_bytes(x: u64) -> Seq<u8> {
    seq![
        ((x >> 56u64) & 0xff) as u8,
        ((x >> 48u64) & 0xff) as u8,
        ((x >> 40u64) & 0xff) as u8,
        ((x >> 32u64) & 0xff) as u8,
        ((x >> 24u64) & 0xff) as u8,
        ((x >> 16u64) & 0xff) as u8,
        ((x >> 8u64) & 0xff) as u8,
        (x & 0xff) as u8,
    ]
}

/// The number whose big-endian bytes are `b`.
pub open spec fn be_value(b: Seq<u8>) -> u64 {
    ((b[0] as u64) << 56) | ((b[1] as u64) << 48) | ((b[2] as u64) << 40) | ((b[3] as u64) << 32) | ((b[4] as u64)
        << 24) | ((b[5] as u64) << 16) | ((b[6] as u64) << 8) | (b[7] as u64)
}

/// The key of the events of order `id`.
pub fn order_key(id: u64) -> (r: Vec<u8>)
    ensures
        r@ == be_bytes(id),
{
    let mut r: Vec<u8> = Vec::new();
    r.push(((id >> 56u64) & 0xff) as u8);
    r.push(((id >> 48u64) & 0xff) as u8);
    r.push(((id >> 40u64) & 0xff) as u8);
    r.push(((id >> 32u64) & 0xff) as u8);
    r.push(((id >> 24u64) & 0xff) as u8);
    r.push(((id >> 16u64) & 0xff) as u8);
    r.push(((id >> 8u64) & 0xff) as u8);
    r.push((id & 0xff) as u8);
    assert(r@ =~= be_bytes(id));
    r
}

/// The order id of a key, if the key is eight bytes long.
pub fn key_order_id(key: &[u8]) -> (r: Option<u64>)
    ensures
        key@.len() == 8 ==> r == Some(be_value(key@)),
        key@.len() != 8 ==> r is None,
{
    if key.len() != 8 {
        return None;
    }
    Some(
        ((key[0] as u64) << 56u64) | ((key[1] as u64) << 48u64) | ((key[2] as u64) << 40u64) | ((key[3] as u64) << 32u64)
            | ((key[4] as u64) << 24u64) | ((key[5] as u64) << 16u64) | ((key[6] as u64) << 8u64) | (key[7] as u64),
    )
}

/// Reading a key back gives the id it was made from.
pub proof fn law_key_round_trip(id: u64)
    ensures
        be_value(be_bytes(id)) == id,
{
    assert(((((id >> 56u64) & 0xff) as u8 as u64) << 56u64) | ((((id >> 48u64) & 0xff) as u8 as u64) << 48u64) | ((((
    id >> 40u64) & 0xff) as u8 as u64) << 40u64) | ((((id >> 32u64) & 0xff) as u8 as u64) << 32u64) | ((((id >> 24u64)
        & 0xff) as u8 as u64) << 24u64) | ((((id >> 16u64) & 0xff) as u8 as u64) << 16u64) | ((((id >> 8u64) & 0xff) as u8
        as u64) << 8u64) | ((id & 0xff) as u8 as u64) == id) by (bit_vector);
}

} // verus!
