//! Identifiers and clock readings: random 128-bit ids, their canonical text,
//! and the current time as Unix nanoseconds.

use vstd::prelude::*;

use crate::discovery::hex_digit;

verus! {

/// A fresh random version-4 UUID as its 128-bit value: sixteen bytes from
/// the system generator read big-endian, with the version nibble set to 4
/// and the variant bits to `10`. `None` when the generator fails.
pub fn new_random_id() -> (r: Option<u128>)
    ensures
        r matches Some(id) ==> (id >> 76u128) & 0xfu128 == 4 && (id >> 62u128) & 0x3u128 == 2,
{
    let bytes = match crate::at_rest::random_bytes(16) {
        Some(b) => b,
        None => {
            return None;
        },
    };
    let mut raw: u128 = 0;
    let mut i: usize = 0;
    while i < 16
        invariant
            i <= 16,
            bytes@.len() == 16,
        decreases 16 - i,
    {
        let b: u128 = bytes[i] as u128;
        raw = (raw << 8u128) | b;
        i = i + 1;
    }
    let id: u128 = (raw & !(0xfu128 << 76u128) & !(0x3u128 << 62u128)) | (0x4u128 << 76u128) | (0x2u128 << 62u128);
    assert((id >> 76u128) & 0xfu128 == 4 && (id >> 62u128) & 0x3u128 == 2) by (bit_vector)
        requires
            id == (raw & !(0xfu128 << 76u128) & !(0x3u128 << 62u128)) | (0x4u128 << 76u128) | (0x2u128 << 62u128),
    ;
    Some(id)
}

/// The current UTC time as Unix nanoseconds (time's `OffsetDateTime::now_utc`
/// and `unix_timestamp_nanos`). The clock decides, so nothing is stated.
#[verifier::external_body]
pub(crate) fn now_unix_nanos() -> (r: i128) {
    time::OffsetDateTime::now_utc().unix_timestamp_nanos()
}

/// Hex digit `k` (0 = most significant) of a 128-bit value.
pub open spec fn id_nibble(u: u128, k: int) -> int {
    ((u >> ((124 - 4 * k) as u128)) & 0xfu128) as int
}

/// The 32 hex digits of a 128-bit value, most significant first.
pub open spec fn id_hex(u: u128) -> Seq<char> {
    Seq::new(32, |k: int| hex_digit(id_nibble(u, k)))
}

/// Canonical hyphenated lower-case text of an id (8-4-4-4-12 digits).
pub open spec fn id_text(u: u128) -> Seq<char> {
    let h = id_hex(u);
    h.subrange(0, 8) + seq!['-'] + h.subrange(8, 12) + seq!['-'] + h.subrange(12, 16) + seq!['-']
        + h.subrange(16, 20) + seq!['-'] + h.subrange(20, 32)
}

/// Canonical hyphenated lower-case text of an id, as `Uuid`'s `Display` writes it.
pub fn id_to_string(u: u128) -> (r: String)
    ensures
        r@ == id_text(u),
{
    let mut hex: Vec<char> = Vec::new();
    let mut k: usize = 0;
    while k < 32
        invariant
            k <= 32,
            hex@.len() == k,
            forall|j: int| 0 <= j < k ==> hex@[j] == hex_digit(id_nibble(u, j)),
        decreases 32 - k,
    {
        let shift: u128 = (124 - 4 * k) as u128;
        let nib: u128 = (u >> shift) & 0xfu128;
        assert(nib < 16) by (bit_vector)
            requires
                nib == (u >> shift) & 0xfu128,
        ;
        let n8: u8 = nib as u8;
        let c = if n8 < 10 {
            (48u8 + n8) as char
        } else {
            (97u8 + n8 - 10) as char
        };
        hex.push(c);
        k = k + 1;
    }
    let mut out: Vec<char> = Vec::new();
    let mut i: usize = 0;
    while i < 32
        invariant
            i <= 32,
            hex@ == id_hex(u),
            out@ == id_text(u).take((i + if i > 8 { 1int } else { 0 } + if i > 12 { 1int } else { 0 }
                + if i > 16 { 1int } else { 0 } + if i > 20 { 1int } else { 0 }) as int),
        decreases 32 - i,
    {
        if i == 8 || i == 12 || i == 16 || i == 20 {
            out.push('-');
        }
        out.push(hex[i]);
        proof {
            let h = id_hex(u);
            let t = id_text(u);
            assert(t.len() == 36);
            assert(t.subrange(0, 8) =~= h.subrange(0, 8));
        }
        i = i + 1;
    }
    proof {
        assert(out@ =~= id_text(u));
    }
    crate::text::string_of(out.as_slice())
}

} // verus!
