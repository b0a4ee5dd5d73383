//! The ids that feeds are reached by: random, and safe inside a URL.

use vstd::prelude::*;
use crate::outside::{base64_char, base64_text, base64_url, byte_or_zero, random_bytes, sextet};

verus! {

/// Whether a character may stand in a feed id.
pub open spec fn is_id_char(c: char) -> bool {
    ||| 'A' <= c && c <= 'Z'
    ||| 'a' <= c && c <= 'z'
    ||| '0' <= c && c <= '9'
    ||| c == '-'
    ||| c == '_'
}

/// Whether `id` can be the id of a feed: not empty, at most 64 characters, all of them safe.
pub open spec fn is_feed_id(id: Seq<char>) -> bool {
    &&& 0 < id.len() <= 64
    &&& forall|i: int| 0 <= i < id.len() ==> is_id_char(#[trigger] id[i])
}

proof fn lemma_base64_char_is_safe(n: int)
    requires
        0 <= n < 64,
    ensures
        is_id_char(base64_char(n)),
{
}

/// The id that sixteen bytes make: 22 characters, 128 bits.
pub fn encode_id(bytes: &[u8; 16]) -> (r: String)
    ensures
        r@ == base64_text(bytes@),
        r@.len() == 22,
        is_feed_id(r@),
{
    let r = base64_url(bytes);
    proof {
        assert forall|i: int| 0 <= i < r@.len() implies is_id_char(#[trigger] r@[i]) by {
            let n = sextet(bytes@, i);
            assert(0 <= n < 64);
            lemma_base64_char_is_safe(n);
        }
    }
    r
}

/// The id that drawn bytes make; `None` only where none could be drawn.
pub fn id_from_draw(drawn: Option<[u8; 16]>) -> (r: Option<String>)
    ensures
        match drawn {
            Some(bytes) => r matches Some(id) && id@ == base64_text(bytes@) && id@.len() == 22 && is_feed_id(id@),
            None => r is None,
        },
{
    match drawn {
        Some(bytes) => Some(encode_id(&bytes)),
        None => None,
    }
}

/// Whether `id` is what some sixteen bytes make.
pub open spec fn is_capability(id: Seq<char>) -> bool {
    exists|bytes: Seq<u8>| bytes.len() == 16 && id == #[trigger] base64_text(bytes)
}

/// A fresh id. `None` where the system has no randomness to give; whether it has any, and which
/// bytes come, is the system's to decide. What is made of them, [`id_from_draw`] says.
pub fn generate() -> (r: Option<String>)
    ensures
        r matches Some(id) ==> is_capability(id@) && id@.len() == 22 && is_feed_id(id@),
{
    let drawn = random_bytes();
    let r = id_from_draw(drawn);
    proof {
        if let Some(bytes) = drawn {
            assert(r->0@ == base64_text(bytes@));
        }
    }
    r
}

proof fn lemma_base64_char_injective(a: int, b: int)
    requires
        0 <= a < 64,
        0 <= b < 64,
        base64_char(a) == base64_char(b),
    ensures
        a == b,
{
    let value = |n: int| if n < 26 {
        0x41 + n
    } else if n < 52 {
        0x61 + n - 26
    } else if n < 62 {
        0x30 + n - 52
    } else if n == 62 {
        0x2d
    } else {
        0x5f
    };
    assert(base64_char(a) as u32 == value(a));
    assert(base64_char(b) as u32 == value(b));
}

proof fn lemma_bits_of_three(x: int, y: int, z: int)
    requires
        0 <= x < 256,
        0 <= y < 256,
        0 <= z < 256,
    ensures
        ({
            let bits = x * 0x1_0000 + y * 0x100 + z;
            &&& bits / 0x4_0000 == x / 4
            &&& bits / 0x1000 % 64 == x % 4 * 16 + y / 16
            &&& bits / 64 % 64 == y % 16 * 4 + z / 64
            &&& bits % 64 == z % 64
        }),
{
    let bits = x * 0x1_0000 + y * 0x100 + z;
    assert(bits / 0x1000 == x * 16 + y / 16);
    assert((x * 16 + y / 16) % 64 == x % 4 * 16 + y / 16);
    assert(bits / 64 == x * 1024 + y * 4 + z / 64);
    assert((x * 1024 + y * 4 + z / 64) % 64 == y % 16 * 4 + z / 64);
}

proof fn lemma_group_of_three(x: int, y: int, z: int, u: int, v: int, w: int)
    requires
        0 <= x < 256 && 0 <= y < 256 && 0 <= z < 256,
        0 <= u < 256 && 0 <= v < 256 && 0 <= w < 256,
        x / 4 == u / 4,
        x % 4 * 16 + y / 16 == u % 4 * 16 + v / 16,
        y % 16 * 4 + z / 64 == v % 16 * 4 + w / 64,
        z % 64 == w % 64,
    ensures
        x == u,
        y == v,
        z == w,
{
}

proof fn lemma_sextets_of_group(data: Seq<u8>, g: int)
    requires
        data.len() == 16,
        0 <= g < 6,
    ensures
        ({
            let x = byte_or_zero(data, 3 * g);
            let y = byte_or_zero(data, 3 * g + 1);
            let z = byte_or_zero(data, 3 * g + 2);
            &&& 0 <= x < 256 && 0 <= y < 256 && 0 <= z < 256
            &&& sextet(data, 4 * g) == x / 4
            &&& sextet(data, 4 * g + 1) == x % 4 * 16 + y / 16
            &&& sextet(data, 4 * g + 2) == y % 16 * 4 + z / 64
            &&& sextet(data, 4 * g + 3) == z % 64
        }),
{
    let x = byte_or_zero(data, 3 * g);
    let y = byte_or_zero(data, 3 * g + 1);
    let z = byte_or_zero(data, 3 * g + 2);
    lemma_bits_of_three(x, y, z);
    assert((4 * g) / 4 == g && (4 * g + 1) / 4 == g && (4 * g + 2) / 4 == g && (4 * g + 3) / 4 == g);
    assert((4 * g) % 4 == 0 && (4 * g + 1) % 4 == 1 && (4 * g + 2) % 4 == 2 && (4 * g + 3) % 4 == 3);
}

/// No bit of the sixteen bytes is lost: two ids are the same only if the bytes are.
pub proof fn law_ids_keep_every_bit(a: Seq<u8>, b: Seq<u8>)
    requires
        a.len() == 16,
        b.len() == 16,
        base64_text(a) == base64_text(b),
    ensures
        a == b,
{
    assert forall|i: int| 0 <= i < 22 implies #[trigger] sextet(a, i) == sextet(b, i) by {
        assert(base64_text(a)[i] == base64_char(sextet(a, i)));
        assert(base64_text(b)[i] == base64_char(sextet(b, i)));
        lemma_base64_char_injective(sextet(a, i), sextet(b, i));
    }
    assert forall|k: int| 0 <= k < 16 implies a[k] == b[k] by {
        let g = k / 3;
        lemma_sextets_of_group(a, g);
        lemma_sextets_of_group(b, g);
        assert(sextet(a, 4 * g) == sextet(b, 4 * g));
        assert(sextet(a, 4 * g + 1) == sextet(b, 4 * g + 1));
        if g < 5 {
            assert(sextet(a, 4 * g + 2) == sextet(b, 4 * g + 2));
            assert(sextet(a, 4 * g + 3) == sextet(b, 4 * g + 3));
        }
        lemma_group_of_three(
            byte_or_zero(a, 3 * g),
            byte_or_zero(a, 3 * g + 1),
            byte_or_zero(a, 3 * g + 2),
            byte_or_zero(b, 3 * g),
            byte_or_zero(b, 3 * g + 1),
            byte_or_zero(b, 3 * g + 2),
        );
        assert(k == 3 * g || k == 3 * g + 1 || k == 3 * g + 2);
    }
    assert(a =~= b);
}

} // verus!
