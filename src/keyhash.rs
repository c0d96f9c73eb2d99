use vstd::prelude::*;

verus! {

/// Lowercase hexadecimal digit of a nibble.
pub open spec fn hex_digit(n: int) -> char {
    if n < 10 {
        (n + 48) as char
    } else {
        (n + 87) as char
    }
}

/// Lowercase hexadecimal text of a byte sequence: two digits per byte, high nibble first.
pub open spec fn hex_of(b: Seq<u8>) -> Seq<char>
    decreases b.len(),
{
    if b.len() == 0 {
        Seq::empty()
    } else {
        hex_of(b.drop_last()) + seq![hex_digit(b.last() as int / 16), hex_digit(b.last() as int % 16)]
    }
}

/// `0x` followed by the lowercase hexadecimal text of `b`.
pub open spec fn prefixed_hex(b: Seq<u8>) -> Seq<char> {
    seq!['0', 'x'] + hex_of(b)
}

/// Relies on hex::encode: each byte becomes two digits of "0123456789abcdef",
/// high nibble first, in the order of the input.
#[verifier::external_body]
fn encode_hex(b: &Vec<u8>) -> (r: String)
    ensures
        r@ == hex_of(b@),
{
    hex::encode(b.as_slice())
}

/// The canonical key hash of raw key bytes: `0x` followed by their lowercase hex.
pub fn key_hash(key: &Vec<u8>) -> (r: String)
    ensures
        r@ == prefixed_hex(key@),
{
    let mut r = String::from_str("0x");
    let h = encode_hex(key);
    proof {
        reveal_strlit("0x");
    }
    r.append(h.as_str());
    assert(r@ =~= prefixed_hex(key@));
    r
}

pub proof fn lemma_hex_of_len(b: Seq<u8>)
    ensures
        hex_of(b).len() == 2 * b.len(),
    decreases b.len(),
{
    if b.len() > 0 {
        lemma_hex_of_len(b.drop_last());
    }
}

proof fn lemma_hex_digit_injective(x: int, y: int)
    requires
        0 <= x < 16,
        0 <= y < 16,
        hex_digit(x) == hex_digit(y),
    ensures
        x == y,
{
}

/// Distinct byte sequences have distinct hex text.
pub proof fn lemma_hex_of_injective(a: Seq<u8>, b: Seq<u8>)
    requires
        hex_of(a) == hex_of(b),
    ensures
        a == b,
    decreases a.len(),
{
    lemma_hex_of_len(a);
    lemma_hex_of_len(b);
    if a.len() > 0 {
        let ha = hex_of(a);
        let hp = hex_of(a.drop_last());
        let hq = hex_of(b.drop_last());
        lemma_hex_of_len(a.drop_last());
        lemma_hex_of_len(b.drop_last());
        assert(ha[ha.len() - 2] == hex_digit(a.last() as int / 16));
        assert(ha[ha.len() - 1] == hex_digit(a.last() as int % 16));
        assert(hex_of(b)[ha.len() - 2] == hex_digit(b.last() as int / 16));
        assert(hex_of(b)[ha.len() - 1] == hex_digit(b.last() as int % 16));
        lemma_hex_digit_injective(a.last() as int / 16, b.last() as int / 16);
        lemma_hex_digit_injective(a.last() as int % 16, b.last() as int % 16);
        assert(hp =~= ha.take(ha.len() - 2));
        assert(hq =~= hex_of(b).take(ha.len() - 2));
        lemma_hex_of_injective(a.drop_last(), b.drop_last());
        assert(a =~= a.drop_last().push(a.last()));
        assert(b =~= b.drop_last().push(b.last()));
    }
}

/// The key hash is lowercase hex, `0x`-prefixed, two digits per byte, and
/// distinct keys never share a hash.
pub proof fn lemma_key_hash_injective(a: Seq<u8>, b: Seq<u8>)
    ensures
        prefixed_hex(a).len() == 2 + 2 * a.len(),
        prefixed_hex(a).take(2) == seq!['0', 'x'],
        forall|i: int| 2 <= i < prefixed_hex(a).len() ==> {
            let c = #[trigger] prefixed_hex(a)[i];
            ('0' <= c <= '9') || ('a' <= c <= 'f')
        },
        prefixed_hex(a) == prefixed_hex(b) ==> a == b,
{
    lemma_hex_of_len(a);
    lemma_hex_of_digits(a);
    assert(prefixed_hex(a).take(2) =~= seq!['0', 'x']);
    if prefixed_hex(a) == prefixed_hex(b) {
        lemma_hex_of_len(b);
        assert(hex_of(a) =~= prefixed_hex(a).skip(2));
        assert(hex_of(b) =~= prefixed_hex(b).skip(2));
        lemma_hex_of_injective(a, b);
    }
}

proof fn lemma_hex_of_digits(b: Seq<u8>)
    ensures
        forall|i: int| 0 <= i < hex_of(b).len() ==> {
            let c = #[trigger] hex_of(b)[i];
            ('0' <= c <= '9') || ('a' <= c <= 'f')
        },
    decreases b.len(),
{
    lemma_hex_of_len(b);
    if b.len() > 0 {
        lemma_hex_of_digits(b.drop_last());
        lemma_hex_of_len(b.drop_last());
    }
}

} // verus!
