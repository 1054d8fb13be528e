//! Lowercase hex encoding and decoding of byte strings, with round-trip proofs.

use vstd::prelude::*;

verus! {

/// The lowercase ASCII hex digit standing for a value below 16.
pub open spec fn hex_digit(n: u8) -> u8 {
    if n < 10 {
        (48 + n) as u8
    } else {
        (87 + n) as u8
    }
}

/// Lowercase hex encoding of a byte string: two digits per byte, high nibble first.
pub open spec fn hex_of(bs: Seq<u8>) -> Seq<u8>
    decreases bs.len(),
{
    if bs.len() == 0 {
        Seq::empty()
    } else {
        hex_of(bs.drop_last()) + seq![hex_digit(bs.last() / 16), hex_digit(bs.last() % 16)]
    }
}

/// ASCII hex digits; decoding accepts both cases.
pub open spec fn is_hex_digit(c: u8) -> bool {
    (48 <= c && c <= 57) || (97 <= c && c <= 102) || (65 <= c && c <= 70)
}

/// The value of an ASCII hex digit.
pub open spec fn hex_val(c: u8) -> u8 {
    if 48 <= c && c <= 57 {
        (c - 48) as u8
    } else if 97 <= c {
        (c - 87) as u8
    } else {
        (c - 55) as u8
    }
}

pub open spec fn all_hex(s: Seq<u8>) -> bool {
    forall|i: int| 0 <= i < s.len() ==> is_hex_digit(#[trigger] s[i])
}

/// The bytes written by an even-length hex digit string.
pub open spec fn hex_parse(s: Seq<u8>) -> Seq<u8>
    decreases s.len(),
{
    if s.len() < 2 {
        Seq::empty()
    } else {
        hex_parse(s.take(s.len() - 2)) + seq![
            (16 * hex_val(s[s.len() - 2]) + hex_val(s[s.len() - 1])) as u8,
        ]
    }
}

/// Encodes a byte string as lowercase hex.
pub fn hex_encode(bs: &Vec<u8>) -> (r: Vec<u8>)
    ensures
        r@ == hex_of(bs@),
        r@.len() == 2 * bs@.len(),
{
    proof {
        lemma_hex_of_len(bs@);
    }
    let mut out: Vec<u8> = Vec::new();
    let mut i: usize = 0;
    while i < bs.len()
        invariant
            0 <= i <= bs@.len(),
            out@ == hex_of(bs@.take(i as int)),
        decreases bs@.len() - i,
    {
        let b = bs[i];
        let hi = b / 16;
        let lo = b % 16;
        out.push(if hi < 10 { 48 + hi } else { 87 + hi });
        out.push(if lo < 10 { 48 + lo } else { 87 + lo });
        proof {
            let t = bs@.take(i + 1);
            assert(t.drop_last() =~= bs@.take(i as int));
            assert(t.last() == bs@[i as int]);
        }
        i = i + 1;
    }
    proof {
        assert(bs@.take(bs@.len() as int) =~= bs@);
        lemma_hex_of_len(bs@);
    }
    out
}

/// Decodes a hex digit string; `None` exactly when the length is odd or some
/// character is not a hex digit. Both digit cases are accepted.
pub fn hex_decode(s: &Vec<u8>) -> (r: Option<Vec<u8>>)
    ensures
        match r {
            Some(bs) => s@.len() % 2 == 0 && all_hex(s@) && bs@ == hex_parse(s@) && 2 * bs@.len()
                == s@.len(),
            None => !(s@.len() % 2 == 0 && all_hex(s@)),
        },
{
    if s.len() % 2 != 0 {
        return None;
    }
    let mut out: Vec<u8> = Vec::new();
    let mut i: usize = 0;
    while i < s.len()
        invariant
            s@.len() % 2 == 0,
            0 <= i <= s@.len(),
            i % 2 == 0,
            out@ == hex_parse(s@.take(i as int)),
            2 * out@.len() == i,
            forall|j: int| 0 <= j < i ==> is_hex_digit(#[trigger] s@[j]),
        decreases s@.len() - i,
    {
        let c1 = s[i];
        let c2 = s[i + 1];
        let v1 = match hex_digit_value(c1) {
            Some(v) => v,
            None => {
                return None;
            },
        };
        let v2 = match hex_digit_value(c2) {
            Some(v) => v,
            None => {
                return None;
            },
        };
        out.push(16 * v1 + v2);
        proof {
            let t = s@.take(i + 2);
            assert(t.take(t.len() - 2) =~= s@.take(i as int));
            assert(t[t.len() - 2] == s@[i as int]);
            assert(t[t.len() - 1] == s@[i + 1]);
            assert(out@ =~= hex_parse(s@.take(i + 2)));
        }
        i = i + 2;
    }
    proof {
        assert(s@.take(s@.len() as int) =~= s@);
    }
    Some(out)
}

/// The value of one ASCII character as a hex digit, if it is one.
fn hex_digit_value(c: u8) -> (r: Option<u8>)
    ensures
        match r {
            Some(v) => is_hex_digit(c) && v == hex_val(c) && v < 16,
            None => !is_hex_digit(c),
        },
{
    if 48 <= c && c <= 57 {
        Some(c - 48)
    } else if 97 <= c && c <= 102 {
        Some(c - 87)
    } else if 65 <= c && c <= 70 {
        Some(c - 55)
    } else {
        None
    }
}

/// Hex encoding writes two digits per byte.
pub proof fn lemma_hex_of_len(bs: Seq<u8>)
    ensures
        hex_of(bs).len() == 2 * bs.len(),
    decreases bs.len(),
{
    if bs.len() > 0 {
        lemma_hex_of_len(bs.drop_last());
    }
}

/// Hex encoding emits only hex digits.
pub proof fn lemma_hex_of_all_hex(bs: Seq<u8>)
    ensures
        all_hex(hex_of(bs)),
    decreases bs.len(),
{
    lemma_hex_of_len(bs);
    if bs.len() > 0 {
        lemma_hex_of_all_hex(bs.drop_last());
        lemma_hex_of_len(bs.drop_last());
        let s = hex_of(bs);
        assert forall|i: int| 0 <= i < s.len() implies is_hex_digit(#[trigger] s[i]) by {
            if i < s.len() - 2 {
                assert(s[i] == hex_of(bs.drop_last())[i]);
            }
        }
    }
}

/// Decoding inverts encoding.
pub proof fn lemma_hex_round_trip(bs: Seq<u8>)
    ensures
        hex_parse(hex_of(bs)) == bs,
    decreases bs.len(),
{
    lemma_hex_of_len(bs);
    if bs.len() == 0 {
        assert(hex_parse(hex_of(bs)) =~= bs);
    } else {
        lemma_hex_round_trip(bs.drop_last());
        lemma_hex_of_len(bs.drop_last());
        let s = hex_of(bs);
        assert(s.take(s.len() - 2) =~= hex_of(bs.drop_last()));
        assert(hex_val(hex_digit(bs.last() / 16)) == bs.last() / 16);
        assert(hex_val(hex_digit(bs.last() % 16)) == bs.last() % 16);
        assert(16 * (bs.last() / 16) + bs.last() % 16 == bs.last());
        assert(hex_parse(hex_of(bs)) =~= bs);
    }
}

} // verus!
