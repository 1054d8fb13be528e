//! Canonical serialization of JSON values.
//!
//! The canonical form is the compact JSON encoding (no insignificant
//! whitespace, `,` and `:` separators, standard string escapes) with every
//! object's keys in strict byte-wise lexicographic order. Two values with the
//! same model therefore serialize to the same bytes.

use vstd::prelude::*;

use crate::hexs::hex_digit;
use crate::json::{
    arr_view, keys_distinct, lemma_arr_view_index, lemma_arr_view_len, lemma_obj_view_dom,
    lemma_obj_view_finite, lemma_obj_view_get, lemma_obj_view_permutation, obj_view, JVal, Json,
};

verus! {

/// Strict byte-wise lexicographic order on byte strings.
pub open spec fn lex_lt(a: Seq<u8>, b: Seq<u8>) -> bool
    decreases a.len(),
{
    if b.len() == 0 {
        false
    } else if a.len() == 0 {
        true
    } else if a.first() < b.first() {
        true
    } else if a.first() > b.first() {
        false
    } else {
        lex_lt(a.drop_first(), b.drop_first())
    }
}

/// The order is irreflexive.
pub proof fn lemma_lex_lt_irrefl(a: Seq<u8>)
    ensures
        !lex_lt(a, a),
    decreases a.len(),
{
    if a.len() > 0 {
        lemma_lex_lt_irrefl(a.drop_first());
    }
}

/// Distinct byte strings are ordered one way or the other.
pub proof fn lemma_lex_lt_connected(a: Seq<u8>, b: Seq<u8>)
    requires
        a != b,
    ensures
        lex_lt(a, b) || lex_lt(b, a),
    decreases a.len(),
{
    if a.len() == 0 {
        assert(b.len() > 0) by {
            if b.len() == 0 {
                assert(a =~= b);
            }
        }
    } else if b.len() == 0 {
    } else if a.first() == b.first() {
        assert(a.drop_first() != b.drop_first()) by {
            if a.drop_first() == b.drop_first() {
                assert(a.drop_first().len() == b.drop_first().len());
                assert(a.len() == b.len());
                assert forall|i: int| 0 <= i < a.len() implies a[i] == b[i] by {
                    if i > 0 {
                        assert(a[i] == a.drop_first()[i - 1]);
                        assert(b[i] == b.drop_first()[i - 1]);
                    }
                }
                assert(a =~= b);
            }
        }
        lemma_lex_lt_connected(a.drop_first(), b.drop_first());
    }
}

/// The order is transitive.
pub proof fn lemma_lex_lt_trans(a: Seq<u8>, b: Seq<u8>, c: Seq<u8>)
    requires
        lex_lt(a, b),
        lex_lt(b, c),
    ensures
        lex_lt(a, c),
    decreases a.len(),
{
    if a.len() > 0 && b.len() > 0 && c.len() > 0 {
        if a.first() == b.first() && b.first() == c.first() {
            lemma_lex_lt_trans(a.drop_first(), b.drop_first(), c.drop_first());
        }
    }
}

/// The order is asymmetric.
pub proof fn lemma_lex_lt_asym(a: Seq<u8>, b: Seq<u8>)
    requires
        lex_lt(a, b),
    ensures
        !lex_lt(b, a),
    decreases a.len(),
{
    if a.len() > 0 && b.len() > 0 && a.first() == b.first() {
        lemma_lex_lt_asym(a.drop_first(), b.drop_first());
    }
}

/// Keys in strictly ascending lexicographic order.
pub open spec fn strictly_sorted(ks: Seq<Seq<u8>>) -> bool {
    forall|i: int, j: int| 0 <= i < j < ks.len() ==> lex_lt(#[trigger] ks[i], #[trigger] ks[j])
}

/// The sequence enumerates exactly the members of the set.
pub open spec fn same_members(ks: Seq<Seq<u8>>, dom: Set<Seq<u8>>) -> bool {
    forall|k: Seq<u8>| #[trigger] ks.contains(k) <==> #[trigger] dom.contains(k)
}

/// The ascending enumeration of a set of keys. For the domain of any object
/// model built from entries this exists and is unique.
pub open spec fn sorted_keys(dom: Set<Seq<u8>>) -> Seq<Seq<u8>> {
    choose|ks: Seq<Seq<u8>>| strictly_sorted(ks) && same_members(ks, dom)
}

/// There is at most one ascending enumeration of a set of keys.
pub proof fn lemma_sorted_unique(x: Seq<Seq<u8>>, y: Seq<Seq<u8>>)
    requires
        strictly_sorted(x),
        strictly_sorted(y),
        forall|k: Seq<u8>| #[trigger] x.contains(k) <==> #[trigger] y.contains(k),
    ensures
        x == y,
    decreases x.len(),
{
    if x.len() == 0 {
        if y.len() > 0 {
            assert(y.contains(y.last()));
            assert(x.contains(y.last()));
        }
        assert(x =~= y);
    } else if y.len() == 0 {
        assert(x.contains(x.last()));
        assert(y.contains(x.last()));
    } else {
        assert(x.contains(x.last()));
        assert(y.contains(y.last()));
        assert(x.last() == y.last()) by {
            if x.last() != y.last() {
                assert(y.contains(x.last()));
                let iy = choose|i: int| 0 <= i < y.len() && y[i] == x.last();
                assert(iy < y.len() - 1);
                assert(lex_lt(y[iy], y[y.len() - 1]));
                assert(x.contains(y.last()));
                let ix = choose|i: int| 0 <= i < x.len() && x[i] == y.last();
                assert(ix < x.len() - 1);
                assert(lex_lt(x[ix], x[x.len() - 1]));
                lemma_lex_lt_asym(x.last(), y.last());
            }
        }
        assert forall|k: Seq<u8>| #[trigger] x.drop_last().contains(k) <==> #[trigger] y.drop_last().contains(k) by {
            lemma_sorted_drop_last_members(x, k);
            lemma_sorted_drop_last_members(y, k);
        }
        assert(strictly_sorted(x.drop_last())) by {
            assert forall|i: int, j: int| 0 <= i < j < x.drop_last().len() implies lex_lt(
                #[trigger] x.drop_last()[i],
                #[trigger] x.drop_last()[j],
            ) by {
                assert(x.drop_last()[i] == x[i]);
                assert(x.drop_last()[j] == x[j]);
            }
        }
        assert(strictly_sorted(y.drop_last())) by {
            assert forall|i: int, j: int| 0 <= i < j < y.drop_last().len() implies lex_lt(
                #[trigger] y.drop_last()[i],
                #[trigger] y.drop_last()[j],
            ) by {
                assert(y.drop_last()[i] == y[i]);
                assert(y.drop_last()[j] == y[j]);
            }
        }
        lemma_sorted_unique(x.drop_last(), y.drop_last());
        assert(x =~= x.drop_last().push(x.last()));
        assert(y =~= y.drop_last().push(y.last()));
    }
}

/// In a strictly sorted sequence, dropping the last element removes exactly
/// that member.
proof fn lemma_sorted_drop_last_members(x: Seq<Seq<u8>>, k: Seq<u8>)
    requires
        strictly_sorted(x),
        x.len() > 0,
    ensures
        x.drop_last().contains(k) <==> (x.contains(k) && k != x.last()),
{
    if x.drop_last().contains(k) {
        let i = choose|i: int| 0 <= i < x.drop_last().len() && x.drop_last()[i] == k;
        assert(x[i] == k);
        assert(lex_lt(x[i], x[x.len() - 1]));
        lemma_lex_lt_irrefl(k);
        assert(x.contains(k));
    }
    if x.contains(k) && k != x.last() {
        let i = choose|i: int| 0 <= i < x.len() && x[i] == k;
        assert(i < x.len() - 1);
        assert(x.drop_last()[i] == k);
        assert(x.drop_last().contains(k));
    }
}

/// The escape sequence the canonical encoding uses for one string byte:
/// quote and backslash get a backslash; control bytes get their short escape
/// or a `\u00` one; everything else stands for itself.
pub open spec fn esc_byte(b: u8) -> Seq<u8> {
    if b == 34 {
        seq![92u8, 34u8]
    } else if b == 92 {
        seq![92u8, 92u8]
    } else if b == 8 {
        seq![92u8, 98u8]
    } else if b == 9 {
        seq![92u8, 116u8]
    } else if b == 10 {
        seq![92u8, 110u8]
    } else if b == 12 {
        seq![92u8, 102u8]
    } else if b == 13 {
        seq![92u8, 114u8]
    } else if b < 32 {
        seq![92u8, 117u8, 48u8, 48u8, hex_digit(b / 16), hex_digit(b % 16)]
    } else {
        seq![b]
    }
}

/// The escaped form of a string body.
pub open spec fn esc(s: Seq<u8>) -> Seq<u8>
    decreases s.len(),
{
    if s.len() == 0 {
        Seq::empty()
    } else {
        esc(s.drop_last()) + esc_byte(s.last())
    }
}

/// A quoted, escaped string.
pub open spec fn quoted(s: Seq<u8>) -> Seq<u8> {
    seq![34u8] + esc(s) + seq![34u8]
}

/// Decimal digits of a natural number, most significant first.
pub open spec fn dec_u(n: nat) -> Seq<u8>
    decreases n,
{
    if n < 10 {
        seq![(48 + n) as u8]
    } else {
        dec_u(n / 10) + seq![(48 + n % 10) as u8]
    }
}

/// Decimal form of an integer, with a leading minus sign when negative.
pub open spec fn dec_i(i: int) -> Seq<u8> {
    if i < 0 {
        seq![45u8] + dec_u((-i) as nat)
    } else {
        dec_u(i as nat)
    }
}

/// The canonical bytes of a JSON model.
pub open spec fn canon(v: JVal) -> Seq<u8>
    decreases v, 1int,
{
    match v {
        JVal::Null => seq![110u8, 117u8, 108u8, 108u8],
        JVal::Bool(b) => if b {
            seq![116u8, 114u8, 117u8, 101u8]
        } else {
            seq![102u8, 97u8, 108u8, 115u8, 101u8]
        },
        JVal::Int(i) => dec_i(i),
        JVal::Str(s) => quoted(s),
        JVal::Arr(elems) => seq![91u8] + canon_elems(elems) + seq![93u8],
        JVal::Obj(m) => seq![123u8] + canon_entries(sorted_keys(m.dom()), m) + seq![125u8],
    }
}

/// The canonical bytes of an array body, comma separated.
pub open spec fn canon_elems(elems: Seq<JVal>) -> Seq<u8>
    decreases elems, 0int,
{
    if elems.len() == 0 {
        Seq::empty()
    } else {
        canon_elems(elems.drop_last()) + (if elems.len() > 1 {
            seq![44u8]
        } else {
            Seq::empty()
        }) + canon(elems.last())
    }
}

/// The canonical bytes of an object body: the given keys in order, each as
/// `"key":value`, comma separated.
pub open spec fn canon_entries(ks: Seq<Seq<u8>>, m: Map<Seq<u8>, JVal>) -> Seq<u8>
    decreases m, ks.len(),
{
    if ks.len() == 0 {
        Seq::empty()
    } else {
        canon_entries(ks.drop_last(), m) + (if ks.len() > 1 {
            seq![44u8]
        } else {
            Seq::empty()
        }) + quoted(ks.last()) + seq![58u8] + (if m.dom().finite() && m.dom().contains(ks.last()) {
            canon(m[ks.last()])
        } else {
            Seq::empty()
        })
    }
}

/// The key model that a permutation entry points at.
pub open spec fn key_at(es: Seq<(Vec<u8>, Json)>, perm: Seq<usize>, a: int) -> Seq<u8> {
    es[perm[a] as int].0@
}

/// Byte-wise lexicographic comparison of byte strings.
#[verifier::loop_isolation(false)]
pub fn bytes_lt(a: &Vec<u8>, b: &Vec<u8>) -> (r: bool)
    ensures
        r == lex_lt(a@, b@),
{
    let n: usize = if a.len() < b.len() {
        a.len()
    } else {
        b.len()
    };
    let mut i: usize = 0;
    while i < n
        invariant
            0 <= i <= n,
            forall|j: int| 0 <= j < i ==> a@[j] == b@[j],
        decreases n - i,
    {
        let x = a[i];
        let y = b[i];
        if x < y {
            proof {
                lemma_lex_lt_prefix(a@, b@, i as int);
            }
            return true;
        }
        if x > y {
            proof {
                lemma_lex_lt_prefix(a@, b@, i as int);
            }
            return false;
        }
        i = i + 1;
    }
    proof {
        lemma_lex_lt_prefix(a@, b@, n as int);
    }
    a.len() < b.len()
}

/// With the first `i` bytes equal, the order is decided by the rest.
proof fn lemma_lex_lt_prefix(a: Seq<u8>, b: Seq<u8>, i: int)
    requires
        0 <= i <= a.len(),
        0 <= i <= b.len(),
        forall|j: int| 0 <= j < i ==> a[j] == b[j],
    ensures
        lex_lt(a, b) == lex_lt(a.skip(i), b.skip(i)),
    decreases i,
{
    if i > 0 {
        assert(a.first() == b.first());
        assert forall|j: int| 0 <= j < i - 1 implies a.drop_first()[j] == b.drop_first()[j] by {
            assert(a.drop_first()[j] == a[j + 1]);
            assert(b.drop_first()[j] == b[j + 1]);
        }
        lemma_lex_lt_prefix(a.drop_first(), b.drop_first(), i - 1);
        assert(a.drop_first().skip(i - 1) =~= a.skip(i));
        assert(b.drop_first().skip(i - 1) =~= b.skip(i));
        assert(lex_lt(a, b) == lex_lt(a.drop_first(), b.drop_first()));
    } else {
        assert(a.skip(0) =~= a);
        assert(b.skip(0) =~= b);
    }
}

/// Where a key ranks among the already placed ones.
#[verifier::loop_isolation(false)]
fn insert_pos(es: &Vec<(Vec<u8>, Json)>, perm: &Vec<usize>, key: &Vec<u8>) -> (j: usize)
    requires
        forall|a: int| 0 <= a < perm@.len() ==> (#[trigger] perm@[a]) < es@.len(),
    ensures
        j <= perm@.len(),
        forall|a: int| 0 <= a < j ==> lex_lt(#[trigger] key_at(es@, perm@, a), key@),
        j < perm@.len() ==> !lex_lt(key_at(es@, perm@, j as int), key@),
{
    let mut j: usize = 0;
    while j < perm.len()
        invariant
            0 <= j <= perm@.len(),
            forall|a: int| 0 <= a < j ==> lex_lt(#[trigger] key_at(es@, perm@, a), key@),
        decreases perm@.len() - j,
    {
        let idx = perm[j];
        if !bytes_lt(&es[idx].0, key) {
            return j;
        }
        assert(key_at(es@, perm@, j as int) == es@[idx as int].0@);
        j = j + 1;
    }
    j
}

/// The order of entry indices that lists the keys ascending.
#[verifier::loop_isolation(false)]
fn sort_entry_indices(es: &Vec<(Vec<u8>, Json)>) -> (perm: Vec<usize>)
    requires
        keys_distinct(es@),
    ensures
        perm@.len() == es@.len(),
        forall|a: int| 0 <= a < perm@.len() ==> (#[trigger] perm@[a]) < es@.len(),
        forall|a: int, b: int|
            0 <= a < b < perm@.len() ==> lex_lt(
                #[trigger] key_at(es@, perm@, a),
                #[trigger] key_at(es@, perm@, b),
            ),
        forall|p: usize| p < es@.len() ==> #[trigger] perm@.contains(p),
{
    let mut perm: Vec<usize> = Vec::new();
    let mut i: usize = 0;
    while i < es.len()
        invariant
            0 <= i <= es@.len(),
            perm@.len() == i,
            forall|a: int| 0 <= a < perm@.len() ==> (#[trigger] perm@[a]) < i,
            forall|a: int, b: int|
                0 <= a < b < perm@.len() ==> lex_lt(
                    #[trigger] key_at(es@, perm@, a),
                    #[trigger] key_at(es@, perm@, b),
                ),
            forall|p: usize| p < i ==> #[trigger] perm@.contains(p),
        decreases es@.len() - i,
    {
        let j = insert_pos(es, &perm, &es[i].0);
        let ghost p0 = perm@;
        perm.insert(j, i);
        proof {
            p0.insert_ensures(j as int, i as usize);
            assert(perm@ == p0.insert(j as int, i as usize));
            // the new key differs from every placed key
            assert forall|a: int| 0 <= a < p0.len() implies es@[p0[a] as int].0@ != es@[i as int].0@ by {
                assert(p0[a] < i);
            }
            // keys before the slot stay below the new key; those after lie above it
            assert forall|a: int, b: int| 0 <= a < b < perm@.len() implies lex_lt(
                key_at(es@, perm@, a),
                key_at(es@, perm@, b),
            ) by {
                let ka = key_at(es@, perm@, a);
                let kb = key_at(es@, perm@, b);
                if a < j && b < j {
                    assert(ka == key_at(es@, p0, a));
                    assert(kb == key_at(es@, p0, b));
                } else if a < j && b == j {
                    assert(ka == key_at(es@, p0, a));
                    assert(kb == es@[i as int].0@);
                } else if a == j && b > j {
                    assert(ka == es@[i as int].0@);
                    assert(kb == key_at(es@, p0, b - 1));
                    if j < p0.len() {
                        lemma_lex_lt_connected(es@[p0[j as int] as int].0@, ka);
                        if b - 1 > j {
                            lemma_lex_lt_trans(ka, key_at(es@, p0, j as int), kb);
                        }
                    }
                } else if a < j && b > j {
                    assert(ka == key_at(es@, p0, a));
                    assert(kb == key_at(es@, p0, b - 1));
                    if b - 1 == a {
                        assert(ka == kb);
                        assert(lex_lt(ka, es@[i as int].0@));
                        assert(!lex_lt(key_at(es@, p0, j as int), es@[i as int].0@));
                        assert(a < j && a <= j - 1);
                        if a < j - 1 {
                            assert(lex_lt(key_at(es@, p0, a), key_at(es@, p0, (j - 1) as int)));
                        }
                    } else {
                        assert(lex_lt(key_at(es@, p0, a), key_at(es@, p0, b - 1)));
                    }
                } else {
                    assert(a > j || (a == j && b <= j) || a >= j);
                    if a > j {
                        assert(ka == key_at(es@, p0, a - 1));
                        assert(kb == key_at(es@, p0, b - 1));
                    }
                }
            }
            assert forall|p: usize| p < i + 1 implies #[trigger] perm@.contains(p) by {
                if p == i {
                    assert(perm@[j as int] == i as usize);
                } else {
                    assert(p0.contains(p));
                    let a = choose|a: int| 0 <= a < p0.len() && p0[a] == p;
                    if a < j {
                        assert(perm@[a] == p);
                    } else {
                        assert(perm@[a + 1] == p);
                    }
                }
            }
        }
        i = i + 1;
    }
    perm
}

/// Appends the decimal digits of `n`.
fn push_dec_u64(out: &mut Vec<u8>, n: u64)
    ensures
        final(out)@ == old(out)@ + dec_u(n as nat),
    decreases n,
{
    if n < 10 {
        out.push(48 + (n as u8));
        proof {
            assert(out@ =~= old(out)@ + dec_u(n as nat));
        }
    } else {
        push_dec_u64(out, n / 10);
        out.push(48 + ((n % 10) as u8));
        proof {
            assert(out@ =~= old(out)@ + dec_u(n as nat));
        }
    }
}

/// Appends the canonical decimal form of `i`.
fn push_int(out: &mut Vec<u8>, i: i64)
    ensures
        final(out)@ == old(out)@ + dec_i(i as int),
{
    if i < 0 {
        out.push(45);
        let wide: i128 = -(i as i128);
        proof {
            assert(0 <= wide < 0x10000000000000000);
        }
        let m: u64 = wide as u64;
        push_dec_u64(out, m);
        proof {
            assert(m as nat == (-(i as int)) as nat);
            assert(out@ =~= old(out)@ + dec_i(i as int));
        }
    } else {
        push_dec_u64(out, i as u64);
    }
}

/// Appends the escaped form of `s`.
#[verifier::loop_isolation(false)]
fn push_esc(out: &mut Vec<u8>, s: &Vec<u8>)
    ensures
        final(out)@ == old(out)@ + esc(s@),
{
    let mut i: usize = 0;
    while i < s.len()
        invariant
            0 <= i <= s@.len(),
            out@ == old(out)@ + esc(s@.take(i as int)),
        decreases s@.len() - i,
    {
        let b = s[i];
        if b == 34 {
            out.push(92);
            out.push(34);
        } else if b == 92 {
            out.push(92);
            out.push(92);
        } else if b == 8 {
            out.push(92);
            out.push(98);
        } else if b == 9 {
            out.push(92);
            out.push(116);
        } else if b == 10 {
            out.push(92);
            out.push(110);
        } else if b == 12 {
            out.push(92);
            out.push(102);
        } else if b == 13 {
            out.push(92);
            out.push(114);
        } else if b < 32 {
            out.push(92);
            out.push(117);
            out.push(48);
            out.push(48);
            let hi = b / 16;
            let lo = b % 16;
            out.push(if hi < 10 { 48 + hi } else { 87 + hi });
            out.push(if lo < 10 { 48 + lo } else { 87 + lo });
        } else {
            out.push(b);
        }
        proof {
            assert(s@.take(i + 1).drop_last() =~= s@.take(i as int));
            assert(s@.take(i + 1).last() == s@[i as int]);
            assert(out@ =~= old(out)@ + esc(s@.take(i + 1)));
        }
        i = i + 1;
    }
    proof {
        assert(s@.take(s@.len() as int) =~= s@);
    }
}

/// Appends the quoted, escaped form of `s`.
fn push_quoted(out: &mut Vec<u8>, s: &Vec<u8>)
    ensures
        final(out)@ == old(out)@ + quoted(s@),
{
    out.push(34);
    push_esc(out, s);
    out.push(34);
    proof {
        assert(out@ =~= old(out)@ + quoted(s@));
    }
}

/// Appends the canonical bytes of `j`.
#[verifier::loop_isolation(false)]
#[verifier::rlimit(80)]
fn push_canon(out: &mut Vec<u8>, j: &Json)
    requires
        j.wf(),
    ensures
        final(out)@ == old(out)@ + canon(j@),
    decreases *j,
{
    match j {
        Json::Null => {
            out.push(110);
            out.push(117);
            out.push(108);
            out.push(108);
            proof {
                assert(out@ =~= old(out)@ + canon(j@));
            }
        },
        Json::Bool(b) => {
            if *b {
                out.push(116);
                out.push(114);
                out.push(117);
                out.push(101);
            } else {
                out.push(102);
                out.push(97);
                out.push(108);
                out.push(115);
                out.push(101);
            }
            proof {
                assert(out@ =~= old(out)@ + canon(j@));
            }
        },
        Json::Int(i) => {
            push_int(out, *i);
        },
        Json::Str(s) => {
            push_quoted(out, s);
        },
        Json::Arr(items) => {
            let ghost elems = arr_view(items@);
            proof {
                lemma_arr_view_len(items@);
            }
            out.push(91);
            let ghost mid = out@;
            let mut i: usize = 0;
            while i < items.len()
                invariant
                    0 <= i <= items@.len(),
                    out@ == mid + canon_elems(elems.take(i as int)),
                decreases items@.len() - i,
            {
                if i > 0 {
                    out.push(44);
                }
                proof {
                    assert(*j == Json::Arr(*items));
                    assert(decreases_to!(*items => items@));
                    assert(decreases_to!(items@ => items@[i as int]));
                    assert(items@[i as int].wf());
                }
                push_canon(out, &items[i]);
                proof {
                    lemma_arr_view_index(items@, i as int);
                    assert(elems.take(i + 1).drop_last() =~= elems.take(i as int));
                    assert(elems.take(i + 1).last() == elems[i as int]);
                    assert(out@ =~= mid + canon_elems(elems.take(i + 1)));
                }
                i = i + 1;
            }
            out.push(93);
            proof {
                assert(elems.take(elems.len() as int) =~= elems);
                assert(out@ =~= old(out)@ + canon(j@));
            }
        },
        Json::Obj(es) => {
            let perm = sort_entry_indices(es);
            let ghost m = obj_view(es@);
            let ghost ksx = Seq::new(es@.len() as nat, |a: int| es@[perm@[a] as int].0@);
            proof {
                lemma_obj_view_finite(es@);
                lemma_obj_view_dom(es@);
                assert(strictly_sorted(ksx)) by {
                    assert forall|a: int, b: int| 0 <= a < b < ksx.len() implies lex_lt(
                        #[trigger] ksx[a],
                        #[trigger] ksx[b],
                    ) by {
                        assert(ksx[a] == key_at(es@, perm@, a));
                        assert(ksx[b] == key_at(es@, perm@, b));
                    }
                }
                assert(same_members(ksx, m.dom())) by {
                    assert forall|k: Seq<u8>| #[trigger] ksx.contains(k) implies #[trigger] m.dom().contains(k) by {
                        let a = choose|a: int| 0 <= a < ksx.len() && ksx[a] == k;
                        assert(es@[perm@[a] as int].0@ == k);
                        assert(m.contains_key(k));
                    }
                    assert forall|k: Seq<u8>| #[trigger] m.dom().contains(k) implies #[trigger] ksx.contains(k) by {
                        assert(m.contains_key(k));
                        let idx = choose|i: int| 0 <= i < es@.len() && (#[trigger] es@[i]).0@ == k;
                        assert(es@.len() == es.len());
                        assert(idx as usize as int == idx);
                        assert(perm@.contains(idx as usize));
                        let a = choose|a: int| 0 <= a < perm@.len() && perm@[a] == idx as usize;
                        assert(perm@[a] as int == idx);
                        assert(ksx[a] == es@[perm@[a] as int].0@);
                        assert(ksx[a] == k);
                    }
                }
                assert(exists|ks: Seq<Seq<u8>>|
                    strictly_sorted(ks) && same_members(ks, m.dom())) by {
                    assert(strictly_sorted(ksx) && same_members(ksx, m.dom()));
                }
                let cks = sorted_keys(m.dom());
                assert(strictly_sorted(cks) && same_members(cks, m.dom()));
                assert forall|k: Seq<u8>| #[trigger] ksx.contains(k) <==> #[trigger] cks.contains(
                    k,
                ) by {
                    assert(ksx.contains(k) <==> m.dom().contains(k));
                    assert(cks.contains(k) <==> m.dom().contains(k));
                }
                lemma_sorted_unique(ksx, cks);
                assert(ksx == sorted_keys(m.dom()));
            }
            out.push(123);
            let ghost mid = out@;
            let mut k: usize = 0;
            while k < perm.len()
                invariant
                    0 <= k <= perm@.len(),
                    out@ == mid + canon_entries(ksx.take(k as int), m),
                decreases perm@.len() - k,
            {
                if k > 0 {
                    out.push(44);
                }
                let idx = perm[k];
                push_quoted(out, &es[idx].0);
                out.push(58);
                proof {
                    assert(*j == Json::Obj(*es));
                    assert(decreases_to!(*es => es@));
                    assert(decreases_to!(es@ => es@[idx as int]));
                    assert(es@[idx as int].1.wf());
                    lemma_obj_view_get(es@, idx as int);
                }
                push_canon(out, &es[idx].1);
                proof {
                    assert(ksx.take(k + 1).drop_last() =~= ksx.take(k as int));
                    assert(ksx.take(k + 1).last() == ksx[k as int]);
                    assert(ksx[k as int] == es@[idx as int].0@);
                    assert(m.dom().contains(ksx[k as int]));
                    assert(m[ksx[k as int]] == es@[idx as int].1@);
                    assert(out@ =~= mid + canon_entries(ksx.take(k + 1), m));
                }
                k = k + 1;
            }
            out.push(125);
            proof {
                assert(ksx.take(ksx.len() as int) =~= ksx);
                assert(out@ =~= old(out)@ + canon(j@));
            }
        },
    }
}

/// The canonical bytes of a well-formed JSON value: compact encoding, object
/// keys in strict ascending byte order.
pub fn canonical_json_bytes(v: &Json) -> (r: Vec<u8>)
    requires
        v.wf(),
    ensures
        r@ == canon(v@),
{
    let mut out: Vec<u8> = Vec::new();
    push_canon(&mut out, v);
    proof {
        assert(out@ =~= canon(v@));
    }
    out
}

/// Canonicalization is order-independent: two well-formed objects whose entry
/// sequences are permutations of one another have identical canonical bytes.
pub proof fn lemma_canonical_order_independent(a: Json, b: Json)
    requires
        a.wf(),
        b.wf(),
        a is Obj,
        b is Obj,
        (a->Obj_0)@.to_multiset() == (b->Obj_0)@.to_multiset(),
    ensures
        canon(a@) == canon(b@),
{
    lemma_obj_view_permutation((a->Obj_0)@, (b->Obj_0)@);
    assert(a@ =~= b@);
}

} // verus!
