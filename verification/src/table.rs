//! A table of names to lists of works, and sorting each list.
//!
//! The table is an association list; sorting a list of strings goes by the
//! byte order of their UTF-8 encodings, which is the order the standard
//! library's string comparison uses.

use vstd::prelude::*;
use vstd::string::StringSliceAdditionalSpecFns;
use vstd::utf8::encode_utf8;

verus! {

/// The UTF-8 bytes of a string: the sequence its ordering goes by.
pub open spec fn string_bytes(s: String) -> Seq<u8> {
    encode_utf8(s@)
}

/// Byte-lexicographic "less or equal", the order of the standard library's
/// string comparison.
pub open spec fn lex_le(a: Seq<u8>, b: Seq<u8>) -> bool
    decreases a.len(),
{
    if a.len() == 0 {
        true
    } else if b.len() == 0 {
        false
    } else if a[0] < b[0] {
        true
    } else if a[0] > b[0] {
        false
    } else {
        lex_le(a.drop_first(), b.drop_first())
    }
}

/// Any two byte sequences compare one way or the other.
pub proof fn lemma_lex_total(a: Seq<u8>, b: Seq<u8>)
    ensures
        lex_le(a, b) || lex_le(b, a),
    decreases a.len(),
{
    if a.len() > 0 && b.len() > 0 && a[0] == b[0] {
        lemma_lex_total(a.drop_first(), b.drop_first());
    }
}

/// Byte-lexicographic order is transitive.
pub proof fn lemma_lex_trans(a: Seq<u8>, b: Seq<u8>, c: Seq<u8>)
    requires
        lex_le(a, b),
        lex_le(b, c),
    ensures
        lex_le(a, c),
    decreases a.len(),
{
    if a.len() > 0 && b.len() > 0 && c.len() > 0 && a[0] == b[0] && b[0] == c[0] {
        lemma_lex_trans(a.drop_first(), b.drop_first(), c.drop_first());
    }
}

/// Comparing two sequences with equal prefixes of length `i` is comparing
/// what remains after those prefixes.
proof fn lemma_lex_skip(a: Seq<u8>, b: Seq<u8>, i: int)
    requires
        0 <= i <= a.len(),
        i <= b.len(),
        forall|j: int| 0 <= j < i ==> a[j] == b[j],
    ensures
        lex_le(a, b) == lex_le(a.skip(i), b.skip(i)),
    decreases i,
{
    if i > 0 {
        lemma_lex_skip(a.drop_first(), b.drop_first(), i - 1);
        assert(a.drop_first().skip(i - 1) =~= a.skip(i));
        assert(b.drop_first().skip(i - 1) =~= b.skip(i));
    } else {
        assert(a.skip(0) =~= a);
        assert(b.skip(0) =~= b);
    }
}

/// Compare two strings in byte-lexicographic order.
pub fn str_le(a: &str, b: &str) -> (r: bool)
    ensures
        r == lex_le(a.spec_bytes(), b.spec_bytes()),
{
    let ab = a.as_bytes();
    let bb = b.as_bytes();
    let an = ab.len();
    let bn = bb.len();
    let mut i: usize = 0;
    while i < an && i < bn
        invariant
            i <= an == ab@.len(),
            i <= bn == bb@.len(),
            ab@ == a.spec_bytes(),
            bb@ == b.spec_bytes(),
            forall|j: int| 0 <= j < i ==> ab@[j] == bb@[j],
        decreases an - i,
    {
        let x = ab[i];
        let y = bb[i];
        if x != y {
            proof {
                lemma_lex_skip(ab@, bb@, i as int);
                assert(ab@.skip(i as int)[0] == x);
                assert(bb@.skip(i as int)[0] == y);
            }
            return x < y;
        }
        i = i + 1;
    }
    proof {
        lemma_lex_skip(ab@, bb@, i as int);
        if an <= bn {
            assert(ab@.skip(i as int).len() == 0);
        } else {
            assert(bb@.skip(i as int).len() == 0);
            assert(ab@.skip(i as int).len() > 0);
        }
    }
    an <= bn
}

/// A list of strings in byte-lexicographic order.
pub open spec fn strings_sorted(s: Seq<String>) -> bool {
    forall|i: int, j: int|
        0 <= i < j < s.len() ==> lex_le(
            string_bytes(#[trigger] s[i]),
            string_bytes(#[trigger] s[j]),
        )
}

/// Inserting an element anywhere adds exactly it to the sequence's multiset.
proof fn lemma_insert_to_multiset<A>(s: Seq<A>, i: int, a: A)
    requires
        0 <= i <= s.len(),
    ensures
        s.insert(i, a).to_multiset() == s.to_multiset().insert(a),
{
    broadcast use vstd::seq_lib::group_to_multiset_ensures;

    let t = s.insert(i, a);
    assert(t.remove(i) =~= s);
    assert(t.to_multiset().remove(t[i]) =~= s.to_multiset());
    assert(t[i] == a);
    assert(t.to_multiset().count(a) > 0);
    assert(t.to_multiset() =~= s.to_multiset().insert(a));
}

/// The position in the sorted prefix `v[0..upto]` where `x` belongs: every
/// string before it compares at or below `x`, every string from it on
/// compares above `x`.
fn insert_pos(v: &Vec<String>, upto: usize, x: &String) -> (pos: usize)
    requires
        upto <= v@.len(),
        forall|i: int, j: int|
            0 <= i < j < upto ==> lex_le(string_bytes(#[trigger] v@[i]), string_bytes(#[trigger] v@[j])),
    ensures
        pos <= upto,
        forall|m: int| 0 <= m < pos ==> lex_le(string_bytes(#[trigger] v@[m]), string_bytes(*x)),
        forall|m: int| pos <= m < upto ==> !lex_le(string_bytes(#[trigger] v@[m]), string_bytes(*x)),
{
    let mut pos: usize = 0;
    loop
        invariant
            pos <= upto <= v@.len(),
            forall|m: int|
                0 <= m < pos ==> lex_le(string_bytes(#[trigger] v@[m]), string_bytes(*x)),
        ensures
            pos <= upto,
            forall|m: int|
                0 <= m < pos ==> lex_le(string_bytes(#[trigger] v@[m]), string_bytes(*x)),
            pos == upto || !lex_le(string_bytes(v@[pos as int]), string_bytes(*x)),
        decreases upto - pos,
    {
        if pos == upto {
            break ;
        }
        let below = str_le(v[pos].as_str(), x.as_str());
        if !below {
            break ;
        }
        pos = pos + 1;
    }
    proof {
        assert forall|m: int|
            pos <= m < upto implies !lex_le(
            string_bytes(#[trigger] v@[m]),
            string_bytes(*x),
        ) by {
            if m > pos && lex_le(string_bytes(v@[m]), string_bytes(*x)) {
                assert(lex_le(string_bytes(v@[pos as int]), string_bytes(v@[m])));
                lemma_lex_trans(string_bytes(v@[pos as int]), string_bytes(v@[m]), string_bytes(*x));
                assert(false);
            }
        }
    }
    pos
}

/// Sort a list of strings into byte-lexicographic order. The list afterwards
/// holds exactly the same strings, each as often as before.
pub fn sort_strings(v: &mut Vec<String>)
    ensures
        strings_sorted(final(v)@),
        final(v)@.to_multiset() == old(v)@.to_multiset(),
        final(v)@.len() == old(v)@.len(),
{
    broadcast use vstd::seq_lib::group_to_multiset_ensures;

    let mut n: usize = 1;
    while n < v.len()
        invariant
            1 <= n,
            v@.len() == old(v)@.len(),
            v@.to_multiset() == old(v)@.to_multiset(),
            forall|i: int, j: int|
                0 <= i < j < n && j < v@.len() ==> lex_le(
                    string_bytes(#[trigger] v@[i]),
                    string_bytes(#[trigger] v@[j]),
                ),
        decreases v@.len() - n,
    {
        let ghost before = v@;
        let x = v.remove(n);
        let pos = insert_pos(v, n, &x);
        let ghost mid = v@;
        v.insert(pos, x);
        proof {
            before.to_multiset_ensures();
            lemma_insert_to_multiset(mid, pos as int, x);
            assert(before.contains(x)) by {
                assert(before[n as int] == x);
            }
            assert(before.to_multiset().count(x) > 0);
            assert(mid.to_multiset() =~= before.to_multiset().remove(x));
            assert(before.to_multiset().remove(x).insert(x) =~= before.to_multiset());
            assert(v@.to_multiset() == old(v)@.to_multiset());
            let after = v@;
            assert forall|i: int, j: int|
                0 <= i < j < n + 1 && j < after.len() implies lex_le(
                string_bytes(#[trigger] after[i]),
                string_bytes(#[trigger] after[j]),
            ) by {
                assert(forall|m: int| 0 <= m < n ==> mid[m] == before[m]);
                if i < pos {
                    assert(after[i] == mid[i]);
                }
                if pos < j {
                    assert(after[j] == mid[j - 1]);
                }
                if i == pos {
                    assert(after[i] == x);
                    lemma_lex_total(string_bytes(mid[j - 1]), string_bytes(x));
                } else if j == pos {
                    assert(after[j] == x);
                } else if i < pos && j > pos {
                    assert(lex_le(string_bytes(before[i]), string_bytes(before[j - 1])));
                }
            }
        }
        n = n + 1;
    }
}

/// A table of names, each with its list of works.
pub type Table = Vec<(String, Vec<String>)>;

/// Sort every list of works in the table. The names stay as they are, in
/// their order; each list of works afterwards is in byte-lexicographic order
/// and holds exactly the works it held before.
pub fn sort_works(table: &mut Table)
    ensures
        final(table)@.len() == old(table)@.len(),
        forall|k: int|
            0 <= k < final(table)@.len() ==> (#[trigger] final(table)@[k]).0 == old(table)@[k].0
                && strings_sorted(final(table)@[k].1@) && final(table)@[k].1@.to_multiset() == old(
                table,
            )@[k].1@.to_multiset(),
{
    let mut k: usize = 0;
    while k < table.len()
        invariant
            k <= table@.len() == old(table)@.len(),
            forall|m: int|
                0 <= m < k ==> (#[trigger] table@[m]).0 == old(table)@[m].0 && strings_sorted(
                    table@[m].1@,
                ) && table@[m].1@.to_multiset() == old(table)@[m].1@.to_multiset(),
            forall|m: int| k <= m < table@.len() ==> #[trigger] table@[m] == old(table)@[m],
        decreases table@.len() - k,
    {
        let ghost before = table@;
        let (name, mut works) = table.remove(k);
        sort_strings(&mut works);
        table.insert(k, (name, works));
        proof {
            assert forall|m: int| 0 <= m < table@.len() && m != k implies #[trigger] table@[m]
                == before[m] by {
                assert(table@[m] == before.remove(k as int).insert(k as int, table@[k as int])[m]);
            }
        }
        k = k + 1;
    }
}

} // verus!
