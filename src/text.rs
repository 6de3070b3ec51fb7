//! Small verified helpers on strings.
use vstd::prelude::*;
use vstd::utf8::*;

verus! {

broadcast use {encode_utf8_decode_utf8, vstd::slice::group_slice_axioms};

/// The string list with its elements seen as character sequences.
pub open spec fn seq_of_strings(v: Seq<String>) -> Seq<Seq<char>> {
    v.map_values(|s: String| s@)
}

/// No string occurs twice.
pub open spec fn distinct_strings(s: Seq<Seq<char>>) -> bool {
    forall|i: int, j: int| 0 <= i < s.len() && 0 <= j < s.len() && i != j ==> s[i] != s[j]
}

/// Byte-wise lexicographic order: `a` sorts before `b`.
pub open spec fn bytes_lt(a: Seq<u8>, b: Seq<u8>) -> bool
    decreases a.len(),
{
    if a.len() == 0 {
        b.len() > 0
    } else if b.len() == 0 {
        false
    } else if a[0] < b[0] {
        true
    } else if a[0] > b[0] {
        false
    } else {
        bytes_lt(a.drop_first(), b.drop_first())
    }
}

/// The order of strings: lexicographic on their UTF-8 bytes.
pub open spec fn str_lt(a: Seq<char>, b: Seq<char>) -> bool {
    bytes_lt(encode_utf8(a), encode_utf8(b))
}

/// Strictly ascending, hence without repeats.
pub open spec fn sorted_strings(s: Seq<Seq<char>>) -> bool {
    forall|i: int, j: int| 0 <= i < j < s.len() ==> str_lt(#[trigger] s[i], #[trigger] s[j])
}

proof fn lemma_bytes_lt_irreflexive(a: Seq<u8>)
    ensures
        !bytes_lt(a, a),
    decreases a.len(),
{
    if a.len() > 0 {
        lemma_bytes_lt_irreflexive(a.drop_first());
    }
}

proof fn lemma_bytes_lt_transitive(a: Seq<u8>, b: Seq<u8>, c: Seq<u8>)
    requires
        bytes_lt(a, b),
        bytes_lt(b, c),
    ensures
        bytes_lt(a, c),
    decreases a.len(),
{
    if a.len() > 0 && b.len() > 0 && c.len() > 0 && a[0] == b[0] && b[0] == c[0] {
        lemma_bytes_lt_transitive(a.drop_first(), b.drop_first(), c.drop_first());
    }
}

proof fn lemma_bytes_lt_total(a: Seq<u8>, b: Seq<u8>)
    requires
        a != b,
    ensures
        bytes_lt(a, b) || bytes_lt(b, a),
    decreases a.len(),
{
    if a.len() > 0 && b.len() > 0 && a[0] == b[0] {
        if a.drop_first() == b.drop_first() {
            assert(a =~= seq![a[0]] + a.drop_first());
            assert(b =~= seq![b[0]] + b.drop_first());
        }
        lemma_bytes_lt_total(a.drop_first(), b.drop_first());
    } else if a.len() == 0 && b.len() == 0 {
        assert(a =~= b);
    }
}

/// Strings are totally ordered.
pub proof fn lemma_str_lt_order(a: Seq<char>, b: Seq<char>, c: Seq<char>)
    ensures
        !str_lt(a, a),
        str_lt(a, b) && str_lt(b, c) ==> str_lt(a, c),
        a != b ==> str_lt(a, b) || str_lt(b, a),
{
    lemma_bytes_lt_irreflexive(encode_utf8(a));
    if str_lt(a, b) && str_lt(b, c) {
        lemma_bytes_lt_transitive(encode_utf8(a), encode_utf8(b), encode_utf8(c));
    }
    if a != b {
        encode_utf8_decode_utf8(a);
        encode_utf8_decode_utf8(b);
        lemma_bytes_lt_total(encode_utf8(a), encode_utf8(b));
    }
}

/// A sorted list has no repeats.
pub proof fn lemma_sorted_distinct(s: Seq<Seq<char>>)
    requires
        sorted_strings(s),
    ensures
        distinct_strings(s),
{
    assert forall|i: int, j: int| 0 <= i < s.len() && 0 <= j < s.len() && i != j implies s[i] != s[j] by {
        lemma_str_lt_order(s[i], s[j], s[j]);
        lemma_str_lt_order(s[j], s[i], s[i]);
    }
}

/// Whether `a` sorts before `b`.
pub fn str_less(a: &str, b: &str) -> (r: bool)
    ensures
        r == str_lt(a@, b@),
{
    let ab = a.as_bytes();
    let bb = b.as_bytes();
    let mut i: usize = 0;
    assert(ab@.skip(0) =~= ab@);
    assert(bb@.skip(0) =~= bb@);
    while i < ab.len() && i < bb.len() && ab[i] == bb[i]
        invariant
            ab@ == encode_utf8(a@),
            bb@ == encode_utf8(b@),
            i <= ab@.len(),
            i <= bb@.len(),
            bytes_lt(ab@, bb@) == bytes_lt(ab@.skip(i as int), bb@.skip(i as int)),
        decreases ab.len() - i,
    {
        assert(ab@.skip(i as int).drop_first() =~= ab@.skip(i + 1));
        assert(bb@.skip(i as int).drop_first() =~= bb@.skip(i + 1));
        i = i + 1;
    }
    if i == ab.len() {
        i < bb.len()
    } else if i == bb.len() {
        false
    } else {
        ab[i] < bb[i]
    }
}

/// Inserts `s` into the ascending list `out`, unless `out` already holds
/// it; `out` stays ascending.
pub fn insert_sorted(out: &mut Vec<String>, s: &str)
    requires
        sorted_strings(seq_of_strings(old(out)@)),
    ensures
        sorted_strings(seq_of_strings(final(out)@)),
        distinct_strings(seq_of_strings(final(out)@)),
        forall|x: Seq<char>|
            seq_of_strings(final(out)@).contains(x) <==> (seq_of_strings(old(out)@).contains(x) || x
                == s@),
{
    let ghost o = seq_of_strings(out@);
    let mut i: usize = 0;
    while i < out.len() && str_less(out[i].as_str(), s)
        invariant
            o == seq_of_strings(out@),
            out@ == old(out)@,
            sorted_strings(o),
            i <= out@.len(),
            forall|k: int| 0 <= k < i ==> str_lt(#[trigger] o[k], s@),
        decreases out.len() - i,
    {
        i = i + 1;
    }
    if i < out.len() && str_eq(out[i].as_str(), s) {
        proof {
            lemma_sorted_distinct(o);
            assert(o[i as int] == s@);
        }
        return;
    }
    proof {
        if i < o.len() {
            lemma_str_lt_order(o[i as int], s@, s@);
        }
        assert forall|k: int| i <= k < o.len() implies str_lt(s@, #[trigger] o[k]) by {
            lemma_str_lt_order(s@, o[i as int], o[k]);
        }
    }
    out.insert(i, s.to_owned());
    proof {
        let n = seq_of_strings(out@);
        assert(n =~= o.insert(i as int, s@));
        assert forall|a: int, b: int| 0 <= a < b < n.len() implies str_lt(#[trigger] n[a], #[trigger] n[b]) by {
            if b < i {
            } else if a < i && b == i {
            } else if a < i && b > i {
                lemma_str_lt_order(n[a], s@, n[b]);
            } else if a == i {
            } else {
                assert(n[a] == o[a - 1] && n[b] == o[b - 1]);
            }
        }
        lemma_sorted_distinct(n);
        assert forall|x: Seq<char>| n.contains(x) <==> (o.contains(x) || x == s@) by {
            if n.contains(x) {
                let k = choose|k: int| 0 <= k < n.len() && n[k] == x;
                if k < i {
                    assert(o[k] == x);
                } else if k > i {
                    assert(o[k - 1] == x);
                }
            }
            if o.contains(x) {
                let k = choose|k: int| 0 <= k < o.len() && o[k] == x;
                if k < i {
                    assert(n[k] == x);
                } else {
                    assert(n[k + 1] == x);
                }
            }
            if x == s@ {
                assert(n[i as int] == x);
            }
        }
    }
}

/// Compares two strings character by character (through their UTF-8 bytes).
pub fn str_eq(a: &str, b: &str) -> (r: bool)
    ensures
        r == (a@ == b@),
{
    let ab = a.as_bytes();
    let bb = b.as_bytes();
    proof {
        encode_utf8_decode_utf8(a@);
        encode_utf8_decode_utf8(b@);
    }
    if ab.len() != bb.len() {
        assert(ab@ != bb@);
        return false;
    }
    let mut i: usize = 0;
    while i < ab.len()
        invariant
            ab.len() == bb.len(),
            ab@ == encode_utf8(a@),
            bb@ == encode_utf8(b@),
            0 <= i <= ab.len(),
            ab@.subrange(0, i as int) == bb@.subrange(0, i as int),
        decreases ab.len() - i,
    {
        if ab[i] != bb[i] {
            assert(ab@[i as int] != bb@[i as int]);
            assert(ab@ != bb@);
            assert(a@ != b@);
            return false;
        }
        assert(ab@.subrange(0, i + 1) == ab@.subrange(0, i as int).push(ab@[i as int]));
        assert(bb@.subrange(0, i + 1) == bb@.subrange(0, i as int).push(bb@[i as int]));
        i = i + 1;
    }
    assert(ab@ == ab@.subrange(0, ab@.len() as int));
    assert(bb@ == bb@.subrange(0, bb@.len() as int));
    true
}

} // verus!
