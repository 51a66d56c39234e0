use vstd::prelude::*;
use vstd::utf8::{encode_utf8, encode_utf8_decode_utf8};

verus! {

/// Byte sequences in lexicographic order: the first differing byte decides,
/// and a proper prefix comes first.
pub open spec fn bytes_lt(a: Seq<u8>, b: Seq<u8>) -> bool
    decreases a.len(),
{
    if a.len() == 0 {
        b.len() > 0
    } else if b.len() == 0 {
        false
    } else if a[0] != b[0] {
        a[0] < b[0]
    } else {
        bytes_lt(a.drop_first(), b.drop_first())
    }
}

/// Strings in the order Rust gives them: that of their UTF-8 bytes.
pub open spec fn str_lt(a: Seq<char>, b: Seq<char>) -> bool {
    bytes_lt(encode_utf8(a), encode_utf8(b))
}

/// No byte sequence comes before itself.
pub proof fn lemma_bytes_lt_irreflexive(a: Seq<u8>)
    ensures
        !bytes_lt(a, a),
    decreases a.len(),
{
    if a.len() > 0 {
        lemma_bytes_lt_irreflexive(a.drop_first());
    }
}

/// The order is transitive.
pub proof fn lemma_bytes_lt_transitive(a: Seq<u8>, b: Seq<u8>, c: Seq<u8>)
    requires
        bytes_lt(a, b),
        bytes_lt(b, c),
    ensures
        bytes_lt(a, c),
    decreases a.len(),
{
    if a.len() > 0 && b.len() > 0 && c.len() > 0 && a[0] == b[0] && b[0] == c[0] {
        lemma_bytes_lt_transitive(a.drop_first(), b.drop_first(), c.drop_first());
    }
}

/// Of two different byte sequences, one comes first; never both.
pub proof fn lemma_bytes_lt_total(a: Seq<u8>, b: Seq<u8>)
    ensures
        a != b ==> bytes_lt(a, b) || bytes_lt(b, a),
        !(bytes_lt(a, b) && bytes_lt(b, a)),
    decreases a.len(),
{
    if a.len() > 0 && b.len() > 0 && a[0] == b[0] {
        lemma_bytes_lt_total(a.drop_first(), b.drop_first());
        if a.drop_first() == b.drop_first() {
            assert(a =~= seq![a[0]] + a.drop_first());
            assert(b =~= seq![b[0]] + b.drop_first());
        }
    } else if a.len() == 0 && b.len() == 0 {
        assert(a =~= b);
    }
}

/// The string order is a strict total order.
pub proof fn lemma_str_lt_order(a: Seq<char>, b: Seq<char>, c: Seq<char>)
    ensures
        !str_lt(a, a),
        a != b ==> str_lt(a, b) || str_lt(b, a),
        !(str_lt(a, b) && str_lt(b, a)),
        str_lt(a, b) && str_lt(b, c) ==> str_lt(a, c),
{
    lemma_bytes_lt_irreflexive(encode_utf8(a));
    lemma_bytes_lt_total(encode_utf8(a), encode_utf8(b));
    if a != b {
        encode_utf8_decode_utf8(a);
        encode_utf8_decode_utf8(b);
    }
    if str_lt(a, b) && str_lt(b, c) {
        lemma_bytes_lt_transitive(encode_utf8(a), encode_utf8(b), encode_utf8(c));
    }
}

/// Compares two byte sequences in lexicographic order.
pub fn bytes_less(a: &[u8], b: &[u8]) -> (r: bool)
    ensures
        r == bytes_lt(a@, b@),
{
    let mut i: usize = 0;
    assert(a@.skip(0) =~= a@);
    assert(b@.skip(0) =~= b@);
    while i < a.len() && i < b.len()
        invariant
            i <= a.len(),
            i <= b.len(),
            bytes_lt(a@, b@) == bytes_lt(a@.skip(i as int), b@.skip(i as int)),
        decreases a.len() - i,
    {
        assert(a@.skip(i as int)[0] == a@[i as int]);
        assert(b@.skip(i as int)[0] == b@[i as int]);
        if a[i] != b[i] {
            return a[i] < b[i];
        }
        assert(a@.skip(i as int).drop_first() =~= a@.skip(i + 1));
        assert(b@.skip(i as int).drop_first() =~= b@.skip(i + 1));
        i = i + 1;
    }
    i == a.len() && i < b.len()
}

/// Whether `a` comes before `b` in Rust's order of strings.
pub fn str_less(a: &String, b: &String) -> (r: bool)
    ensures
        r == str_lt(a@, b@),
{
    bytes_less(a.as_str().as_bytes(), b.as_str().as_bytes())
}

/// The list is in strictly increasing string order.
pub open spec fn strictly_ascending(s: Seq<String>) -> bool {
    forall|i: int, j: int| 0 <= i < j < s.len() ==> str_lt(#[trigger] s[i]@, #[trigger] s[j]@)
}

/// Whether some string of the list views as `a`.
pub open spec fn has_view(s: Seq<String>, a: Seq<char>) -> bool {
    exists|i: int| 0 <= i < s.len() && #[trigger] s[i]@ == a
}

/// Inserts `x` into a strictly ascending list, unless it is there already.
pub fn insert_sorted(v: &mut Vec<String>, x: String)
    requires
        strictly_ascending(old(v)@),
    ensures
        strictly_ascending(final(v)@),
        forall|a: Seq<char>| #[trigger] has_view(final(v)@, a) == (has_view(old(v)@, a) || a == x@),
        final(v)@.len() == old(v)@.len() + if has_view(old(v)@, x@) { 0int } else { 1int },
{
    let ghost s = v@;
    let mut i: usize = 0;
    let mut found = false;
    while i < v.len() && !found
        invariant
            v@ == s,
            i <= s.len(),
            strictly_ascending(s),
            forall|j: int| 0 <= j < i ==> str_lt(#[trigger] s[j]@, x@),
            found ==> i < s.len() && !str_lt(s[i as int]@, x@),
        decreases s.len() - i, if found { 0int } else { 1int },
    {
        if !str_less(&v[i], &x) {
            found = true;
        } else {
            i = i + 1;
        }
    }
    if i < v.len() && v[i] == x {
        proof {
            assert(s[i as int]@ == x@);
            assert(has_view(s, x@));
        }
        return;
    }
    proof {
        if i < s.len() {
            lemma_str_lt_order(s[i as int]@, x@, x@);
            assert(str_lt(x@, s[i as int]@));
        }
        if has_view(s, x@) {
            let k = choose|k: int| 0 <= k < s.len() && #[trigger] s[k]@ == x@;
            lemma_str_lt_order(x@, x@, x@);
            if k >= i {
                if k > i {
                    lemma_str_lt_order(x@, s[i as int]@, s[k]@);
                }
            }
        }
    }
    v.insert(i, x);
    proof {
        let t = v@;
        assert(t =~= s.insert(i as int, x));
        assert forall|a: int, b: int| 0 <= a < b < t.len() implies str_lt(#[trigger] t[a]@, #[trigger] t[b]@) by {
            if b < i {
                assert(t[a] == s[a] && t[b] == s[b]);
            } else if b == i {
                assert(t[a] == s[a]);
            } else if a < i {
                assert(t[a] == s[a] && t[b] == s[b - 1]);
                lemma_str_lt_order(s[a]@, x@, s[i as int]@);
                if b - 1 > i {
                    lemma_str_lt_order(x@, s[i as int]@, s[b - 1]@);
                }
                lemma_str_lt_order(s[a]@, x@, s[b - 1]@);
            } else if a == i {
                assert(t[b] == s[b - 1]);
                if b - 1 > i {
                    lemma_str_lt_order(x@, s[i as int]@, s[b - 1]@);
                }
            } else {
                assert(t[a] == s[a - 1] && t[b] == s[b - 1]);
            }
        }
        assert forall|a: Seq<char>| #[trigger] has_view(t, a) == (has_view(s, a) || a == x@) by {
            if has_view(t, a) {
                let k = choose|k: int| 0 <= k < t.len() && #[trigger] t[k]@ == a;
                if k < i {
                    assert(t[k] == s[k]);
                } else if k > i {
                    assert(t[k] == s[k - 1]);
                }
            }
            if has_view(s, a) {
                let k = choose|k: int| 0 <= k < s.len() && #[trigger] s[k]@ == a;
                if k < i {
                    assert(t[k] == s[k]);
                } else {
                    assert(t[k + 1] == s[k]);
                }
            }
            if a == x@ {
                assert(t[i as int] == x);
            }
        }
    }
}

/// Strings in the order of a length-prefixed component of a composite
/// storage key: shorter UTF-8 encodings first, then bytewise.
pub open spec fn prefixed_lt(a: Seq<char>, b: Seq<char>) -> bool {
    let ea = encode_utf8(a);
    let eb = encode_utf8(b);
    ea.len() < eb.len() || (ea.len() == eb.len() && bytes_lt(ea, eb))
}

/// The length-prefixed order is a strict total order.
pub proof fn lemma_prefixed_lt_order(a: Seq<char>, b: Seq<char>, c: Seq<char>)
    ensures
        !prefixed_lt(a, a),
        a != b ==> prefixed_lt(a, b) || prefixed_lt(b, a),
        !(prefixed_lt(a, b) && prefixed_lt(b, a)),
        prefixed_lt(a, b) && prefixed_lt(b, c) ==> prefixed_lt(a, c),
{
    lemma_str_lt_order(a, b, c);
    lemma_bytes_lt_total(encode_utf8(a), encode_utf8(b));
    if a != b {
        encode_utf8_decode_utf8(a);
        encode_utf8_decode_utf8(b);
    }
    let (ea, eb, ec) = (encode_utf8(a), encode_utf8(b), encode_utf8(c));
    if prefixed_lt(a, b) && prefixed_lt(b, c) && ea.len() == eb.len() && eb.len() == ec.len() {
        lemma_bytes_lt_transitive(ea, eb, ec);
    }
}

/// Whether `a` comes before `b` as a length-prefixed key component.
pub fn prefixed_less(a: &String, b: &String) -> (r: bool)
    ensures
        r == prefixed_lt(a@, b@),
{
    let ab = a.as_str().as_bytes();
    let bb = b.as_str().as_bytes();
    if ab.len() != bb.len() {
        ab.len() < bb.len()
    } else {
        bytes_less(ab, bb)
    }
}

/// The list is in strictly increasing length-prefixed order.
pub open spec fn prefixed_ascending(s: Seq<String>) -> bool {
    forall|i: int, j: int| 0 <= i < j < s.len() ==> prefixed_lt(#[trigger] s[i]@, #[trigger] s[j]@)
}

/// Inserts `x` into a list in strictly increasing length-prefixed order,
/// unless it is there already.
pub fn insert_prefixed(v: &mut Vec<String>, x: String)
    requires
        prefixed_ascending(old(v)@),
    ensures
        prefixed_ascending(final(v)@),
        forall|a: Seq<char>| #[trigger] has_view(final(v)@, a) == (has_view(old(v)@, a) || a == x@),
{
    let ghost s = v@;
    let mut i: usize = 0;
    let mut found = false;
    while i < v.len() && !found
        invariant
            v@ == s,
            i <= s.len(),
            prefixed_ascending(s),
            forall|j: int| 0 <= j < i ==> prefixed_lt(#[trigger] s[j]@, x@),
            found ==> i < s.len() && !prefixed_lt(s[i as int]@, x@),
        decreases s.len() - i, if found { 0int } else { 1int },
    {
        if !prefixed_less(&v[i], &x) {
            found = true;
        } else {
            i = i + 1;
        }
    }
    if i < v.len() && v[i] == x {
        return;
    }
    proof {
        if i < s.len() {
            lemma_prefixed_lt_order(s[i as int]@, x@, x@);
            assert(prefixed_lt(x@, s[i as int]@));
        }
    }
    v.insert(i, x);
    proof {
        let t = v@;
        assert(t =~= s.insert(i as int, x));
        assert forall|a: int, b: int| 0 <= a < b < t.len() implies prefixed_lt(#[trigger] t[a]@, #[trigger] t[b]@) by {
            if b < i {
                assert(t[a] == s[a] && t[b] == s[b]);
            } else if b == i {
                assert(t[a] == s[a]);
            } else if a < i {
                assert(t[a] == s[a] && t[b] == s[b - 1]);
                lemma_prefixed_lt_order(s[a]@, x@, s[i as int]@);
                if b - 1 > i {
                    lemma_prefixed_lt_order(x@, s[i as int]@, s[b - 1]@);
                }
                lemma_prefixed_lt_order(s[a]@, x@, s[b - 1]@);
            } else if a == i {
                assert(t[b] == s[b - 1]);
                if b - 1 > i {
                    lemma_prefixed_lt_order(x@, s[i as int]@, s[b - 1]@);
                }
            } else {
                assert(t[a] == s[a - 1] && t[b] == s[b - 1]);
            }
        }
        assert forall|a: Seq<char>| #[trigger] has_view(t, a) == (has_view(s, a) || a == x@) by {
            if has_view(t, a) {
                let k = choose|k: int| 0 <= k < t.len() && #[trigger] t[k]@ == a;
                if k < i {
                    assert(t[k] == s[k]);
                } else if k > i {
                    assert(t[k] == s[k - 1]);
                }
            }
            if has_view(s, a) {
                let k = choose|k: int| 0 <= k < s.len() && #[trigger] s[k]@ == a;
                if k < i {
                    assert(t[k] == s[k]);
                } else {
                    assert(t[k + 1] == s[k]);
                }
            }
            if a == x@ {
                assert(t[i as int] == x);
            }
        }
    }
}

} // verus!
