//! Lexicographic order on byte strings, the order in which a key-value store
//! keeps its keys.

use vstd::prelude::*;

verus! {

/// `a` comes before `b`, and `i` is where that shows: the two agree on their
/// first `i` bytes, and there `a` ends or holds the smaller byte.
pub open spec fn lt_at(a: Seq<u8>, b: Seq<u8>, i: int) -> bool {
    &&& 0 <= i <= a.len()
    &&& i <= b.len()
    &&& a.subrange(0, i) == b.subrange(0, i)
    &&& i < b.len()
    &&& i < a.len() ==> a[i] < b[i]
}

/// Strict lexicographic order.
pub open spec fn bytes_lt(a: Seq<u8>, b: Seq<u8>) -> bool {
    exists|i: int| lt_at(a, b, i)
}

/// `p` is a prefix of `s`.
pub open spec fn is_prefix(p: Seq<u8>, s: Seq<u8>) -> bool {
    p.len() <= s.len() && s.subrange(0, p.len() as int) == p
}

pub proof fn lemma_lt_asymmetric(a: Seq<u8>, b: Seq<u8>)
    requires
        bytes_lt(a, b),
    ensures
        !bytes_lt(b, a),
        a != b,
{
    let i = choose|i: int| lt_at(a, b, i);
    if bytes_lt(b, a) {
        let j = choose|j: int| lt_at(b, a, j);
        if i < j {
            assert(a.subrange(0, j)[i] == b.subrange(0, j)[i]);
        } else if j < i {
            assert(a.subrange(0, i)[j] == b.subrange(0, i)[j]);
        }
        assert(false);
    }
}

pub proof fn lemma_lt_transitive(a: Seq<u8>, b: Seq<u8>, c: Seq<u8>)
    requires
        bytes_lt(a, b),
        bytes_lt(b, c),
    ensures
        bytes_lt(a, c),
{
    let i = choose|i: int| lt_at(a, b, i);
    let j = choose|j: int| lt_at(b, c, j);
    let m = if i <= j { i } else { j };
    assert(a.subrange(0, m) == c.subrange(0, m)) by {
        assert forall|x: int| 0 <= x < m implies a[x] == c[x] by {
            assert(a.subrange(0, i)[x] == b.subrange(0, i)[x]);
            assert(b.subrange(0, j)[x] == c.subrange(0, j)[x]);
        }
        assert(a.subrange(0, m) =~= c.subrange(0, m));
    }
    if j < i {
        assert(a.subrange(0, i)[j] == b.subrange(0, i)[j]);
    } else if i < j {
        assert(b.subrange(0, j)[i] == c.subrange(0, j)[i]);
    }
    assert(lt_at(a, c, m));
}

/// Two byte strings that agree on their first `i` bytes are equal or ordered.
proof fn lemma_total_from(a: Seq<u8>, b: Seq<u8>, i: int)
    requires
        0 <= i <= a.len(),
        i <= b.len(),
        a.subrange(0, i) == b.subrange(0, i),
    ensures
        a == b || bytes_lt(a, b) || bytes_lt(b, a),
    decreases a.len() - i,
{
    if i == a.len() {
        if i == b.len() {
            assert(a.subrange(0, i) == a);
            assert(b.subrange(0, i) == b);
        } else {
            assert(lt_at(a, b, i));
        }
    } else if i == b.len() {
        assert(lt_at(b, a, i));
    } else if a[i] < b[i] {
        assert(lt_at(a, b, i));
    } else if b[i] < a[i] {
        assert(lt_at(b, a, i));
    } else {
        assert(a.subrange(0, i + 1) =~= a.subrange(0, i).push(a[i]));
        assert(b.subrange(0, i + 1) =~= b.subrange(0, i).push(b[i]));
        lemma_total_from(a, b, i + 1);
    }
}

pub proof fn lemma_lt_total(a: Seq<u8>, b: Seq<u8>)
    ensures
        a == b || bytes_lt(a, b) || bytes_lt(b, a),
{
    assert(a.subrange(0, 0) =~= b.subrange(0, 0));
    lemma_total_from(a, b, 0);
}

/// The order of two byte strings is the order of what follows a common beginning.
pub proof fn lemma_lt_common_prefix(s: Seq<u8>, a: Seq<u8>, b: Seq<u8>)
    ensures
        bytes_lt(s + a, s + b) == bytes_lt(a, b),
{
    let n = s.len() as int;
    if bytes_lt(a, b) {
        let i = choose|i: int| lt_at(a, b, i);
        assert((s + a).subrange(0, n + i) =~= s + a.subrange(0, i));
        assert((s + b).subrange(0, n + i) =~= s + b.subrange(0, i));
        assert(lt_at(s + a, s + b, n + i));
    }
    if bytes_lt(s + a, s + b) {
        let i = choose|i: int| lt_at(s + a, s + b, i);
        if i < n {
            assert((s + a)[i] == s[i] && (s + b)[i] == s[i]);
        }
        assert(a.subrange(0, i - n) =~= b.subrange(0, i - n)) by {
            assert forall|k: int| 0 <= k < i - n implies a[k] == b[k] by {
                assert((s + a).subrange(0, i)[n + k] == (s + b).subrange(0, i)[n + k]);
            }
        }
        if i - n < a.len() {
            assert((s + a)[i] == a[i - n] && (s + b)[i] == b[i - n]);
        }
        assert(lt_at(a, b, i - n));
    }
}

/// Two byte strings of which neither begins with the other keep their
/// order, whatever follows them.
pub proof fn lemma_lt_extend(a: Seq<u8>, b: Seq<u8>, x: Seq<u8>, y: Seq<u8>)
    requires
        bytes_lt(a, b),
        !is_prefix(a, b),
    ensures
        bytes_lt(a + x, b + y),
        !is_prefix(a + x, b + y),
        !is_prefix(b + y, a + x),
{
    let i = choose|i: int| lt_at(a, b, i);
    if i == a.len() {
        assert(b.subrange(0, a.len() as int) =~= a) by {
            assert(a.subrange(0, i) =~= a);
        }
    }
    assert((a + x).subrange(0, i) =~= a.subrange(0, i));
    assert((b + y).subrange(0, i) =~= b.subrange(0, i));
    assert((a + x)[i] == a[i] && (b + y)[i] == b[i]);
    assert(lt_at(a + x, b + y, i));
    if is_prefix(a + x, b + y) {
        assert((b + y).subrange(0, (a + x).len() as int)[i] == (a + x)[i]);
    }
    if is_prefix(b + y, a + x) {
        assert((a + x).subrange(0, (b + y).len() as int)[i] == (b + y)[i]);
    }
}

/// Byte strings of one length are ordered by the first byte in which they differ.
pub proof fn lemma_lt_same_length(a: Seq<u8>, b: Seq<u8>, i: int)
    requires
        a.len() == b.len(),
        0 <= i < a.len(),
        a.subrange(0, i) == b.subrange(0, i),
        a[i] < b[i],
    ensures
        bytes_lt(a, b),
        !is_prefix(a, b),
        !bytes_lt(b, a),
{
    assert(lt_at(a, b, i));
    lemma_lt_asymmetric(a, b);
    if is_prefix(a, b) {
        assert(b.subrange(0, a.len() as int) =~= b);
    }
}

/// Whether `a` comes strictly before `b` in lexicographic order.
pub fn bytes_less(a: &Vec<u8>, b: &Vec<u8>) -> (r: bool)
    ensures
        r == bytes_lt(a@, b@),
{
    let mut i: usize = 0;
    while i < a.len() && i < b.len()
        invariant
            i <= a.len(),
            i <= b.len(),
            a@.subrange(0, i as int) == b@.subrange(0, i as int),
        decreases a.len() - i,
    {
        if a[i] < b[i] {
            assert(lt_at(a@, b@, i as int));
            return true;
        }
        if a[i] > b[i] {
            proof {
                assert(lt_at(b@, a@, i as int));
                lemma_lt_asymmetric(b@, a@);
            }
            return false;
        }
        assert(a@.subrange(0, i + 1) =~= a@.subrange(0, i as int).push(a@[i as int]));
        assert(b@.subrange(0, i + 1) =~= b@.subrange(0, i as int).push(b@[i as int]));
        i += 1;
    }
    if i < b.len() {
        assert(lt_at(a@, b@, i as int));
        true
    } else {
        proof {
            if i < a.len() {
                assert(lt_at(b@, a@, i as int));
                lemma_lt_asymmetric(b@, a@);
            } else {
                assert(a@.subrange(0, i as int) == a@);
                assert(b@.subrange(0, i as int) == b@);
                if bytes_lt(a@, b@) {
                    lemma_lt_asymmetric(a@, b@);
                }
            }
        }
        false
    }
}

/// Whether the two byte strings are the same.
pub fn bytes_equal(a: &Vec<u8>, b: &Vec<u8>) -> (r: bool)
    ensures
        r == (a@ == b@),
{
    if a.len() != b.len() {
        return false;
    }
    let mut i: usize = 0;
    while i < a.len()
        invariant
            i <= a.len(),
            a.len() == b.len(),
            a@.subrange(0, i as int) == b@.subrange(0, i as int),
        decreases a.len() - i,
    {
        if a[i] != b[i] {
            return false;
        }
        assert(a@.subrange(0, i + 1) =~= a@.subrange(0, i as int).push(a@[i as int]));
        assert(b@.subrange(0, i + 1) =~= b@.subrange(0, i as int).push(b@[i as int]));
        i += 1;
    }
    assert(a@.subrange(0, i as int) == a@);
    assert(b@.subrange(0, i as int) == b@);
    true
}

/// Whether `s` starts with `p`.
pub fn starts_with(s: &Vec<u8>, p: &Vec<u8>) -> (r: bool)
    ensures
        r == is_prefix(p@, s@),
{
    if p.len() > s.len() {
        return false;
    }
    let mut i: usize = 0;
    while i < p.len()
        invariant
            i <= p.len(),
            p.len() <= s.len(),
            s@.subrange(0, i as int) == p@.subrange(0, i as int),
        decreases p.len() - i,
    {
        if s[i] != p[i] {
            assert(s@.subrange(0, p@.len() as int)[i as int] == s@[i as int]);
            return false;
        }
        assert(s@.subrange(0, i + 1) =~= s@.subrange(0, i as int).push(s@[i as int]));
        assert(p@.subrange(0, i + 1) =~= p@.subrange(0, i as int).push(p@[i as int]));
        i += 1;
    }
    assert(p@.subrange(0, i as int) == p@);
    true
}

/// A copy of the byte string.
pub fn clone_bytes(a: &Vec<u8>) -> (r: Vec<u8>)
    ensures
        r@ == a@,
{
    let mut out: Vec<u8> = Vec::new();
    let mut i: usize = 0;
    while i < a.len()
        invariant
            i <= a.len(),
            out@ == a@.subrange(0, i as int),
        decreases a.len() - i,
    {
        out.push(a[i]);
        assert(out@ == a@.subrange(0, i + 1));
        i += 1;
    }
    assert(a@.subrange(0, a@.len() as int) == a@);
    out
}

/// Appends the bytes of `tail` to `buf`.
pub fn append_bytes(buf: &mut Vec<u8>, tail: &Vec<u8>)
    ensures
        final(buf)@ == old(buf)@ + tail@,
{
    let mut i: usize = 0;
    while i < tail.len()
        invariant
            i <= tail.len(),
            buf@ == old(buf)@ + tail@.subrange(0, i as int),
        decreases tail.len() - i,
    {
        buf.push(tail[i]);
        assert(buf@ =~= old(buf)@ + tail@.subrange(0, i + 1));
        i += 1;
    }
    assert(tail@.subrange(0, tail@.len() as int) == tail@);
}

} // verus!
