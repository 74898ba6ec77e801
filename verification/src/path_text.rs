//! Byte-string paths: ordering, sorting, basenames and the text fragments
//! used in reports.
//!
//! Paths are UTF-8 byte strings; two paths are the same entry exactly when
//! their bytes are equal, with no normalization.

use vstd::prelude::*;

verus! {

pub const SLASH: u8 = 47;

/// The view of each byte string in a sequence of byte vectors.
pub open spec fn views(s: Seq<Vec<u8>>) -> Seq<Seq<u8>> {
    Seq::new(s.len(), |i: int| s[i]@)
}

/// Lexicographic order on byte strings; the order used for sorted listings.
pub open spec fn lex_leq(a: Seq<u8>, b: Seq<u8>) -> bool
    decreases a.len(),
{
    if a.len() == 0 {
        true
    } else if b.len() == 0 {
        false
    } else if a[0] < b[0] {
        true
    } else if a[0] > b[0] {
        false
    } else {
        lex_leq(a.skip(1), b.skip(1))
    }
}

pub proof fn lemma_lex_total(a: Seq<u8>, b: Seq<u8>)
    ensures
        lex_leq(a, b) || lex_leq(b, a),
    decreases a.len(),
{
    if a.len() > 0 && b.len() > 0 && a[0] == b[0] {
        lemma_lex_total(a.skip(1), b.skip(1));
    }
}

pub proof fn lemma_lex_antisym(a: Seq<u8>, b: Seq<u8>)
    requires
        lex_leq(a, b),
        lex_leq(b, a),
    ensures
        a == b,
    decreases a.len(),
{
    if a.len() == 0 {
        assert(b.len() == 0);
        assert(a =~= b);
    } else {
        assert(b.len() > 0);
        assert(a[0] == b[0]);
        assert(lex_leq(a.skip(1), b.skip(1)));
        assert(lex_leq(b.skip(1), a.skip(1)));
        lemma_lex_antisym(a.skip(1), b.skip(1));
        assert(a.skip(1) == b.skip(1));
        assert(a.skip(1).len() == a.len() - 1);
        assert(b.skip(1).len() == b.len() - 1);
        assert(a.len() == b.len());
        assert forall|i: int| 0 <= i < a.len() implies a[i] == b[i] by {
            if i >= 1 {
                assert(a[i] == a.skip(1)[i - 1]);
                assert(b[i] == b.skip(1)[i - 1]);
            }
        }
        assert(a =~= b);
    }
}

pub proof fn lemma_lex_trans(a: Seq<u8>, b: Seq<u8>, c: Seq<u8>)
    requires
        lex_leq(a, b),
        lex_leq(b, c),
    ensures
        lex_leq(a, c),
    decreases a.len(),
{
    if a.len() > 0 && b.len() > 0 && c.len() > 0 && a[0] == b[0] && b[0] == c[0] {
        lemma_lex_trans(a.skip(1), b.skip(1), c.skip(1));
    }
}

/// Equal prefixes do not affect the comparison of the remainders.
proof fn lemma_lex_common_prefix(a: Seq<u8>, b: Seq<u8>, i: int)
    requires
        0 <= i <= a.len(),
        i <= b.len(),
        forall|j: int| 0 <= j < i ==> a[j] == b[j],
    ensures
        lex_leq(a, b) == lex_leq(a.skip(i), b.skip(i)),
    decreases i,
{
    if i == 0 {
        assert(a.skip(0) =~= a);
        assert(b.skip(0) =~= b);
    } else {
        assert(a.len() > 0 && b.len() > 0 && a[0] == b[0]);
        assert(forall|j: int| 0 <= j < i - 1 ==> a.skip(1)[j] == b.skip(1)[j]);
        lemma_lex_common_prefix(a.skip(1), b.skip(1), i - 1);
        assert(a.skip(1).skip(i - 1) =~= a.skip(i));
        assert(b.skip(1).skip(i - 1) =~= b.skip(i));
    }
}

/// Byte-for-byte equality of two paths.
pub fn bytes_eq(a: &Vec<u8>, b: &Vec<u8>) -> (r: bool)
    ensures
        r == (a@ == b@),
{
    if a.len() != b.len() {
        return false;
    }
    let n = a.len();
    let mut i: usize = 0;
    while i < n
        invariant
            i <= n,
            n == a@.len() == b@.len(),
            forall|j: int| 0 <= j < i ==> a@[j] == b@[j],
        decreases n - i,
    {
        if a[i] != b[i] {
            return false;
        }
        i = i + 1;
    }
    assert(a@ =~= b@);
    true
}

/// Lexicographic comparison of two paths.
pub fn bytes_leq(a: &Vec<u8>, b: &Vec<u8>) -> (r: bool)
    ensures
        r == lex_leq(a@, b@),
{
    let an = a.len();
    let bn = b.len();
    let n = if an < bn { an } else { bn };
    let mut i: usize = 0;
    while i < n
        invariant
            i <= n,
            n <= a@.len(),
            n <= b@.len(),
            n == a@.len() || n == b@.len(),
            forall|j: int| 0 <= j < i ==> a@[j] == b@[j],
        decreases n - i,
    {
        let x = a[i];
        let y = b[i];
        if x < y {
            proof {
                lemma_lex_common_prefix(a@, b@, i as int);
            }
            return true;
        }
        if x > y {
            proof {
                lemma_lex_common_prefix(a@, b@, i as int);
            }
            return false;
        }
        i = i + 1;
    }
    proof {
        lemma_lex_common_prefix(a@, b@, n as int);
    }
    a.len() <= b.len()
}

/// A non-strictly sorted listing.
pub open spec fn sorted_leq(s: Seq<Seq<u8>>) -> bool {
    forall|i: int, j: int| 0 <= i < j < s.len() ==> lex_leq(s[i], s[j])
}

/// A strictly sorted listing: sorted and free of repeats.
pub open spec fn sorted_strict(s: Seq<Seq<u8>>) -> bool {
    sorted_leq(s) && s.no_duplicates()
}

/// Sorts a listing of paths lexicographically (insertion sort).
pub fn sort_paths(v: &Vec<Vec<u8>>) -> (r: Vec<Vec<u8>>)
    ensures
        sorted_leq(views(r@)),
        views(r@).to_multiset() == views(v@).to_multiset(),
        r@.len() == v@.len(),
{
    let mut r: Vec<Vec<u8>> = Vec::new();
    let n = v.len();
    let mut i: usize = 0;
    proof {
        assert(views(r@) =~= views(v@).take(0));
        views(v@).take(0).to_multiset_ensures();
    }
    while i < n
        invariant
            i <= n,
            n == v@.len(),
            sorted_leq(views(r@)),
            views(r@).to_multiset() == views(v@).take(i as int).to_multiset(),
        decreases n - i,
    {
        let x = clone_bytes(&v[i]);
        let mut p: usize = 0;
        while p < r.len() && bytes_leq(&r[p], &x)
            invariant
                p <= r@.len(),
                forall|j: int| 0 <= j < p ==> lex_leq(views(r@)[j], x@),
            decreases r@.len() - p,
        {
            p = p + 1;
        }
        proof {
            if p < r@.len() {
                lemma_lex_total(views(r@)[p as int], x@);
            }
            assert(forall|j: int| p <= j < r@.len() ==> lex_leq(x@, views(r@)[j])) by {
                assert forall|j: int| p <= j < r@.len() implies lex_leq(x@, views(r@)[j]) by {
                    if p < j {
                        lemma_lex_trans(x@, views(r@)[p as int], views(r@)[j]);
                    }
                }
            }
        }
        let ghost old_r = r@;
        r.insert(p, x);
        proof {
            assert(views(r@) =~= views(old_r).insert(p as int, x@));
            lemma_insert_multiset_general(views(old_r), p as int, x@);
            views(old_r).insert_ensures(p as int, x@);
            assert(views(v@).take(i + 1) =~= views(v@).take(i as int).push(x@));
            views(v@).take(i as int).to_multiset_ensures();
            assert forall|a: int, b: int|
                0 <= a < b < views(r@).len() implies lex_leq(views(r@)[a], views(r@)[b]) by {
                let s = views(old_r);
                if b < p {
                } else if a < p && b == p {
                    assert(views(r@)[a] == s[a] && views(r@)[b] == x@);
                } else if a < p && b > p {
                    assert(views(r@)[a] == s[a] && views(r@)[b] == s[b - 1]);
                } else if a == p {
                    assert(views(r@)[a] == x@ && views(r@)[b] == s[b - 1]);
                } else {
                    assert(views(r@)[a] == s[a - 1] && views(r@)[b] == s[b - 1]);
                }
            }
        }
        i = i + 1;
    }
    proof {
        assert(views(v@).take(n as int) =~= views(v@));
        views(r@).to_multiset_ensures();
        views(v@).to_multiset_ensures();
    }
    r
}

/// Inserting one path into a listing adds exactly it to the multiset.
proof fn lemma_insert_multiset_general(s: Seq<Seq<u8>>, p: int, x: Seq<u8>)
    requires
        0 <= p <= s.len(),
    ensures
        s.insert(p, x).to_multiset() == s.to_multiset().insert(x),
    decreases s.len(),
{
    s.to_multiset_ensures();
    if p == s.len() {
        assert(s.insert(p, x) =~= s.push(x));
    } else {
        let last = s.last();
        let init = s.drop_last();
        init.to_multiset_ensures();
        lemma_insert_multiset_general(init, p, x);
        init.insert(p, x).to_multiset_ensures();
        assert(s =~= init.push(last));
        assert(s.insert(p, x) =~= init.insert(p, x).push(last));
        assert(s.insert(p, x).to_multiset() =~= init.insert(p, x).to_multiset().insert(last));
        assert(s.to_multiset() =~= init.to_multiset().insert(last));
        assert(init.to_multiset().insert(x).insert(last) =~= init.to_multiset().insert(
            last,
        ).insert(x));
        assert(s.insert(p, x).to_multiset() =~= s.to_multiset().insert(x));
    }
}

/// Drops adjacent repeats from a sorted listing.
pub fn dedup_sorted(v: &Vec<Vec<u8>>) -> (r: Vec<Vec<u8>>)
    requires
        sorted_leq(views(v@)),
    ensures
        sorted_strict(views(r@)),
        views(r@).to_set() == views(v@).to_set(),
        r@.len() == 0 <==> v@.len() == 0,
{
    let mut r: Vec<Vec<u8>> = Vec::new();
    let n = v.len();
    let mut i: usize = 0;
    while i < n
        invariant
            i <= n,
            n == v@.len(),
            sorted_leq(views(v@)),
            sorted_strict(views(r@)),
            views(r@).to_set() == views(v@).take(i as int).to_set(),
            r@.len() > 0 ==> i > 0 && views(r@).last() == views(v@)[i - 1],
        decreases n - i,
    {
        let keep = if r.len() == 0 {
            true
        } else {
            !bytes_eq(&r[r.len() - 1], &v[i])
        };
        proof {
            assert(views(v@).take(i + 1).drop_last() =~= views(v@).take(i as int));
            lemma_to_set_push(views(v@).take(i as int), views(v@)[i as int]);
            assert(views(v@).take(i + 1) =~= views(v@).take(i as int).push(views(v@)[i as int]));
        }
        if keep {
            let ghost old_r = r@;
            let x = clone_bytes(&v[i]);
            proof {
                if old_r.len() > 0 {
                    assert(lex_leq(views(v@)[i - 1], views(v@)[i as int]));
                    assert(lex_leq(views(old_r).last(), x@));
                }
            }
            r.push(x);
            proof {
                assert(views(r@) =~= views(old_r).push(x@));
                lemma_to_set_push(views(old_r), x@);
                // strict order is kept: the new last is strictly above all others
                assert forall|a: int, b: int|
                    0 <= a < b < views(r@).len() implies lex_leq(views(r@)[a], views(r@)[b]) by {
                    if b < views(r@).len() - 1 {
                    } else if a < views(old_r).len() - 1 {
                        lemma_lex_trans(views(old_r)[a], views(old_r).last(), x@);
                    }
                }
                assert(views(r@).no_duplicates()) by {
                    assert forall|a: int|
                        0 <= a < views(old_r).len() implies views(old_r)[a] != x@ by {
                        if views(old_r)[a] == x@ {
                            if a < views(old_r).len() - 1 {
                                // then the old last sits between two copies of x
                                assert(lex_leq(views(old_r)[a], views(old_r).last()));
                                assert(lex_leq(views(old_r).last(), x@));
                                lemma_lex_antisym(views(old_r).last(), x@);
                            }
                        }
                    }
                }
            }
        } else {
            proof {
                assert(views(r@).to_set().contains(views(v@)[i as int]));
                assert(views(r@).to_set() =~= views(v@).take(i + 1).to_set());
            }
        }
        i = i + 1;
    }
    proof {
        assert(views(v@).take(n as int) =~= views(v@));
        if v@.len() > 0 {
            assert(views(v@).to_set().contains(views(v@)[0]));
            let e = views(v@)[0];
            assert(views(r@).to_set().contains(e));
            let k = choose|k: int| 0 <= k < views(r@).len() && views(r@)[k] == e;
        }
        if r@.len() > 0 {
            assert(views(r@).to_set().contains(views(r@)[0]));
            let e = views(r@)[0];
            assert(views(v@).to_set().contains(e));
            let k = choose|k: int| 0 <= k < views(v@).len() && views(v@)[k] == e;
        }
    }
    r
}

/// Pushing an element onto a listing adds exactly it to the set of elements.
proof fn lemma_to_set_push(s: Seq<Seq<u8>>, x: Seq<u8>)
    ensures
        s.push(x).to_set() == s.to_set().insert(x),
{
    assert forall|e: Seq<u8>| s.push(x).to_set().contains(e) implies s.to_set().insert(x).contains(
        e,
    ) by {
        let k = choose|k: int| 0 <= k < s.push(x).len() && s.push(x)[k] == e;
        if k < s.len() {
            assert(s[k] == e);
        }
    }
    assert forall|e: Seq<u8>| s.to_set().insert(x).contains(e) implies s.push(x).to_set().contains(
        e,
    ) by {
        if e == x {
            assert(s.push(x)[s.len() as int] == x);
        } else {
            let k = choose|k: int| 0 <= k < s.len() && s[k] == e;
            assert(s.push(x)[k] == e);
        }
    }
    assert(s.push(x).to_set() =~= s.to_set().insert(x));
}

/// Listings with the same multiset of paths list the same set of paths.
pub proof fn lemma_multiset_eq_set_eq(a: Seq<Seq<u8>>, b: Seq<Seq<u8>>)
    requires
        a.to_multiset() == b.to_multiset(),
    ensures
        a.to_set() == b.to_set(),
{
    a.to_multiset_ensures();
    b.to_multiset_ensures();
    assert forall|e: Seq<u8>| a.to_set().contains(e) implies b.to_set().contains(e) by {
        assert(a.contains(e));
        assert(a.to_multiset().count(e) > 0);
        assert(b.contains(e));
        let k = choose|k: int| 0 <= k < b.len() && b[k] == e;
        assert(b.to_set().contains(b[k]));
    }
    assert forall|e: Seq<u8>| b.to_set().contains(e) implies a.to_set().contains(e) by {
        assert(b.contains(e));
        assert(b.to_multiset().count(e) > 0);
        assert(a.contains(e));
        let k = choose|k: int| 0 <= k < a.len() && a[k] == e;
        assert(a.to_set().contains(a[k]));
    }
    assert(a.to_set() =~= b.to_set());
}

/// Copies a path.
pub fn clone_bytes(a: &Vec<u8>) -> (r: Vec<u8>)
    ensures
        r@ == a@,
{
    let mut r: Vec<u8> = Vec::new();
    let n = a.len();
    let mut i: usize = 0;
    proof {
        assert(r@ =~= a@.take(0));
    }
    while i < n
        invariant
            i <= n,
            n == a@.len(),
            r@ == a@.take(i as int),
        decreases n - i,
    {
        r.push(a[i]);
        proof {
            assert(a@.take(i + 1) =~= a@.take(i as int).push(a@[i as int]));
        }
        i = i + 1;
    }
    proof {
        assert(a@.take(n as int) =~= a@);
    }
    r
}

/// Appends the bytes of `src` to `dst`.
pub fn append_bytes(dst: &mut Vec<u8>, src: &Vec<u8>)
    ensures
        final(dst)@ == old(dst)@ + src@,
{
    let n = src.len();
    let mut i: usize = 0;
    proof {
        assert(dst@ =~= old(dst)@ + src@.take(0));
    }
    while i < n
        invariant
            i <= n,
            n == src@.len(),
            dst@ == old(dst)@ + src@.take(i as int),
        decreases n - i,
    {
        dst.push(src[i]);
        proof {
            assert(old(dst)@ + src@.take(i + 1) =~= (old(dst)@ + src@.take(i as int)).push(
                src@[i as int],
            ));
        }
        i = i + 1;
    }
    proof {
        assert(old(dst)@ + src@.take(n as int) =~= old(dst)@ + src@);
    }
}

/// The trailing component of a path: everything after the last separator, or
/// the whole path when it has none.
pub open spec fn basename(p: Seq<u8>) -> Seq<u8>
    decreases p.len(),
{
    if p.len() == 0 {
        Seq::empty()
    } else if p.last() == SLASH {
        Seq::empty()
    } else {
        basename(p.drop_last()).push(p.last())
    }
}

/// A destination directory joined with a basename.
pub open spec fn join_dir(d: Seq<u8>, base: Seq<u8>) -> Seq<u8> {
    if d.len() > 0 && d.last() == SLASH {
        d + base
    } else {
        d + seq![SLASH] + base
    }
}

/// Computes the basename of a path.
pub fn path_basename(p: &Vec<u8>) -> (r: Vec<u8>)
    ensures
        r@ == basename(p@),
{
    let n = p.len();
    let mut start: usize = n;
    proof {
        assert(basename(p@) =~= basename(p@.take(n as int)) + p@.skip(n as int)) by {
            assert(p@.take(n as int) =~= p@);
            assert(p@.skip(n as int) =~= Seq::<u8>::empty());
        }
    }
    while start > 0 && p[start - 1] != SLASH
        invariant
            start <= n,
            n == p@.len(),
            forall|j: int| start <= j < n ==> p@[j] != SLASH,
            basename(p@) == basename(p@.take(start as int)) + p@.skip(start as int),
        decreases start,
    {
        proof {
            let t = p@.take(start as int);
            assert(t.len() == start);
            assert(t.last() == p@[start - 1]);
            assert(t.drop_last() =~= p@.take(start - 1));
            assert(basename(t) == basename(p@.take(start - 1)).push(p@[start - 1]));
            assert(basename(p@.take(start - 1)) + p@.skip(start - 1) =~= basename(
                p@.take(start as int),
            ) + p@.skip(start as int));
        }
        start = start - 1;
    }
    proof {
        if start == 0 {
            assert(p@.take(0) =~= Seq::<u8>::empty());
            assert(basename(p@) =~= p@.skip(0));
        } else {
            assert(p@.take(start as int).last() == SLASH);
            assert(basename(p@.take(start as int)) =~= Seq::<u8>::empty());
            assert(basename(p@) =~= p@.skip(start as int));
        }
    }
    let mut r: Vec<u8> = Vec::new();
    let mut i: usize = start;
    while i < n
        invariant
            start <= i <= n,
            n == p@.len(),
            r@ == p@.subrange(start as int, i as int),
        decreases n - i,
    {
        r.push(p[i]);
        proof {
            assert(p@.subrange(start as int, i + 1) =~= p@.subrange(start as int, i as int).push(
                p@[i as int],
            ));
        }
        i = i + 1;
    }
    proof {
        assert(p@.subrange(start as int, n as int) =~= p@.skip(start as int));
        assert(r@ =~= basename(p@));
    }
    r
}

/// The text `" -> "` that separates a source from a destination in a line.
pub open spec fn arrow() -> Seq<u8> {
    seq![32u8, 45u8, 62u8, 32u8]
}

/// One report line: `source -> destination`.
pub open spec fn arrow_line(s: Seq<u8>, d: Seq<u8>) -> Seq<u8> {
    s + arrow() + d
}

/// Builds the bytes of [`arrow`].
pub fn render_arrow() -> (r: Vec<u8>)
    ensures
        r@ == arrow(),
{
    let mut r: Vec<u8> = Vec::new();
    r.push(32);
    r.push(45);
    r.push(62);
    r.push(32);
    proof {
        assert(r@ =~= arrow());
    }
    r
}

/// Renders one `source -> destination` line.
pub fn render_arrow_line(s: &Vec<u8>, d: &Vec<u8>) -> (r: Vec<u8>)
    ensures
        r@ == arrow_line(s@, d@),
{
    let mut r = clone_bytes(s);
    let a = render_arrow();
    append_bytes(&mut r, &a);
    append_bytes(&mut r, d);
    proof {
        assert(r@ =~= arrow_line(s@, d@));
    }
    r
}

/// Joins a directory path and a basename with a separator.
pub fn path_join_dir(d: &Vec<u8>, base: &Vec<u8>) -> (r: Vec<u8>)
    ensures
        r@ == join_dir(d@, base@),
{
    let mut r = clone_bytes(d);
    if !(d.len() > 0 && d[d.len() - 1] == SLASH) {
        r.push(SLASH);
        proof {
            assert(r@ =~= d@ + seq![SLASH]);
        }
    }
    append_bytes(&mut r, base);
    proof {
        if d@.len() > 0 && d@.last() == SLASH {
            assert(r@ =~= d@ + base@);
        } else {
            assert(r@ =~= d@ + seq![SLASH] + base@);
        }
    }
    r
}

} // verus!
