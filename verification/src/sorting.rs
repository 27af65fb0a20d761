//! Lexicographic ordering of paths, and the sort applied to a group's
//! members when deterministic output is requested.

use vstd::prelude::*;

verus! {

/// Lexicographic "at or before" on character sequences, comparing code
/// points position by position.
pub open spec fn lex_le(a: Seq<char>, b: Seq<char>) -> bool
    decreases a.len(),
{
    if a.len() == 0 {
        true
    } else if b.len() == 0 {
        false
    } else if a[0] == b[0] {
        lex_le(a.drop_first(), b.drop_first())
    } else {
        a[0] < b[0]
    }
}

/// The order is total: of any two sequences, one is at or before the
/// other.
pub proof fn lemma_lex_le_total(a: Seq<char>, b: Seq<char>)
    ensures
        lex_le(a, b) || lex_le(b, a),
    decreases a.len(),
{
    if a.len() > 0 && b.len() > 0 && a[0] == b[0] {
        lemma_lex_le_total(a.drop_first(), b.drop_first());
    }
}

/// The order is transitive.
pub proof fn lemma_lex_le_trans(a: Seq<char>, b: Seq<char>, c: Seq<char>)
    requires
        lex_le(a, b),
        lex_le(b, c),
    ensures
        lex_le(a, c),
    decreases a.len(),
{
    if a.len() > 0 && b.len() > 0 && c.len() > 0 {
        if a[0] == b[0] && b[0] == c[0] {
            lemma_lex_le_trans(a.drop_first(), b.drop_first(), c.drop_first());
        }
    }
}

/// A shared prefix does not decide the order: it is decided past it.
proof fn lemma_lex_le_common_prefix(a: Seq<char>, b: Seq<char>, i: int)
    requires
        0 <= i <= a.len(),
        i <= b.len(),
        forall|n: int| 0 <= n < i ==> a[n] == b[n],
    ensures
        lex_le(a, b) == lex_le(a.skip(i), b.skip(i)),
    decreases i,
{
    if i > 0 {
        assert(a[0] == b[0]);
        assert forall|n: int| 0 <= n < i - 1 implies a.drop_first()[n] == b.drop_first()[n] by {
            assert(a.drop_first()[n] == a[n + 1]);
            assert(b.drop_first()[n] == b[n + 1]);
        }
        lemma_lex_le_common_prefix(a.drop_first(), b.drop_first(), i - 1);
        assert(a.drop_first().skip(i - 1) =~= a.skip(i));
        assert(b.drop_first().skip(i - 1) =~= b.skip(i));
    } else {
        assert(a.skip(0) =~= a);
        assert(b.skip(0) =~= b);
    }
}

/// Decide the lexicographic order of two paths.
pub fn lex_le_exec(a: &str, b: &str) -> (r: bool)
    ensures
        r == lex_le(a@, b@),
{
    let alen = a.unicode_len();
    let blen = b.unicode_len();
    let mut i: usize = 0;
    loop
        invariant
            i <= alen,
            i <= blen,
            alen == a@.len(),
            blen == b@.len(),
            forall|n: int| 0 <= n < i ==> a@[n] == b@[n],
        decreases alen - i,
    {
        if i == alen {
            proof {
                lemma_lex_le_common_prefix(a@, b@, i as int);
            }
            return true;
        }
        if i == blen {
            proof {
                lemma_lex_le_common_prefix(a@, b@, i as int);
            }
            return false;
        }
        let ca = a.get_char(i);
        let cb = b.get_char(i);
        if ca != cb {
            proof {
                lemma_lex_le_common_prefix(a@, b@, i as int);
                assert(a@.skip(i as int)[0] == ca);
                assert(b@.skip(i as int)[0] == cb);
            }
            return ca < cb;
        }
        i = i + 1;
    }
}

/// `x` placed into `s` before the first element that `x` is at or
/// before.
pub open spec fn insert_sorted(x: String, s: Seq<String>) -> Seq<String>
    decreases s.len(),
{
    if s.len() == 0 {
        seq![x]
    } else if lex_le(x@, s[0]@) {
        seq![x] + s
    } else {
        seq![s[0]] + insert_sorted(x, s.drop_first())
    }
}

/// The elements of `s` in lexicographic order, by insertion.
pub open spec fn sort_spec(s: Seq<String>) -> Seq<String>
    decreases s.len(),
{
    if s.len() == 0 {
        Seq::empty()
    } else {
        insert_sorted(s.last(), sort_spec(s.drop_last()))
    }
}

/// A sequence of paths in lexicographic order.
pub open spec fn sorted_le(s: Seq<String>) -> bool {
    forall|a: int, b: int| 0 <= a < b < s.len() ==> lex_le(s[a]@, s[b]@)
}

/// Inserting puts `x` exactly at the first position whose element `x` is
/// at or before.
proof fn lemma_insert_sorted_at(x: String, s: Seq<String>, p: int)
    requires
        0 <= p <= s.len(),
        forall|n: int| 0 <= n < p ==> !lex_le(x@, s[n]@),
        p < s.len() ==> lex_le(x@, s[p as int]@),
    ensures
        insert_sorted(x, s) == s.take(p) + seq![x] + s.skip(p),
    decreases s.len(),
{
    if s.len() == 0 {
        assert(insert_sorted(x, s) =~= s.take(0) + seq![x] + s.skip(0));
    } else if p == 0 {
        assert(lex_le(x@, s[0]@));
        assert(seq![x] + s =~= s.take(0) + seq![x] + s.skip(0));
    } else {
        assert(!lex_le(x@, s[0]@));
        assert forall|n: int| 0 <= n < p - 1 implies !lex_le(x@, s.drop_first()[n]@) by {
            assert(s.drop_first()[n] == s[n + 1]);
        }
        if p - 1 < s.drop_first().len() {
            assert(s.drop_first()[p - 1] == s[p]);
        }
        lemma_insert_sorted_at(x, s.drop_first(), p - 1);
        assert(seq![s[0]] + (s.drop_first().take(p - 1) + seq![x] + s.drop_first().skip(p - 1))
            =~= s.take(p) + seq![x] + s.skip(p));
    }
}

/// The members after an insertion are the inserted one and the old ones.
pub proof fn lemma_insert_sorted_contains(x: String, s: Seq<String>, y: String)
    ensures
        insert_sorted(x, s).contains(y) <==> (y == x || s.contains(y)),
    decreases s.len(),
{
    let r = insert_sorted(x, s);
    if s.len() == 0 {
        assert(r == seq![x]);
        if y == x {
            assert(r[0] == y);
        }
        if r.contains(y) {
            let w = choose|w: int| 0 <= w < r.len() && r[w] == y;
            assert(y == x);
        }
    } else if lex_le(x@, s[0]@) {
        assert(r == seq![x] + s);
        if y == x {
            assert(r[0] == y);
        }
        if s.contains(y) {
            let w = choose|w: int| 0 <= w < s.len() && s[w] == y;
            assert(r[w + 1] == y);
        }
        if r.contains(y) {
            let w = choose|w: int| 0 <= w < r.len() && r[w] == y;
            if w > 0 {
                assert(s[w - 1] == y);
            }
        }
    } else {
        lemma_insert_sorted_contains(x, s.drop_first(), y);
        let rr = insert_sorted(x, s.drop_first());
        assert(r == seq![s[0]] + rr);
        if y == x || s.contains(y) {
            if y == s[0] {
                assert(r[0] == y);
            } else if y == x || s.drop_first().contains(y) {
                let w = choose|w: int| 0 <= w < rr.len() && rr[w] == y;
                assert(r[w + 1] == y);
            } else {
                let w = choose|w: int| 0 <= w < s.len() && s[w] == y;
                assert(w > 0);
                assert(s.drop_first()[w - 1] == y);
            }
        }
        if r.contains(y) {
            let w = choose|w: int| 0 <= w < r.len() && r[w] == y;
            if w == 0 {
                assert(s[0] == y);
            } else {
                assert(rr[w - 1] == y);
                assert(rr.contains(y));
                if y != x {
                    let v = choose|v: int|
                        0 <= v < s.drop_first().len() && s.drop_first()[v] == y;
                    assert(s[v + 1] == y);
                }
            }
        }
    }
}

/// Inserting into an ordered sequence keeps it ordered.
pub proof fn lemma_insert_sorted_sorted(x: String, s: Seq<String>)
    requires
        sorted_le(s),
    ensures
        sorted_le(insert_sorted(x, s)),
    decreases s.len(),
{
    let r = insert_sorted(x, s);
    if s.len() == 0 {
    } else if lex_le(x@, s[0]@) {
        assert(r == seq![x] + s);
        assert forall|a: int, b: int| 0 <= a < b < r.len() implies lex_le(r[a]@, r[b]@) by {
            if a == 0 {
                assert(r[0] == x);
                assert(r[b] == s[b - 1]);
                if b > 1 {
                    lemma_lex_le_trans(x@, s[0]@, s[b - 1]@);
                }
            } else {
                assert(r[a] == s[a - 1] && r[b] == s[b - 1]);
            }
        }
    } else {
        assert forall|a: int, b: int|
            0 <= a < b < s.drop_first().len() implies lex_le(
            s.drop_first()[a]@,
            s.drop_first()[b]@,
        ) by {
            assert(s.drop_first()[a] == s[a + 1]);
            assert(s.drop_first()[b] == s[b + 1]);
        }
        lemma_insert_sorted_sorted(x, s.drop_first());
        lemma_lex_le_total(x@, s[0]@);
        let rr = insert_sorted(x, s.drop_first());
        assert(r == seq![s[0]] + rr);
        assert forall|a: int, b: int| 0 <= a < b < r.len() implies lex_le(r[a]@, r[b]@) by {
            if a == 0 {
                assert(r[b] == rr[b - 1]);
                assert(rr.contains(rr[b - 1]));
                lemma_insert_sorted_contains(x, s.drop_first(), rr[b - 1]);
                if rr[b - 1] == x {
                    assert(lex_le(s[0]@, x@));
                } else {
                    let v = choose|v: int|
                        0 <= v < s.drop_first().len() && s.drop_first()[v] == rr[b - 1];
                    assert(s[v + 1] == rr[b - 1]);
                    assert(lex_le(s[0]@, s[v + 1]@));
                }
            } else {
                assert(r[a] == rr[a - 1] && r[b] == rr[b - 1]);
            }
        }
    }
}

/// The sorted sequence is ordered lexicographically.
pub proof fn lemma_sort_spec_sorted(s: Seq<String>)
    ensures
        sorted_le(sort_spec(s)),
    decreases s.len(),
{
    if s.len() > 0 {
        lemma_sort_spec_sorted(s.drop_last());
        lemma_insert_sorted_sorted(s.last(), sort_spec(s.drop_last()));
    }
}

/// Sorting neither adds nor loses members.
pub proof fn lemma_sort_spec_contains(s: Seq<String>, y: String)
    ensures
        sort_spec(s).contains(y) <==> s.contains(y),
    decreases s.len(),
{
    if s.len() > 0 {
        lemma_sort_spec_contains(s.drop_last(), y);
        lemma_insert_sorted_contains(s.last(), sort_spec(s.drop_last()), y);
        if s.contains(y) {
            let w = choose|w: int| 0 <= w < s.len() && s[w] == y;
            if w < s.len() - 1 {
                assert(s.drop_last()[w] == y);
            }
        }
        if y == s.last() || s.drop_last().contains(y) {
            if y == s.last() {
                assert(s[s.len() - 1] == y);
            } else {
                let w = choose|w: int| 0 <= w < s.drop_last().len() && s.drop_last()[w] == y;
                assert(s[w] == y);
            }
        }
    }
}

/// Insertion adds the inserted member, with its multiplicity, and
/// nothing else.
proof fn lemma_insert_sorted_multiset(x: String, s: Seq<String>)
    ensures
        insert_sorted(x, s).to_multiset() == s.to_multiset().insert(x),
    decreases s.len(),
{
    let r = insert_sorted(x, s);
    if s.len() == 0 {
        assert(r =~= s.push(x));
        s.to_multiset_ensures();
        assert(r.to_multiset() =~= s.to_multiset().insert(x));
    } else if lex_le(x@, s[0]@) {
        assert(r == seq![x] + s);
        r.to_multiset_ensures();
        assert(r.remove(0) =~= s);
        assert(r[0] == x);
        assert(r.contains(x));
        assert(s.to_multiset() =~= r.to_multiset().remove(x));
        assert(r.to_multiset().count(x) > 0);
        assert(r.to_multiset() =~= s.to_multiset().insert(x));
    } else {
        lemma_insert_sorted_multiset(x, s.drop_first());
        let rr = insert_sorted(x, s.drop_first());
        assert(r == seq![s[0]] + rr);
        r.to_multiset_ensures();
        assert(r.remove(0) =~= rr);
        assert(r[0] == s[0]);
        assert(r.contains(s[0]));
        assert(rr.to_multiset() =~= r.to_multiset().remove(s[0]));
        assert(r.to_multiset().count(s[0]) > 0);
        s.to_multiset_ensures();
        assert(s.remove(0) =~= s.drop_first());
        assert(s.contains(s[0]));
        assert(s.drop_first().to_multiset() =~= s.to_multiset().remove(s[0]));
        assert(s.to_multiset().count(s[0]) > 0);
        assert(r.to_multiset() =~= s.to_multiset().insert(x));
    }
}

/// Sorting permutes: the sorted sequence holds exactly the members of
/// the input, with their multiplicities.
pub proof fn lemma_sort_spec_permutes(s: Seq<String>)
    ensures
        sort_spec(s).to_multiset() == s.to_multiset(),
    decreases s.len(),
{
    if s.len() > 0 {
        lemma_sort_spec_permutes(s.drop_last());
        lemma_insert_sorted_multiset(s.last(), sort_spec(s.drop_last()));
        assert(s.drop_last().push(s.last()) =~= s);
        s.drop_last().to_multiset_ensures();
        assert(s.to_multiset() =~= s.drop_last().to_multiset().insert(s.last()));
    } else {
        assert(s =~= Seq::<String>::empty());
    }
}

/// The first position of `out` whose element `x` is at or before, or the
/// length if there is none.
fn find_insert_pos(out: &Vec<String>, x: &String) -> (p: usize)
    ensures
        p <= out@.len(),
        forall|n: int| 0 <= n < p ==> !lex_le(x@, out@[n]@),
        p < out@.len() ==> lex_le(x@, out@[p as int]@),
{
    let mut p: usize = 0;
    while p < out.len()
        invariant
            p <= out@.len(),
            forall|n: int| 0 <= n < p ==> !lex_le(x@, out@[n]@),
        decreases out@.len() - p,
    {
        if lex_le_exec(x.as_str(), out[p].as_str()) {
            return p;
        }
        p = p + 1;
    }
    p
}

/// Sort a group's members into lexicographic path order.
pub fn sort_paths(v: Vec<String>) -> (r: Vec<String>)
    ensures
        r@ == sort_spec(v@),
{
    let ghost v0 = v@;
    let mut v = v;
    let mut out: Vec<String> = Vec::new();
    let ghost mut i: int = 0;
    while v.len() > 0
        invariant
            0 <= i <= v0.len(),
            v@ == v0.skip(i),
            out@ == sort_spec(v0.take(i)),
        decreases v.len(),
    {
        proof {
            assert(v0.take(i + 1).drop_last() =~= v0.take(i));
            assert(v0.take(i + 1).last() == v0[i]);
        }
        let x = v.remove(0);
        proof {
            assert(x == v0.skip(i)[0]);
            assert(x == v0[i]);
            assert(v@ =~= v0.skip(i + 1));
        }
        let ghost out_old = out@;
        let pos = find_insert_pos(&out, &x);
        out.insert(pos, x);
        proof {
            lemma_insert_sorted_at(x, out_old, pos as int);
            assert(out@ =~= out_old.take(pos as int) + seq![x] + out_old.skip(pos as int));
            i = i + 1;
        }
    }
    proof {
        assert(v0.take(i) =~= v0);
    }
    out
}

} // verus!
