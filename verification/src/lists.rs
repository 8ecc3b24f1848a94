//! Token lists: copying, appending and removing every occurrence of a token.
use vstd::prelude::*;
use crate::text::str_views;

verus! {

/// `s` with every occurrence of `t` taken out, the rest in order.
pub open spec fn without(s: Seq<Seq<char>>, t: Seq<char>) -> Seq<Seq<char>>
    decreases s.len(),
{
    if s.len() == 0 {
        Seq::empty()
    } else {
        let prev = without(s.drop_last(), t);
        if s.last() == t {
            prev
        } else {
            prev.push(s.last())
        }
    }
}

pub proof fn lemma_without_contains(s: Seq<Seq<char>>, t: Seq<char>, x: Seq<char>)
    ensures
        without(s, t).contains(x) == (s.contains(x) && x != t),
    decreases s.len(),
{
    if s.len() > 0 {
        let p = s.drop_last();
        lemma_without_contains(p, t, x);
        let wp = without(p, t);
        let w = without(s, t);
        assert(s =~= p.push(s.last()));
        assert(s.contains(x) == (p.contains(x) || s.last() == x)) by {
            if s.contains(x) {
                let i = choose|i: int| 0 <= i < s.len() && s[i] == x;
                if i < p.len() {
                    assert(p[i] == x);
                }
            }
            if p.contains(x) {
                let i = choose|i: int| 0 <= i < p.len() && p[i] == x;
                assert(s[i] == x);
            }
            if s.last() == x {
                assert(s[s.len() - 1] == x);
            }
        }
        if s.last() == t {
            assert(w == wp);
        } else {
            assert(w == wp.push(s.last()));
            assert(w.contains(x) == (wp.contains(x) || s.last() == x)) by {
                if w.contains(x) {
                    let i = choose|i: int| 0 <= i < w.len() && w[i] == x;
                    if i < wp.len() {
                        assert(wp[i] == x);
                    }
                }
                if wp.contains(x) {
                    let i = choose|i: int| 0 <= i < wp.len() && wp[i] == x;
                    assert(w[i] == x);
                }
                if s.last() == x {
                    assert(w[w.len() - 1] == x);
                }
            }
        }
    }
}

pub proof fn lemma_without_no_dups(s: Seq<Seq<char>>, t: Seq<char>)
    requires
        s.no_duplicates(),
    ensures
        without(s, t).no_duplicates(),
    decreases s.len(),
{
    if s.len() > 0 {
        let p = s.drop_last();
        assert(p.no_duplicates());
        lemma_without_no_dups(p, t);
        if s.last() != t {
            lemma_without_contains(p, t, s.last());
            assert(!p.contains(s.last())) by {
                if p.contains(s.last()) {
                    let i = choose|i: int| 0 <= i < p.len() && p[i] == s.last();
                    assert(s[i] == s[s.len() - 1]);
                }
            }
        }
    }
}

pub proof fn lemma_without_len(s: Seq<Seq<char>>, t: Seq<char>)
    requires
        s.no_duplicates(),
    ensures
        s.contains(t) ==> without(s, t).len() == s.len() - 1,
        !s.contains(t) ==> without(s, t) == s,
    decreases s.len(),
{
    if s.len() == 0 {
        assert(!s.contains(t));
        assert(without(s, t) =~= s);
    } else {
        let p = s.drop_last();
        assert(p.no_duplicates());
        lemma_without_len(p, t);
        assert(s =~= p.push(s.last()));
        if s.last() == t {
            assert(!p.contains(t)) by {
                if p.contains(t) {
                    let i = choose|i: int| 0 <= i < p.len() && p[i] == t;
                    assert(s[i] == s[s.len() - 1]);
                }
            }
        } else {
            assert(s.contains(t) == p.contains(t)) by {
                if s.contains(t) {
                    let i = choose|i: int| 0 <= i < s.len() && s[i] == t;
                    assert(i < p.len());
                    assert(p[i] == t);
                }
                if p.contains(t) {
                    let i = choose|i: int| 0 <= i < p.len() && p[i] == t;
                    assert(s[i] == t);
                }
            }
        }
    }
}

pub proof fn lemma_without_len_le(s: Seq<Seq<char>>, t: Seq<char>)
    ensures
        without(s, t).len() <= s.len(),
    decreases s.len(),
{
    if s.len() > 0 {
        lemma_without_len_le(s.drop_last(), t);
    }
}

/// A copy of the strings in `v`.
pub fn copy_strings(v: &Vec<String>) -> (r: Vec<String>)
    ensures
        r@ == v@,
{
    let mut r: Vec<String> = Vec::new();
    let mut i: usize = 0;
    while i < v.len()
        invariant
            i <= v@.len(),
            r@ == v@.take(i as int),
        decreases v@.len() - i,
    {
        r.push(v[i].clone());
        i = i + 1;
        assert(r@ =~= v@.take(i as int));
    }
    assert(v@.take(v@.len() as int) =~= v@);
    r
}

/// The strings of `v` other than `t`, in order.
pub fn strings_without(v: &Vec<String>, t: &String) -> (r: Vec<String>)
    ensures
        str_views(r@) == without(str_views(v@), t@),
{
    let mut r: Vec<String> = Vec::new();
    let mut i: usize = 0;
    while i < v.len()
        invariant
            i <= v@.len(),
            str_views(r@) == without(str_views(v@).take(i as int), t@),
        decreases v@.len() - i,
    {
        let ghost pre = str_views(v@).take(i as int);
        let ghost post = str_views(v@).take(i + 1);
        assert(post.drop_last() =~= pre);
        assert(post.last() == v@[i as int]@);
        if v[i] != *t {
            r.push(v[i].clone());
        }
        i = i + 1;
        assert(str_views(r@) =~= without(str_views(v@).take(i as int), t@));
    }
    assert(str_views(v@).take(v@.len() as int) =~= str_views(v@));
    r
}

} // verus!
