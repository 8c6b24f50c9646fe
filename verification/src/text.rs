use vstd::prelude::*;
use vstd::string::*;

verus! {

/// Strict lexicographic order on character sequences, comparing code points.
/// This is the order in which day-bucket filename lists are returned.
pub open spec fn lex_lt(a: Seq<char>, b: Seq<char>) -> bool
    decreases a.len(),
{
    if b.len() == 0 {
        false
    } else if a.len() == 0 {
        true
    } else if a[0] < b[0] {
        true
    } else if a[0] == b[0] {
        lex_lt(a.skip(1), b.skip(1))
    } else {
        false
    }
}

pub proof fn lemma_lex_irrefl(a: Seq<char>)
    ensures
        !lex_lt(a, a),
    decreases a.len(),
{
    if a.len() > 0 {
        lemma_lex_irrefl(a.skip(1));
    }
}

pub proof fn lemma_lex_trichotomy(a: Seq<char>, b: Seq<char>)
    ensures
        lex_lt(a, b) || lex_lt(b, a) || a == b,
    decreases a.len(),
{
    if a.len() == 0 || b.len() == 0 {
        if a.len() == b.len() {
            assert(a =~= b);
        }
    } else if a[0] == b[0] {
        lemma_lex_trichotomy(a.skip(1), b.skip(1));
        if a.skip(1) == b.skip(1) {
            assert(a.skip(1).len() == b.skip(1).len());
            assert(a.len() == b.len());
            assert forall|i: int| 0 <= i < a.len() implies a[i] == b[i] by {
                if i > 0 {
                    assert(a.skip(1)[i - 1] == a[i]);
                    assert(b.skip(1)[i - 1] == b[i]);
                }
            }
            assert(a =~= b);
        }
    }
}

pub proof fn lemma_lex_trans(a: Seq<char>, b: Seq<char>, c: Seq<char>)
    requires
        lex_lt(a, b),
        lex_lt(b, c),
    ensures
        lex_lt(a, c),
    decreases a.len(),
{
    if a.len() > 0 && b.len() > 0 && c.len() > 0 {
        if a[0] == b[0] && b[0] == c[0] {
            lemma_lex_trans(a.skip(1), b.skip(1), c.skip(1));
        }
    }
}

/// Compares two strings in lexicographic code-point order.
pub fn str_lex_lt(a: &str, b: &str) -> (r: bool)
    ensures
        r == lex_lt(a@, b@),
{
    let alen = a.unicode_len();
    let blen = b.unicode_len();
    let mut i: usize = 0;
    proof {
        assert(a@.skip(0) =~= a@);
        assert(b@.skip(0) =~= b@);
    }
    loop
        invariant
            i <= alen,
            i <= blen,
            alen == a@.len(),
            blen == b@.len(),
            lex_lt(a@, b@) == lex_lt(a@.skip(i as int), b@.skip(i as int)),
        decreases blen - i,
    {
        if i >= blen {
            return false;
        }
        if i >= alen {
            return true;
        }
        let ca = a.get_char(i);
        let cb = b.get_char(i);
        if ca < cb {
            assert(a@.skip(i as int)[0] == ca);
            assert(b@.skip(i as int)[0] == cb);
            return true;
        }
        if ca != cb {
            return false;
        }
        proof {
            assert(a@.skip(i as int).skip(1) =~= a@.skip(i + 1));
            assert(b@.skip(i as int).skip(1) =~= b@.skip(i + 1));
        }
        i = i + 1;
    }
}

/// A filename carries the tracked note extension when it ends in ".md"
/// with a nonempty stem, matching how a path's extension is read.
pub open spec fn is_note_name(s: Seq<char>) -> bool {
    s.len() > 3 && s[s.len() - 3] == '.' && s[s.len() - 2] == 'm' && s[s.len() - 1] == 'd'
}

/// Tests whether a filename carries the tracked note extension.
pub fn note_name(s: &str) -> (r: bool)
    ensures
        r == is_note_name(s@),
{
    let n = s.unicode_len();
    if n <= 3 {
        return false;
    }
    s.get_char(n - 3) == '.' && s.get_char(n - 2) == 'm' && s.get_char(n - 1) == 'd'
}

/// The index just past the last '/' of a path, or 0 when it has none:
/// where the filename component starts.
pub open spec fn name_start(p: Seq<char>) -> int
    decreases p.len(),
{
    if p.len() == 0 {
        0
    } else if p[p.len() - 1] == '/' {
        p.len() as int
    } else {
        name_start(p.take(p.len() - 1))
    }
}

/// The start of the filename component is pinned down by a position whose
/// predecessor is a '/' and after which no '/' occurs.
pub proof fn lemma_name_start_at(p: Seq<char>, i: int)
    requires
        0 <= i <= p.len(),
        forall|k: int| i <= k < p.len() ==> p[k] != '/',
        i == 0 || p[i - 1] == '/',
    ensures
        name_start(p) == i,
    decreases p.len(),
{
    if p.len() == 0 {
    } else if p[p.len() - 1] == '/' {
        assert(i == p.len());
    } else {
        assert(i < p.len());
        let q = p.take(p.len() - 1);
        assert(forall|k: int| i <= k < q.len() ==> q[k] == p[k]);
        if i > 0 {
            assert(q[i - 1] == p[i - 1]);
        }
        lemma_name_start_at(q, i);
    }
}

/// The filename component of a path: everything after the last '/'.
pub open spec fn base_name(p: Seq<char>) -> Seq<char> {
    p.subrange(name_start(p), p.len() as int)
}

/// Returns the filename component of a path, discarding any directory prefix.
pub fn file_name_of(p: &str) -> (r: String)
    ensures
        r@ == base_name(p@),
{
    let n = p.unicode_len();
    let mut i: usize = n;
    while i > 0 && p.get_char(i - 1) != '/'
        invariant
            0 <= i <= n,
            n == p@.len(),
            forall|k: int| i <= k < n ==> p@[k] != '/',
        decreases i,
    {
        i = i - 1;
    }
    proof {
        lemma_name_start_at(p@, i as int);
    }
    let r = p.substring_char(i, n);
    r.to_owned()
}

/// The sequence of views of a vector of strings.
pub open spec fn views_of(v: Seq<String>) -> Seq<Seq<char>> {
    v.map_values(|s: String| s@)
}

/// A list of names is strictly sorted: ascending and therefore free of duplicates.
pub open spec fn strict_sorted(s: Seq<Seq<char>>) -> bool {
    forall|i: int, j: int| 0 <= i < j < s.len() ==> lex_lt(s[i], s[j])
}

/// Inserts a name into a strictly sorted list, keeping it sorted and
/// dropping the name when it is already present.
pub fn sorted_insert(v: &mut Vec<String>, name: String)
    requires
        strict_sorted(views_of(old(v)@)),
    ensures
        strict_sorted(views_of(final(v)@)),
        forall|x: Seq<char>|
            views_of(final(v)@).contains(x) <==> (views_of(old(v)@).contains(x) || x == name@),
{
    let ghost orig = v@;
    let mut i: usize = 0;
    while i < v.len() && str_lex_lt(v[i].as_str(), name.as_str())
        invariant
            0 <= i <= v.len(),
            v@ == orig,
            strict_sorted(views_of(orig)),
            forall|k: int| 0 <= k < i ==> lex_lt(orig[k]@, name@),
        decreases v.len() - i,
    {
        i = i + 1;
    }
    if i < v.len() {
        let same: bool = v[i] == name;
        if same {
            proof {
                assert(views_of(v@)[i as int] == name@);
                assert(views_of(v@).contains(name@));
            }
            return;
        }
    }
    proof {
        if i < orig.len() {
            lemma_lex_trichotomy(orig[i as int]@, name@);
            assert(lex_lt(name@, orig[i as int]@));
        }
    }
    v.insert(i, name);
    proof {
        let fin = views_of(v@);
        let before = views_of(orig);
        assert(v@ == orig.insert(i as int, name));
        assert forall|a: int, b: int| 0 <= a < b < fin.len() implies lex_lt(fin[a], fin[b]) by {
            let oa: int = if a < i { a } else { a - 1 };
            let ob: int = if b <= i { b } else { b - 1 };
            if a == i {
                // name against a later element
                assert(fin[b] == before[ob]);
                if ob == i {
                    assert(lex_lt(name@, before[i as int]));
                } else {
                    lemma_lex_trans(name@, before[i as int], before[ob]);
                }
            } else if b == i {
                assert(fin[a] == before[oa]);
                if oa < i {
                    assert(lex_lt(before[oa], name@));
                }
            } else {
                assert(fin[a] == before[oa]);
                assert(fin[b] == before[ob]);
                if oa < i && ob >= i {
                    if lex_lt(before[oa], before[ob]) {
                    } else {
                        assert(oa < ob);
                    }
                }
            }
        }
        assert forall|x: Seq<char>| fin.contains(x) <==> (before.contains(x) || x == name@) by {
            if fin.contains(x) {
                let k = choose|k: int| 0 <= k < fin.len() && fin[k] == x;
                if k == i {
                    assert(x == name@);
                } else {
                    let ok: int = if k < i { k } else { k - 1 };
                    assert(before[ok] == x);
                    assert(before.contains(x));
                }
            }
            if before.contains(x) {
                let k = choose|k: int| 0 <= k < before.len() && before[k] == x;
                let nk: int = if k < i { k } else { k + 1 };
                assert(fin[nk] == x);
                assert(fin.contains(x));
            }
            if x == name@ {
                assert(fin[i as int] == x);
                assert(fin.contains(x));
            }
        }
    }
}

} // verus!
