//! Comparisons on text: prefixes, lexicographic order, and ascending lists of
//! names.
use vstd::prelude::*;
use vstd::std_specs::iter::IteratorSpec;

verus! {

/// `a` comes strictly before `b` in lexicographic order of code points. For
/// UTF-8 this is also the order of the encoded bytes.
pub open spec fn text_lt(a: Seq<char>, b: Seq<char>) -> bool
    decreases a.len(),
{
    if b.len() == 0 {
        false
    } else if a.len() == 0 {
        true
    } else if a[0] != b[0] {
        (a[0] as u32) < (b[0] as u32)
    } else {
        text_lt(a.drop_first(), b.drop_first())
    }
}

/// A list of texts is strictly ascending.
pub open spec fn ascending(s: Seq<Seq<char>>) -> bool {
    forall|i: int, j: int| 0 <= i < j < s.len() ==> text_lt(#[trigger] s[i], #[trigger] s[j])
}

/// The texts that a list of strings holds.
pub open spec fn texts(v: Seq<String>) -> Seq<Seq<char>> {
    v.map_values(|s: String| s@)
}

/// The order is irreflexive.
pub proof fn text_lt_irreflexive(a: Seq<char>)
    ensures
        !text_lt(a, a),
    decreases a.len(),
{
    if a.len() > 0 {
        text_lt_irreflexive(a.drop_first());
    }
}

/// The order is transitive.
pub proof fn text_lt_transitive(a: Seq<char>, b: Seq<char>, c: Seq<char>)
    requires
        text_lt(a, b),
        text_lt(b, c),
    ensures
        text_lt(a, c),
    decreases a.len(),
{
    if a.len() > 0 && a[0] == b[0] && b[0] == c[0] {
        text_lt_transitive(a.drop_first(), b.drop_first(), c.drop_first());
    }
}

proof fn char_code_injective(a: char, b: char)
    requires
        a != b,
    ensures
        (a as u32) != (b as u32),
{
    assert((a as u32) as char == a);
}

/// Of two different texts one comes before the other.
pub proof fn text_lt_total(a: Seq<char>, b: Seq<char>)
    ensures
        text_lt(a, b) || a == b || text_lt(b, a),
    decreases a.len(),
{
    if a.len() > 0 && b.len() > 0 && a[0] == b[0] {
        text_lt_total(a.drop_first(), b.drop_first());
        if a.drop_first() == b.drop_first() {
            assert(a =~= seq![a[0]] + a.drop_first());
            assert(b =~= seq![b[0]] + b.drop_first());
        }
    } else if a.len() == 0 && b.len() == 0 {
        assert(a =~= b);
    } else if a.len() > 0 && b.len() > 0 {
        char_code_injective(a[0], b[0]);
    }
}

/// Two ascending lists of the same texts are the same list.
pub proof fn ascending_unique(s: Seq<Seq<char>>, t: Seq<Seq<char>>)
    requires
        ascending(s),
        ascending(t),
        forall|x: Seq<char>| s.contains(x) <==> t.contains(x),
    ensures
        s == t,
    decreases s.len(),
{
    if s.len() == 0 {
        if t.len() > 0 {
            assert(t.contains(t[0]));
        }
        assert(s =~= t);
    } else {
        assert(s.contains(s[0]));
        let k = choose|k: int| 0 <= k < t.len() && t[k] == s[0];
        assert(t.contains(t[0]));
        let m = choose|m: int| 0 <= m < s.len() && s[m] == t[0];
        if k > 0 {
            assert(text_lt(t[0], t[k]));
            if m > 0 {
                assert(text_lt(s[0], s[m]));
                text_lt_transitive(t[0], s[0], t[0]);
            }
            text_lt_irreflexive(t[0]);
        }
        assert(t[0] == s[0]);
        let s1 = s.drop_first();
        let t1 = t.drop_first();
        assert forall|i: int, j: int| 0 <= i < j < s1.len() implies text_lt(
            #[trigger] s1[i],
            #[trigger] s1[j],
        ) by {
            assert(s1[i] == s[i + 1] && s1[j] == s[j + 1]);
        }
        assert forall|i: int, j: int| 0 <= i < j < t1.len() implies text_lt(
            #[trigger] t1[i],
            #[trigger] t1[j],
        ) by {
            assert(t1[i] == t[i + 1] && t1[j] == t[j + 1]);
        }
        assert forall|x: Seq<char>| s1.contains(x) <==> t1.contains(x) by {
            if s1.contains(x) {
                let i = choose|i: int| 0 <= i < s1.len() && s1[i] == x;
                assert(s[i + 1] == x);
                assert(s.contains(x));
                let j = choose|j: int| 0 <= j < t.len() && t[j] == x;
                if j == 0 {
                    assert(text_lt(s[0], s[i + 1]));
                    text_lt_irreflexive(x);
                }
                assert(t1[j - 1] == x);
            }
            if t1.contains(x) {
                let i = choose|i: int| 0 <= i < t1.len() && t1[i] == x;
                assert(t[i + 1] == x);
                assert(t.contains(x));
                let j = choose|j: int| 0 <= j < s.len() && s[j] == x;
                if j == 0 {
                    assert(text_lt(t[0], t[i + 1]));
                    text_lt_irreflexive(x);
                }
                assert(s1[j - 1] == x);
            }
        }
        ascending_unique(s1, t1);
        assert(s =~= seq![s[0]] + s1);
        assert(t =~= seq![t[0]] + t1);
    }
}

/// Whether two texts are equal.
pub fn text_eq(a: &str, b: &str) -> (r: bool)
    ensures
        r == (a@ == b@),
{
    let mut x = a.chars();
    let mut y = b.chars();
    let ghost mut k: int = 0;
    loop
        invariant
            0 <= k <= a@.len(),
            k <= b@.len(),
            a@.take(k) == b@.take(k),
            x.obeys_prophetic_iter_laws(),
            y.obeys_prophetic_iter_laws(),
            x.remaining() == a@.skip(k),
            y.remaining() == b@.skip(k),
        decreases a@.len() - k,
    {
        let c = x.next();
        let d = y.next();
        match c {
            None => {
                proof {
                    assert(a@.len() == k);
                    assert(a@.take(k) =~= a@);
                    if b@.len() == k {
                        assert(b@.take(k) =~= b@);
                    }
                }
                return d.is_none();
            },
            Some(cc) => match d {
                None => {
                    return false;
                },
                Some(dd) => {
                    if cc != dd {
                        assert(a@[k] != b@[k]);
                        return false;
                    }
                    proof {
                        assert(a@.take(k + 1) =~= a@.take(k).push(cc));
                        assert(b@.take(k + 1) =~= b@.take(k).push(dd));
                        assert(a@.skip(k).drop_first() =~= a@.skip(k + 1));
                        assert(b@.skip(k).drop_first() =~= b@.skip(k + 1));
                        k = k + 1;
                    }
                },
            },
        }
    }
}

/// Whether `s` begins with `prefix`.
pub fn starts_with(s: &str, prefix: &str) -> (r: bool)
    ensures
        r == prefix@.is_prefix_of(s@),
{
    let mut x = prefix.chars();
    let mut y = s.chars();
    let ghost mut k: int = 0;
    loop
        invariant
            0 <= k <= prefix@.len(),
            k <= s@.len(),
            prefix@.take(k) == s@.take(k),
            x.obeys_prophetic_iter_laws(),
            y.obeys_prophetic_iter_laws(),
            x.remaining() == prefix@.skip(k),
            y.remaining() == s@.skip(k),
        decreases prefix@.len() - k,
    {
        match x.next() {
            None => {
                proof {
                    assert(prefix@.len() == k);
                    assert(prefix@.take(k) =~= prefix@);
                    assert(s@.subrange(0, k) =~= s@.take(k));
                }
                return true;
            },
            Some(c) => match y.next() {
                None => {
                    return false;
                },
                Some(d) => {
                    if c != d {
                        proof {
                            if prefix@.is_prefix_of(s@) {
                                assert(prefix@[k] == s@.subrange(0, prefix@.len() as int)[k]);
                            }
                        }
                        return false;
                    }
                    proof {
                        assert(prefix@.take(k + 1) =~= prefix@.take(k).push(c));
                        assert(s@.take(k + 1) =~= s@.take(k).push(d));
                        assert(prefix@.skip(k).drop_first() =~= prefix@.skip(k + 1));
                        assert(s@.skip(k).drop_first() =~= s@.skip(k + 1));
                        k = k + 1;
                    }
                },
            },
        }
    }
}

/// Whether `a` comes strictly before `b`.
pub fn text_before(a: &str, b: &str) -> (r: bool)
    ensures
        r == text_lt(a@, b@),
{
    let mut x = a.chars();
    let mut y = b.chars();
    let ghost mut k: int = 0;
    proof {
        assert(a@.skip(0) =~= a@);
        assert(b@.skip(0) =~= b@);
    }
    loop
        invariant
            0 <= k <= a@.len(),
            k <= b@.len(),
            text_lt(a@, b@) == text_lt(a@.skip(k), b@.skip(k)),
            x.obeys_prophetic_iter_laws(),
            y.obeys_prophetic_iter_laws(),
            x.remaining() == a@.skip(k),
            y.remaining() == b@.skip(k),
        decreases a@.len() - k,
    {
        match y.next() {
            None => {
                return false;
            },
            Some(d) => match x.next() {
                None => {
                    return true;
                },
                Some(c) => {
                    if c != d {
                        return (c as u32) < (d as u32);
                    }
                    proof {
                        assert(a@.skip(k).drop_first() =~= a@.skip(k + 1));
                        assert(b@.skip(k).drop_first() =~= b@.skip(k + 1));
                        k = k + 1;
                    }
                },
            },
        }
    }
}

/// Puts `name` at its place in an ascending list that does not hold it.
pub fn insert_name(names: &mut Vec<String>, name: String)
    requires
        ascending(texts(old(names)@)),
        !texts(old(names)@).contains(name@),
    ensures
        ascending(texts(final(names)@)),
        final(names)@.len() == old(names)@.len() + 1,
        forall|x: Seq<char>|
            texts(final(names)@).contains(x) <==> (x == name@ || texts(old(names)@).contains(x)),
{
    let mut i: usize = 0;
    let ghost t = texts(names@);
    while i < names.len() && text_before(names[i].as_str(), name.as_str())
        invariant
            i <= names@.len(),
            t == texts(names@),
            ascending(t),
            forall|j: int| 0 <= j < i ==> text_lt(#[trigger] t[j], name@),
        decreases names@.len() - i,
    {
        i += 1;
    }
    let ghost n = name@;
    proof {
        if i < t.len() {
            text_lt_total(t[i as int], n);
            assert(t[i as int] != n) by {
                if t[i as int] == n {
                    assert(t.contains(n));
                }
            }
        }
    }
    names.insert(i, name);
    proof {
        let u = texts(names@);
        assert(u =~= t.insert(i as int, n));
        assert forall|a: int, b: int| 0 <= a < b < u.len() implies text_lt(
            #[trigger] u[a],
            #[trigger] u[b],
        ) by {
            if a < i && b == i {
                assert(u[a] == t[a]);
            } else if a == i && b > i {
                assert(u[b] == t[b - 1]);
                if b - 1 > i {
                    assert(text_lt(t[i as int], t[b - 1]));
                    text_lt_transitive(n, t[i as int], t[b - 1]);
                }
            } else if a > i {
                assert(u[a] == t[a - 1] && u[b] == t[b - 1]);
            } else if b > i {
                assert(u[a] == t[a] && u[b] == t[b - 1]);
            } else {
                assert(u[a] == t[a] && u[b] == t[b]);
            }
        }
        assert forall|x: Seq<char>| u.contains(x) <==> (x == n || t.contains(x)) by {
            if u.contains(x) {
                let j = choose|j: int| 0 <= j < u.len() && u[j] == x;
                if j < i {
                    assert(t[j] == x);
                } else if j > i {
                    assert(t[j - 1] == x);
                }
            }
            if x == n {
                assert(u[i as int] == x);
            }
            if t.contains(x) {
                let j = choose|j: int| 0 <= j < t.len() && t[j] == x;
                if j < i {
                    assert(u[j] == x);
                } else {
                    assert(u[j + 1] == x);
                }
            }
        }
    }
}

} // verus!
