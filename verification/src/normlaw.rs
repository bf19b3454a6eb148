//! posixpath.normpath gives a path that it leaves as it is.

use vstd::prelude::*;
use crate::pypath::{
    first_index, initial_slashes, join_slash, join_spec, last_index, lemma_first_index, lemma_first_index_range,
    lemma_last_index_props, norm_comps, normpath_spec, rstrip_slash, split_parts, split_spec,
};

verus! {

pub open spec fn dotdot() -> Seq<char> {
    seq!['.', '.']
}

/// A component that normpath keeps: not empty, not ".", without '/'.
pub open spec fn clean_comp(c: Seq<char>) -> bool {
    &&& c.len() > 0
    &&& c != seq!['.']
    &&& !c.contains('/')
}

/// Components as normpath leaves them: clean, and ".." only in a leading
/// run, and only where the path has no leading slash.
pub open spec fn normal_comps(cs: Seq<Seq<char>>, initial: nat) -> bool {
    forall|i: int|
        0 <= i < cs.len() ==> clean_comp(#[trigger] cs[i]) && (cs[i] == dotdot() ==> initial == 0
            && forall|j: int| 0 <= j < i ==> cs[j] == dotdot())
}

pub open spec fn slashes(n: nat) -> Seq<char> {
    Seq::new(n, |i: int| '/')
}

pub open spec fn empties(n: nat) -> Seq<Seq<char>> {
    Seq::new(n, |i: int| Seq::<char>::empty())
}

proof fn lemma_first_index_props(s: Seq<char>, c: char)
    ensures
        first_index(s, c) >= 0 ==> s[first_index(s, c)] == c,
        forall|j: int| 0 <= j < s.len() && (first_index(s, c) < 0 || j < first_index(s, c)) ==> s[j] != c,
    decreases s.len(),
{
    lemma_first_index_range(s, c);
    if s.len() > 0 && s[0] != c {
        let t = s.drop_first();
        lemma_first_index_props(t, c);
        lemma_first_index_range(t, c);
        assert forall|j: int| 0 <= j < s.len() && (first_index(s, c) < 0 || j < first_index(s, c)) implies s[j]
            != c by {
            if j > 0 {
                assert(s[j] == t[j - 1]);
            }
        }
        if first_index(s, c) >= 0 {
            assert(s[first_index(s, c)] == t[first_index(t, c)]);
        }
    }
}

/// No part between slashes holds a slash.
proof fn lemma_parts_no_slash(p: Seq<char>)
    ensures
        forall|i: int| 0 <= i < split_parts(p).len() ==> !(#[trigger] split_parts(p)[i]).contains('/'),
    decreases p.len(),
{
    let k = first_index(p, '/');
    lemma_first_index_range(p, '/');
    lemma_first_index_props(p, '/');
    if k < 0 {
        assert(split_parts(p) == seq![p]);
        assert forall|i: int| 0 <= i < split_parts(p).len() implies !(#[trigger] split_parts(p)[i]).contains('/') by {
            assert(split_parts(p)[i] == p);
            if p.contains('/') {
                let j = choose|j: int| 0 <= j < p.len() && p[j] == '/';
                assert(p[j] != '/');
            }
        }
    } else {
        let rest = p.skip(k + 1);
        lemma_parts_no_slash(rest);
        let head = p.take(k);
        assert(split_parts(p) == seq![head] + split_parts(rest));
        assert forall|i: int| 0 <= i < split_parts(p).len() implies !(#[trigger] split_parts(p)[i]).contains('/') by {
            if i == 0 {
                assert(split_parts(p)[0] == head);
                if head.contains('/') {
                    let j = choose|j: int| 0 <= j < head.len() && head[j] == '/';
                    assert(p[j] == '/');
                }
            } else {
                assert(split_parts(p)[i] == split_parts(rest)[i - 1]);
            }
        }
    }
}

/// What normpath keeps of parts without slashes is normal.
proof fn lemma_norm_comps_normal(parts: Seq<Seq<char>>, k: int, initial: nat)
    requires
        forall|i: int| 0 <= i < parts.len() ==> !(#[trigger] parts[i]).contains('/'),
    ensures
        normal_comps(norm_comps(parts, k, initial), initial),
    decreases k,
{
    if k <= 0 || k > parts.len() {
    } else {
        lemma_norm_comps_normal(parts, k - 1, initial);
        let comps = norm_comps(parts, k - 1, initial);
        let comp = parts[k - 1];
        let r = norm_comps(parts, k, initial);
        if comp.len() == 0 || comp == seq!['.'] {
        } else if comp != dotdot() || (initial == 0 && comps.len() == 0) || (comps.len() > 0 && comps.last()
            == dotdot()) {
            assert(r == comps.push(comp));
            assert forall|i: int| 0 <= i < r.len() implies clean_comp(#[trigger] r[i]) && (r[i] == dotdot()
                ==> initial == 0 && forall|j: int| 0 <= j < i ==> r[j] == dotdot()) by {
                if i < comps.len() {
                    assert(r[i] == comps[i]);
                    assert forall|j: int| 0 <= j < i implies r[j] == comps[j] by {}
                } else {
                    assert(r[i] == comp);
                    if comp == dotdot() && comps.len() > 0 {
                        assert(comps[comps.len() - 1] == dotdot());
                        assert forall|j: int| 0 <= j < i implies r[j] == dotdot() by {
                            assert(r[j] == comps[j]);
                            if j < comps.len() - 1 {
                                assert(comps[comps.len() - 1] == dotdot());
                            }
                        }
                    }
                }
            }
        } else if comps.len() > 0 {
            assert(r == comps.drop_last());
            assert forall|i: int| 0 <= i < r.len() implies clean_comp(#[trigger] r[i]) && (r[i] == dotdot()
                ==> initial == 0 && forall|j: int| 0 <= j < i ==> r[j] == dotdot()) by {
                assert(r[i] == comps[i]);
                assert forall|j: int| 0 <= j < i implies r[j] == comps[j] by {}
            }
        }
    }
}

/// Over empty parts followed by normal components, normpath keeps exactly
/// those components.
proof fn lemma_norm_comps_of_normal(e: nat, cs: Seq<Seq<char>>, initial: nat, k: int)
    requires
        normal_comps(cs, initial),
        0 <= k <= e + cs.len(),
    ensures
        norm_comps(empties(e) + cs, k, initial) == (if k <= e { Seq::<Seq<char>>::empty() } else {
            cs.take(k - e)
        }),
    decreases k,
{
    let parts = empties(e) + cs;
    if k > 0 {
        lemma_norm_comps_of_normal(e, cs, initial, k - 1);
        let comp = parts[k - 1];
        if k <= e {
            assert(comp == Seq::<char>::empty());
        } else {
            let j = k - 1 - e;
            assert(comp == cs[j]);
            assert(clean_comp(cs[j]));
            let prev = if k - 1 <= e { Seq::<Seq<char>>::empty() } else { cs.take(k - 1 - e) };
            assert(prev =~= cs.take(j));
            if comp == dotdot() {
                if j > 0 {
                    assert(prev.last() == cs[j - 1]);
                    assert(cs[j - 1] == dotdot());
                }
            }
            assert(cs.take(j).push(cs[j]) =~= cs.take(j + 1));
        }
    } else {
        assert(Seq::<Seq<char>>::empty() =~= cs.take(0));
    }
}

proof fn lemma_split_slash_first(x: Seq<char>)
    ensures
        split_parts(seq!['/'] + x) == seq![Seq::<char>::empty()] + split_parts(x),
{
    let p = seq!['/'] + x;
    assert(first_index(p, '/') == 0);
    assert(p.take(0) =~= Seq::<char>::empty());
    assert(p.skip(1) =~= x);
}

proof fn lemma_split_slashes(n: nat, x: Seq<char>)
    ensures
        split_parts(slashes(n) + x) == empties(n) + split_parts(x),
    decreases n,
{
    if n > 0 {
        lemma_split_slashes((n - 1) as nat, x);
        assert(slashes(n) + x =~= seq!['/'] + (slashes((n - 1) as nat) + x));
        lemma_split_slash_first(slashes((n - 1) as nat) + x);
        assert(empties(n) =~= seq![Seq::<char>::empty()] + empties((n - 1) as nat));
    } else {
        assert(slashes(0) + x =~= x);
        assert(empties(0) + split_parts(x) =~= split_parts(x));
    }
}

proof fn lemma_join_first(cs: Seq<Seq<char>>)
    requires
        cs.len() >= 2,
    ensures
        join_slash(cs) == cs[0] + seq!['/'] + join_slash(cs.skip(1)),
    decreases cs.len(),
{
    if cs.len() == 2 {
        assert(cs.drop_last().len() == 1);
        assert(join_slash(cs.drop_last()) == cs[0]);
        assert(cs.skip(1).len() == 1);
        assert(join_slash(cs.skip(1)) == cs[1]);
    } else {
        lemma_join_first(cs.drop_last());
        assert(cs.drop_last().skip(1) =~= cs.skip(1).drop_last());
        assert(cs.skip(1).last() == cs.last());
        assert(cs.skip(1).len() >= 2);
        assert(join_slash(cs.skip(1)) == join_slash(cs.skip(1).drop_last()) + seq!['/'] + cs.skip(1).last());
    }
}

/// Components without slashes, joined with '/', split back into themselves.
proof fn lemma_split_join(cs: Seq<Seq<char>>)
    requires
        cs.len() >= 1,
        forall|i: int| 0 <= i < cs.len() ==> !(#[trigger] cs[i]).contains('/'),
    ensures
        split_parts(join_slash(cs)) == cs,
    decreases cs.len(),
{
    let c = cs[0];
    if cs.len() == 1 {
        assert(join_slash(cs) == c);
        assert(!c.contains('/'));
        assert forall|j: int| 0 <= j < c.len() implies c[j] != '/' by {
            if c[j] == '/' {
                assert(c.contains('/'));
            }
        }
        lemma_first_index(c, '/', -1);
        assert(split_parts(c) == seq![c]);
        assert(seq![c] =~= cs);
    } else {
        lemma_join_first(cs);
        let rest = cs.skip(1);
        assert forall|i: int| 0 <= i < rest.len() implies !(#[trigger] rest[i]).contains('/') by {
            assert(rest[i] == cs[i + 1]);
        }
        lemma_split_join(rest);
        let s = c + seq!['/'] + join_slash(rest);
        assert forall|j: int| 0 <= j < c.len() implies s[j] != '/' by {
            assert(s[j] == c[j]);
            if c[j] == '/' {
                assert(c.contains('/'));
            }
        }
        assert(s[c.len() as int] == '/');
        lemma_first_index(s, '/', c.len() as int);
        assert(s.take(c.len() as int) =~= c);
        assert(s.skip(c.len() as int + 1) =~= join_slash(rest));
        assert(seq![c] + rest =~= cs);
    }
}

/// The first character of joined components is that of the first one.
proof fn lemma_join_starts(cs: Seq<Seq<char>>)
    requires
        cs.len() >= 1,
        cs[0].len() > 0,
    ensures
        join_slash(cs).len() > 0,
        join_slash(cs)[0] == cs[0][0],
{
    if cs.len() >= 2 {
        lemma_join_first(cs);
    }
}

/// posixpath.normpath leaves what it gives as it is.
pub proof fn lemma_normpath_idempotent(p: Seq<char>)
    ensures
        normpath_spec(normpath_spec(p)) == normpath_spec(p),
{
    let s = normpath_spec(p);
    let dot = seq!['.'];
    // normpath(".") == "."
    assert(split_parts(dot) == seq![dot]) by {
        lemma_first_index(dot, '/', -1);
    }
    assert(norm_comps(seq![dot], 0, 0) == Seq::<Seq<char>>::empty());
    assert(seq![dot][0] == dot);
    assert(norm_comps(seq![dot], 1, 0) == Seq::<Seq<char>>::empty());
    assert(initial_slashes(dot) == 0);
    assert(slashes(0) + join_slash(Seq::<Seq<char>>::empty()) =~= Seq::<char>::empty());
    assert(normpath_spec(dot) == dot);
    if p.len() > 0 {
        let initial = initial_slashes(p);
        let parts = split_parts(p);
        lemma_parts_no_slash(p);
        lemma_norm_comps_normal(parts, parts.len() as int, initial);
        let cs = norm_comps(parts, parts.len() as int, initial);
        let t = slashes(initial) + join_slash(cs);
        assert(Seq::new(initial, |i: int| '/') == slashes(initial));
        if t.len() > 0 {
            assert(s == t);
            // the leading slashes survive
            if cs.len() > 0 {
                lemma_join_starts(cs);
                assert(clean_comp(cs[0]));
                if cs[0][0] == '/' {
                    assert(cs[0].contains('/'));
                }
                assert(t[initial as int] == cs[0][0]);
            }
            assert(initial_slashes(t) == initial);
            // the parts of the result
            lemma_split_slashes(initial, join_slash(cs));
            if cs.len() > 0 {
                assert forall|i: int| 0 <= i < cs.len() implies !(#[trigger] cs[i]).contains('/') by {
                    assert(clean_comp(cs[i]));
                }
                lemma_split_join(cs);
                assert(split_parts(t) == empties(initial) + cs);
                lemma_norm_comps_of_normal(initial, cs, initial, (initial + cs.len()) as int);
                assert(cs.take(cs.len() as int) =~= cs);
                assert(split_parts(t).len() == initial + cs.len());
            } else {
                assert(join_slash(cs) == Seq::<char>::empty());
                assert(split_parts(Seq::<char>::empty()) == seq![Seq::<char>::empty()]) by {
                    lemma_first_index(Seq::<char>::empty(), '/', -1);
                }
                assert(empties(initial) + seq![Seq::<char>::empty()] =~= empties(initial + 1)
                    + Seq::<Seq<char>>::empty());
                lemma_norm_comps_of_normal(initial + 1, Seq::<Seq<char>>::empty(), initial, (initial + 1) as int);
            }
            assert(slashes(initial_slashes(t)) == Seq::new(initial_slashes(t), |i: int| '/'));
        } else {
            assert(s == dot);
        }
    }
}

/// One step of normpath over the parts: what it keeps after `comp`.
pub open spec fn norm_step(comps: Seq<Seq<char>>, comp: Seq<char>, initial: nat) -> Seq<Seq<char>> {
    if comp.len() == 0 || comp == seq!['.'] {
        comps
    } else if comp != dotdot() || (initial == 0 && comps.len() == 0) || (comps.len() > 0 && comps.last()
        == dotdot()) {
        comps.push(comp)
    } else if comps.len() > 0 {
        comps.drop_last()
    } else {
        comps
    }
}

/// The steps over the first `k` parts, from `st`.
pub open spec fn fold_from(st: Seq<Seq<char>>, parts: Seq<Seq<char>>, k: int, initial: nat) -> Seq<Seq<char>>
    decreases k,
{
    if k <= 0 || k > parts.len() {
        st
    } else {
        norm_step(fold_from(st, parts, k - 1, initial), parts[k - 1], initial)
    }
}

proof fn lemma_norm_is_fold(parts: Seq<Seq<char>>, k: int, initial: nat)
    requires
        0 <= k <= parts.len(),
    ensures
        norm_comps(parts, k, initial) == fold_from(Seq::<Seq<char>>::empty(), parts, k, initial),
    decreases k,
{
    if k > 0 {
        lemma_norm_is_fold(parts, k - 1, initial);
    }
}

proof fn lemma_fold_prefix(st: Seq<Seq<char>>, a: Seq<Seq<char>>, b: Seq<Seq<char>>, k: int, initial: nat)
    requires
        0 <= k <= a.len(),
    ensures
        fold_from(st, a + b, k, initial) == fold_from(st, a, k, initial),
    decreases k,
{
    if k > 0 {
        lemma_fold_prefix(st, a, b, k - 1, initial);
        assert((a + b)[k - 1] == a[k - 1]);
    }
}

proof fn lemma_fold_concat(st: Seq<Seq<char>>, a: Seq<Seq<char>>, b: Seq<Seq<char>>, j: int, initial: nat)
    requires
        0 <= j <= b.len(),
    ensures
        fold_from(st, a + b, a.len() + j, initial) == fold_from(fold_from(st, a, a.len() as int, initial), b, j, initial),
    decreases j,
{
    if j > 0 {
        lemma_fold_concat(st, a, b, j - 1, initial);
        assert((a + b)[a.len() + j - 1] == b[j - 1]);
    } else {
        lemma_fold_prefix(st, a, b, a.len() as int, initial);
    }
}

proof fn lemma_fold_empties(st: Seq<Seq<char>>, m: nat, k: int, initial: nat)
    requires
        0 <= k <= m,
    ensures
        fold_from(st, empties(m), k, initial) == st,
    decreases k,
{
    if k > 0 {
        lemma_fold_empties(st, m, k - 1, initial);
    }
}

/// Empty parts between others change nothing that normpath keeps.
proof fn lemma_fold_skip_empties(a: Seq<Seq<char>>, m: nat, b: Seq<Seq<char>>, initial: nat)
    ensures
        fold_from(Seq::<Seq<char>>::empty(), a + empties(m) + b, (a.len() + m + b.len()) as int, initial)
            == fold_from(Seq::<Seq<char>>::empty(), a + b, (a.len() + b.len()) as int, initial),
{
    let e = Seq::<Seq<char>>::empty();
    let st = fold_from(e, a, a.len() as int, initial);
    lemma_fold_concat(e, a, b, b.len() as int, initial);
    lemma_fold_concat(e, a + empties(m), b, b.len() as int, initial);
    lemma_fold_concat(e, a, empties(m), m as int, initial);
    lemma_fold_empties(st, m, m as int, initial);
}

/// Splitting at a slash splits the two sides apart.
proof fn lemma_split_concat(a: Seq<char>, b: Seq<char>)
    ensures
        split_parts(a + seq!['/'] + b) == split_parts(a) + split_parts(b),
    decreases a.len(),
{
    let x = a + seq!['/'] + b;
    lemma_first_index_range(a, '/');
    lemma_first_index_props(a, '/');
    let k = first_index(a, '/');
    if k < 0 {
        assert forall|j: int| 0 <= j < x.len() && j < a.len() implies x[j] != '/' by {
            assert(x[j] == a[j]);
        }
        lemma_first_index(x, '/', a.len() as int);
        assert(x.take(a.len() as int) =~= a);
        assert(x.skip(a.len() as int + 1) =~= b);
        assert(split_parts(a) == seq![a]);
    } else {
        assert forall|j: int| 0 <= j < x.len() && j < k implies x[j] != '/' by {
            assert(x[j] == a[j]);
        }
        lemma_first_index(x, '/', k);
        let rest = a.skip(k + 1);
        assert(x.take(k) =~= a.take(k));
        assert(x.skip(k + 1) =~= rest + seq!['/'] + b);
        lemma_split_concat(rest, b);
        assert(split_parts(a) == seq![a.take(k)] + split_parts(rest));
        assert(seq![a.take(k)] + (split_parts(rest) + split_parts(b)) =~= seq![a.take(k)] + split_parts(rest)
            + split_parts(b));
    }
}

/// A path without slashes is one part.
proof fn lemma_split_no_slash(t: Seq<char>)
    requires
        forall|j: int| 0 <= j < t.len() ==> t[j] != '/',
    ensures
        split_parts(t) == seq![t],
{
    lemma_first_index(t, '/', -1);
}

/// `s` with its trailing slashes taken off, where it has another character.
proof fn lemma_rstrip_shape(s: Seq<char>)
    requires
        exists|j: int| 0 <= j < s.len() && s[j] != '/',
    ensures
        rstrip_slash(s).len() > 0,
        rstrip_slash(s).last() != '/',
        s == rstrip_slash(s) + slashes((s.len() - rstrip_slash(s).len()) as nat),
    decreases s.len(),
{
    if s.last() == '/' {
        let j = choose|j: int| 0 <= j < s.len() && s[j] != '/';
        assert(s.drop_last()[j] == s[j]);
        lemma_rstrip_shape(s.drop_last());
        let r = rstrip_slash(s.drop_last());
        let n = (s.drop_last().len() - r.len()) as nat;
        assert(s =~= s.drop_last().push('/'));
        assert(slashes(n).push('/') =~= slashes(n + 1));
        assert(s =~= r + slashes(n + 1));
    } else {
        assert(s =~= s + slashes(0));
    }
}

/// The first characters of `h + "/" + t` and `h + "/"*m + t` agree where
/// normpath counts leading slashes.
proof fn lemma_initial_same(h: Seq<char>, m: nat, t: Seq<char>)
    requires
        h.len() > 0,
        h.last() != '/',
        m >= 1,
    ensures
        initial_slashes(h + slashes(m) + t) == initial_slashes(h + seq!['/'] + t),
{
    let x = h + slashes(m) + t;
    let y = h + seq!['/'] + t;
    assert(x[0] == h[0] && y[0] == h[0]);
    if h.len() >= 2 {
        assert(x[1] == h[1] && y[1] == h[1]);
        if h.len() >= 3 {
            assert(x[2] == h[2] && y[2] == h[2]);
        } else {
            assert(x[2] == '/' && y[2] == '/');
        }
    } else {
        assert(h[0] == h.last());
    }
}

/// Joining the two halves that split gives normalises to the same path
/// as the path itself.
pub proof fn lemma_split_rejoin_normpath(p: Seq<char>)
    ensures
        normpath_spec(join_spec(split_spec(p).0, split_spec(p).1)) == normpath_spec(p),
{
    lemma_last_index_props(p, '/');
    let i = last_index(p, '/') + 1;
    let head = p.take(i);
    let tail = p.skip(i);
    assert forall|j: int| 0 <= j < tail.len() implies tail[j] != '/' by {
        assert(tail[j] == p[i + j]);
    }
    assert(head + tail =~= p);
    if head.len() > 0 && exists|j: int| 0 <= j < head.len() && head[j] != '/' {
        lemma_rstrip_shape(head);
        let h = rstrip_slash(head);
        let m = (head.len() - h.len()) as nat;
        assert(head[head.len() - 1] == '/');
        assert(m >= 1) by {
            if m == 0 {
                assert(head =~= h);
            }
        }
        assert(split_spec(p) == (h, tail));
        if tail.len() > 0 {
            assert(tail[0] != '/');
        }
        let y = h + seq!['/'] + tail;
        assert(join_spec(h, tail) == y);
        let x = h + slashes(m) + tail;
        assert(x =~= p);
        lemma_initial_same(h, m, tail);
        // the parts of both
        assert(slashes(m) =~= seq!['/'] + slashes((m - 1) as nat));
        assert(x =~= h + seq!['/'] + (slashes((m - 1) as nat) + tail));
        lemma_split_concat(h, slashes((m - 1) as nat) + tail);
        lemma_split_slashes((m - 1) as nat, tail);
        lemma_split_concat(h, tail);
        lemma_split_no_slash(tail);
        let a = split_parts(h);
        assert(split_parts(x) == a + empties((m - 1) as nat) + seq![tail]);
        assert(split_parts(y) == a + seq![tail]);
        let initial = initial_slashes(x);
        lemma_norm_is_fold(split_parts(x), split_parts(x).len() as int, initial);
        lemma_norm_is_fold(split_parts(y), split_parts(y).len() as int, initial);
        lemma_fold_skip_empties(a, (m - 1) as nat, seq![tail], initial);
    } else {
        assert(split_spec(p) == (head, tail));
        if tail.len() > 0 {
            assert(tail[0] != '/');
        }
        if head.len() > 0 {
            assert(head.last() == '/');
        }
        assert(join_spec(head, tail) =~= p);
    }
}

} // verus!
