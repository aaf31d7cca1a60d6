//! Attribution maps and the global tally, both held as rows of
//! (author, lines) with at most one row per author.
use vstd::prelude::*;

verus! {

/// One row: an author and the number of lines attributed to them.
pub struct Blame {
    pub author: String,
    pub lines: usize,
}

impl View for Blame {
    type V = (Seq<char>, nat);

    open spec fn view(&self) -> (Seq<char>, nat) {
        (self.author@, self.lines as nat)
    }
}

/// The rows of `s` as plain values.
pub open spec fn rows(s: Seq<Blame>) -> Seq<(Seq<char>, nat)> {
    s.map_values(|b: Blame| b@)
}

/// Lines credited to author `a` in `s`, summed over every row that names it.
pub open spec fn lines_of(s: Seq<Blame>, a: Seq<char>) -> int
    decreases s.len(),
{
    if s.len() == 0 {
        0
    } else {
        lines_of(s.drop_last(), a) + if s.last().author@ == a {
            s.last().lines as int
        } else {
            0
        }
    }
}

/// Some row of `s` names author `a`.
pub open spec fn has_author(s: Seq<Blame>, a: Seq<char>) -> bool {
    exists|i: int| 0 <= i < s.len() && #[trigger] s[i].author@ == a
}

/// No two rows of `s` name the same author.
pub open spec fn unique_authors(s: Seq<Blame>) -> bool {
    forall|i: int, j: int| 0 <= i < j < s.len() ==> s[i].author@ != s[j].author@
}

/// Folding `p` into `t` keeps every author's total within `usize`.
pub open spec fn fits(t: Seq<Blame>, p: Seq<Blame>) -> bool {
    forall|a: Seq<char>| #[trigger] lines_of(t, a) + lines_of(p, a) <= usize::MAX
}

/// `r` is `t` with `p` folded in: per author, the totals add up, and an
/// author has a row exactly when it had one in either.
pub open spec fn folded(r: Seq<Blame>, t: Seq<Blame>, p: Seq<Blame>) -> bool {
    &&& unique_authors(r)
    &&& forall|a: Seq<char>| #[trigger] lines_of(r, a) == lines_of(t, a) + lines_of(p, a)
    &&& forall|a: Seq<char>| #[trigger] has_author(r, a) <==> has_author(t, a) || has_author(p, a)
}

pub proof fn lemma_lines_nonneg(s: Seq<Blame>, a: Seq<char>)
    ensures
        lines_of(s, a) >= 0,
    decreases s.len(),
{
    if s.len() > 0 {
        lemma_lines_nonneg(s.drop_last(), a);
    }
}

/// A prefix never credits an author more than the whole.
pub proof fn lemma_lines_prefix(s: Seq<Blame>, n: int, a: Seq<char>)
    requires
        0 <= n <= s.len(),
    ensures
        0 <= lines_of(s.take(n), a) <= lines_of(s, a),
    decreases s.len(),
{
    lemma_lines_nonneg(s.take(n), a);
    if n < s.len() {
        assert(s.drop_last().take(n) =~= s.take(n));
        lemma_lines_prefix(s.drop_last(), n, a);
    } else {
        assert(s.take(n) =~= s);
    }
}

/// An author without a row has no lines.
pub proof fn lemma_lines_absent(s: Seq<Blame>, a: Seq<char>)
    requires
        !has_author(s, a),
    ensures
        lines_of(s, a) == 0,
    decreases s.len(),
{
    if s.len() > 0 {
        assert(!has_author(s.drop_last(), a)) by {
            if has_author(s.drop_last(), a) {
                let i = choose|i: int| 0 <= i < s.drop_last().len() && #[trigger] s.drop_last()[i].author@ == a;
                assert(s[i].author@ == a);
            }
        }
        assert(s.last().author@ != a) by {
            if s.last().author@ == a {
                assert(s[s.len() - 1].author@ == a);
            }
        }
        lemma_lines_absent(s.drop_last(), a);
    }
}

/// With unique authors, an author's total is the count of its one row.
pub proof fn lemma_lines_unique(s: Seq<Blame>, k: int)
    requires
        unique_authors(s),
        0 <= k < s.len(),
    ensures
        lines_of(s, s[k].author@) == s[k].lines,
    decreases s.len(),
{
    let a = s[k].author@;
    if k == s.len() - 1 {
        assert forall|i: int| 0 <= i < s.drop_last().len() implies #[trigger] s.drop_last()[i].author@ != a by {
            assert(s[i].author@ != s[k].author@);
        }
        lemma_lines_absent(s.drop_last(), a);
    } else {
        assert(s.drop_last()[k] == s[k]);
        lemma_lines_unique(s.drop_last(), k);
        assert(s[k].author@ != s[s.len() - 1].author@);
    }
}

/// With unique authors, every total fits in `usize`.
pub proof fn lemma_lines_bounded(s: Seq<Blame>, a: Seq<char>)
    requires
        unique_authors(s),
    ensures
        0 <= lines_of(s, a) <= usize::MAX,
{
    if has_author(s, a) {
        let k = choose|i: int| 0 <= i < s.len() && #[trigger] s[i].author@ == a;
        lemma_lines_unique(s, k);
    } else {
        lemma_lines_absent(s, a);
    }
}

/// Replacing one row by another row for the same author moves that author's
/// total by the difference and leaves every other author's total alone.
pub proof fn lemma_lines_update(s: Seq<Blame>, k: int, b: Blame, a: Seq<char>)
    requires
        0 <= k < s.len(),
        b.author@ == s[k].author@,
    ensures
        lines_of(s.update(k, b), a) == lines_of(s, a) + if s[k].author@ == a {
            b.lines - s[k].lines
        } else {
            0
        },
    decreases s.len(),
{
    let u = s.update(k, b);
    if k == s.len() - 1 {
        assert(u.drop_last() =~= s.drop_last());
    } else {
        assert(u.drop_last() =~= s.drop_last().update(k, b));
        lemma_lines_update(s.drop_last(), k, b, a);
    }
}

/// Inserting a row adds its lines to its author's total.
pub proof fn lemma_lines_insert(s: Seq<Blame>, j: int, x: Blame, a: Seq<char>)
    requires
        0 <= j <= s.len(),
    ensures
        lines_of(s.insert(j, x), a) == lines_of(s, a) + if x.author@ == a { x.lines as int } else { 0 },
    decreases s.len(),
{
    let u = s.insert(j, x);
    if j == s.len() {
        assert(u.drop_last() =~= s);
    } else {
        assert(u.drop_last() =~= s.drop_last().insert(j, x));
        assert(u.last() == s.last());
        lemma_lines_insert(s.drop_last(), j, x, a);
    }
}

/// Position of the row for author `a`, if there is one.
pub fn find_author(t: &Vec<Blame>, a: &String) -> (r: Option<usize>)
    ensures
        match r {
            Some(k) => k < t@.len() && t@[k as int].author@ == a@,
            None => !has_author(t@, a@),
        },
{
    let mut i: usize = 0;
    while i < t.len()
        invariant
            i <= t@.len(),
            forall|j: int| 0 <= j < i ==> t@[j].author@ != a@,
        decreases t@.len() - i,
    {
        if t[i].author == *a {
            return Some(i);
        }
        i += 1;
    }
    None
}

/// Folds attribution map `blame` into the tally `hm`: each author's lines are
/// added to its row, and an author new to the tally gets a row of its own.
pub fn blame_acc(hm: &mut Vec<Blame>, blame: Vec<Blame>)
    requires
        unique_authors(old(hm)@),
        fits(old(hm)@, blame@),
    ensures
        folded(final(hm)@, old(hm)@, blame@),
{
    let ghost t0 = hm@;
    let mut i: usize = 0;
    while i < blame.len()
        invariant
            i <= blame@.len(),
            fits(t0, blame@),
            unique_authors(hm@),
            forall|a: Seq<char>| #[trigger] lines_of(hm@, a) == lines_of(t0, a) + lines_of(blame@.take(i as int), a),
            forall|a: Seq<char>| #[trigger] has_author(hm@, a) <==> has_author(t0, a) || has_author(blame@.take(i as int), a),
        decreases blame@.len() - i,
    {
        let b = &blame[i];
        let ghost a = b.author@;
        let ghost pre = hm@;
        assert(blame@.take(i + 1) =~= blame@.take(i as int).push(blame@[i as int]));
        proof {
            assert(blame@.take(i + 1).drop_last() =~= blame@.take(i as int));
            assert forall|x: Seq<char>| #[trigger] lines_of(blame@.take(i + 1), x) == lines_of(blame@.take(i as int), x) + if a == x { b.lines as int } else { 0 } by {
                assert(blame@.take(i + 1).last() == blame@[i as int]);
            }
            lemma_lines_prefix(blame@, i + 1, a);
            assert(lines_of(t0, a) + lines_of(blame@, a) <= usize::MAX);
        }
        match find_author(hm, &b.author) {
            Some(k) => {
                proof {
                    lemma_lines_unique(hm@, k as int);
                }
                let v = hm[k].lines + b.lines;
                let row = Blame { author: b.author.clone(), lines: v };
                hm.set(k, row);
                proof {
                    assert forall|x: Seq<char>| #[trigger] lines_of(hm@, x) == lines_of(t0, x) + lines_of(blame@.take(i + 1), x) by {
                        lemma_lines_update(pre, k as int, row, x);
                    }
                    assert forall|x: Seq<char>| #[trigger] has_author(hm@, x) <==> has_author(t0, x) || has_author(blame@.take(i + 1), x) by {
                        if has_author(hm@, x) {
                            let j = choose|j: int| 0 <= j < hm@.len() && #[trigger] hm@[j].author@ == x;
                            assert(pre[j].author@ == x);
                        }
                        if has_author(pre, x) {
                            let j = choose|j: int| 0 <= j < pre.len() && #[trigger] pre[j].author@ == x;
                            assert(hm@[j].author@ == x);
                        }
                        if has_author(blame@.take(i + 1), x) && !has_author(blame@.take(i as int), x) {
                            let j = choose|j: int| 0 <= j < i + 1 && #[trigger] blame@.take(i + 1)[j].author@ == x;
                            if j < i {
                                assert(blame@.take(i as int)[j].author@ == x);
                            }
                            assert(hm@[k as int].author@ == x);
                        }
                        if has_author(blame@.take(i as int), x) {
                            let j = choose|j: int| 0 <= j < i && #[trigger] blame@.take(i as int)[j].author@ == x;
                            assert(blame@.take(i + 1)[j].author@ == x);
                        }
                    }
                }
            },
            None => {
                let row = Blame { author: b.author.clone(), lines: b.lines };
                hm.push(row);
                proof {
                    assert(hm@.drop_last() =~= pre);
                    assert forall|x: Seq<char>| #[trigger] lines_of(hm@, x) == lines_of(t0, x) + lines_of(blame@.take(i + 1), x) by {
                        assert(lines_of(hm@, x) == lines_of(pre, x) + if hm@.last().author@ == x { b.lines as int } else { 0 });
                    }
                    assert forall|x: Seq<char>| #[trigger] has_author(hm@, x) <==> has_author(t0, x) || has_author(blame@.take(i + 1), x) by {
                        if has_author(hm@, x) {
                            let j = choose|j: int| 0 <= j < hm@.len() && #[trigger] hm@[j].author@ == x;
                            if j < pre.len() {
                                assert(pre[j].author@ == x);
                            } else {
                                assert(blame@.take(i + 1)[i as int].author@ == x);
                            }
                        }
                        if has_author(pre, x) {
                            let j = choose|j: int| 0 <= j < pre.len() && #[trigger] pre[j].author@ == x;
                            assert(hm@[j].author@ == x);
                        }
                        if has_author(blame@.take(i + 1), x) && !has_author(blame@.take(i as int), x) {
                            let j = choose|j: int| 0 <= j < i + 1 && #[trigger] blame@.take(i + 1)[j].author@ == x;
                            if j < i {
                                assert(blame@.take(i as int)[j].author@ == x);
                            }
                            assert(hm@[pre.len() as int].author@ == x);
                        }
                        if has_author(blame@.take(i as int), x) {
                            let j = choose|j: int| 0 <= j < i && #[trigger] blame@.take(i as int)[j].author@ == x;
                            assert(blame@.take(i + 1)[j].author@ == x);
                        }
                    }
                    assert forall|p: int, q: int| 0 <= p < q < hm@.len() implies hm@[p].author@ != hm@[q].author@ by {
                        if q == pre.len() {
                            assert(pre[p].author@ != a);
                        } else {
                            assert(pre[p] == hm@[p] && pre[q] == hm@[q]);
                        }
                    }
                }
            },
        }
        i += 1;
    }
    assert(blame@.take(blame@.len() as int) =~= blame@);
}

/// [`blame_acc`] by value: hands back `hm` with `blame` folded in.
pub fn blame_fold(hm: Vec<Blame>, blame: Vec<Blame>) -> (r: Vec<Blame>)
    requires
        unique_authors(hm@),
        fits(hm@, blame@),
    ensures
        folded(r@, hm@, blame@),
{
    let mut hm = hm;
    blame_acc(&mut hm, blame);
    hm
}

/// Lines credited to author `a` in `p`, or `None` when that sum exceeds `usize`.
pub fn sum_lines(p: &Vec<Blame>, a: &String) -> (r: Option<usize>)
    ensures
        match r {
            Some(n) => n == lines_of(p@, a@),
            None => lines_of(p@, a@) > usize::MAX,
        },
{
    let mut acc: usize = 0;
    let mut j: usize = 0;
    while j < p.len()
        invariant
            j <= p@.len(),
            acc == lines_of(p@.take(j as int), a@),
        decreases p@.len() - j,
    {
        assert(p@.take(j + 1).drop_last() =~= p@.take(j as int));
        assert(p@.take(j + 1).last() == p@[j as int]);
        if p[j].author == *a {
            if p[j].lines > usize::MAX - acc {
                proof {
                    lemma_lines_prefix(p@, j + 1, a@);
                }
                return None;
            }
            acc = acc + p[j].lines;
        }
        j += 1;
    }
    assert(p@.take(p@.len() as int) =~= p@);
    Some(acc)
}

/// Whether `p` can be folded into `t` without an author's total leaving `usize`.
pub fn fold_fits(t: &Vec<Blame>, p: &Vec<Blame>) -> (r: bool)
    requires
        unique_authors(t@),
    ensures
        r == fits(t@, p@),
{
    let mut i: usize = 0;
    while i < p.len()
        invariant
            i <= p@.len(),
            unique_authors(t@),
            forall|k: int| 0 <= k < i ==> lines_of(t@, #[trigger] p@[k].author@) + lines_of(p@, p@[k].author@) <= usize::MAX,
        decreases p@.len() - i,
    {
        let a = &p[i].author;
        let in_t: usize = match find_author(t, a) {
            Some(k) => {
                proof {
                    lemma_lines_unique(t@, k as int);
                }
                t[k].lines
            },
            None => {
                proof {
                    lemma_lines_absent(t@, a@);
                }
                0
            },
        };
        match sum_lines(p, a) {
            Some(n) => {
                if n > usize::MAX - in_t {
                    assert(!(lines_of(t@, a@) + lines_of(p@, a@) <= usize::MAX));
                    return false;
                }
            },
            None => {
                proof {
                    lemma_lines_nonneg(t@, a@);
                }
                assert(!(lines_of(t@, a@) + lines_of(p@, a@) <= usize::MAX));
                return false;
            },
        }
        i += 1;
    }
    assert forall|a: Seq<char>| #[trigger] lines_of(t@, a) + lines_of(p@, a) <= usize::MAX by {
        lemma_lines_bounded(t@, a);
        if has_author(p@, a) {
            let k = choose|k: int| 0 <= k < p@.len() && #[trigger] p@[k].author@ == a;
            assert(lines_of(t@, p@[k].author@) + lines_of(p@, p@[k].author@) <= usize::MAX);
        } else {
            lemma_lines_absent(p@, a);
        }
    }
    true
}

/// Lines credited to author `a` over all attribution maps in `ps`.
pub open spec fn total_of(ps: Seq<Seq<Blame>>, a: Seq<char>) -> int
    decreases ps.len(),
{
    if ps.len() == 0 {
        0
    } else {
        total_of(ps.drop_last(), a) + lines_of(ps.last(), a)
    }
}

/// Some attribution map in `ps` has a row for author `a`.
pub open spec fn mentions(ps: Seq<Seq<Blame>>, a: Seq<char>) -> bool
    decreases ps.len(),
{
    if ps.len() == 0 {
        false
    } else {
        mentions(ps.drop_last(), a) || has_author(ps.last(), a)
    }
}

/// `t` is the tally of the attribution maps `ps`: one row per author that
/// any map names, holding the sum of that author's lines over all maps.
pub open spec fn tallies(t: Seq<Blame>, ps: Seq<Seq<Blame>>) -> bool {
    &&& unique_authors(t)
    &&& forall|a: Seq<char>| #[trigger] lines_of(t, a) == total_of(ps, a)
    &&& forall|a: Seq<char>| #[trigger] has_author(t, a) <==> mentions(ps, a)
}

/// Every author's total over `ps` fits in `usize`.
pub open spec fn totals_fit(ps: Seq<Seq<Blame>>) -> bool {
    forall|a: Seq<char>| #[trigger] total_of(ps, a) <= usize::MAX
}

/// The views of a list of attribution maps.
pub open spec fn views(ms: Seq<Vec<Blame>>) -> Seq<Seq<Blame>> {
    ms.map_values(|m: Vec<Blame>| m@)
}

pub proof fn lemma_total_nonneg(ps: Seq<Seq<Blame>>, a: Seq<char>)
    ensures
        total_of(ps, a) >= 0,
    decreases ps.len(),
{
    if ps.len() > 0 {
        lemma_total_nonneg(ps.drop_last(), a);
        lemma_lines_nonneg(ps.last(), a);
    }
}

/// A prefix of the maps never credits an author more than all of them.
pub proof fn lemma_total_prefix(ps: Seq<Seq<Blame>>, n: int, a: Seq<char>)
    requires
        0 <= n <= ps.len(),
    ensures
        0 <= total_of(ps.take(n), a) <= total_of(ps, a),
    decreases ps.len(),
{
    lemma_total_nonneg(ps.take(n), a);
    if n < ps.len() {
        assert(ps.drop_last().take(n) =~= ps.take(n));
        lemma_total_prefix(ps.drop_last(), n, a);
        lemma_lines_nonneg(ps.last(), a);
    } else {
        assert(ps.take(n) =~= ps);
    }
}

/// Taking one map out of the list takes out exactly its contribution.
pub proof fn lemma_total_remove(ps: Seq<Seq<Blame>>, i: int, a: Seq<char>)
    requires
        0 <= i < ps.len(),
    ensures
        total_of(ps, a) == total_of(ps.remove(i), a) + lines_of(ps[i], a),
        mentions(ps, a) == (mentions(ps.remove(i), a) || has_author(ps[i], a)),
    decreases ps.len(),
{
    if i == ps.len() - 1 {
        assert(ps.remove(i) =~= ps.drop_last());
    } else {
        assert(ps.remove(i).drop_last() =~= ps.drop_last().remove(i));
        assert(ps.remove(i).last() == ps.last());
        lemma_total_remove(ps.drop_last(), i, a);
    }
}

/// The totals and the authors named do not depend on the order of the maps.
pub proof fn lemma_total_permutation(ps: Seq<Seq<Blame>>, qs: Seq<Seq<Blame>>, a: Seq<char>)
    requires
        ps.to_multiset() == qs.to_multiset(),
    ensures
        total_of(ps, a) == total_of(qs, a),
        mentions(ps, a) == mentions(qs, a),
    decreases ps.len(),
{
    broadcast use vstd::seq_lib::group_to_multiset_ensures;

    if ps.len() == 0 {
        assert(qs.to_multiset().len() == 0);
        assert(qs =~= Seq::<Seq<Blame>>::empty());
    } else {
        let x = ps.last();
        assert(ps =~= ps.drop_last().push(x));
        assert(ps.to_multiset() == ps.drop_last().to_multiset().insert(x));
        assert(ps.to_multiset().count(x) > 0);
        assert(qs.to_multiset().count(x) > 0);
        assert(qs.contains(x));
        let i = choose|i: int| 0 <= i < qs.len() && qs[i] == x;
        assert(qs.remove(i).to_multiset() == qs.to_multiset().remove(x));
        assert(ps.drop_last().to_multiset() =~= ps.to_multiset().remove(x));
        lemma_total_permutation(ps.drop_last(), qs.remove(i), a);
        lemma_total_remove(qs, i, a);
    }
}

/// Two lists of the same maps, in any order, have the same tally.
pub proof fn lemma_tally_order_independent(
    ps: Seq<Seq<Blame>>,
    qs: Seq<Seq<Blame>>,
    t: Seq<Blame>,
    u: Seq<Blame>,
)
    requires
        ps.to_multiset() == qs.to_multiset(),
        tallies(t, ps),
        tallies(u, qs),
    ensures
        forall|a: Seq<char>| #[trigger] lines_of(t, a) == lines_of(u, a),
        forall|a: Seq<char>| #[trigger] has_author(t, a) == has_author(u, a),
{
    assert forall|a: Seq<char>| #[trigger] lines_of(t, a) == lines_of(u, a) by {
        lemma_total_permutation(ps, qs, a);
    }
    assert forall|a: Seq<char>| #[trigger] has_author(t, a) == has_author(u, a) by {
        lemma_total_permutation(ps, qs, a);
    }
}

/// Folds the attribution maps one after the other into an empty tally, or
/// returns `None` when some author's total does not fit in `usize`.
pub fn tally_all(maps: Vec<Vec<Blame>>) -> (r: Option<Vec<Blame>>)
    ensures
        match r {
            Some(t) => tallies(t@, views(maps@)),
            None => !totals_fit(views(maps@)),
        },
{
    let ghost ps = views(maps@);
    let ghost all = maps@;
    let mut rest = maps;
    let mut t: Vec<Blame> = Vec::new();
    let n = rest.len();
    let mut i: usize = 0;
    assert(tallies(t@, ps.take(0)));
    while i < n
        invariant
            n == all.len(),
            i <= all.len(),
            ps == views(all),
            all == maps@,
            rest@ == all.skip(i as int),
            tallies(t@, ps.take(i as int)),
        decreases n - i,
    {
        let m = rest.remove(0);
        assert(m == all[i as int]);
        assert(ps.take(i + 1).drop_last() =~= ps.take(i as int));
        assert(ps.take(i + 1).last() == m@);
        if !fold_fits(&t, &m) {
            proof {
                let a = choose|a: Seq<char>| !(#[trigger] lines_of(t@, a) + lines_of(m@, a) <= usize::MAX);
                lemma_total_prefix(ps, i + 1, a);
                assert(!(total_of(ps, a) <= usize::MAX));
                assert(!totals_fit(ps));
            }
            assert(!totals_fit(ps));
            return None;
        }
        let ghost pre = t@;
        blame_acc(&mut t, m);
        proof {
            assert forall|a: Seq<char>| #[trigger] has_author(t@, a) <==> mentions(ps.take(i + 1), a) by {
                assert(has_author(pre, a) <==> mentions(ps.take(i as int), a));
            }
        }
        i += 1;
        assert(rest@ =~= all.skip(i as int));
    }
    assert(ps.take(i as int) =~= ps);
    proof {
        assert forall|a: Seq<char>| #[trigger] total_of(ps, a) <= usize::MAX by {
            lemma_lines_bounded(t@, a);
        }
    }
    Some(t)
}

} // verus!
