//! The final ranking: rows ordered by line count, most first, ties by author.
use vstd::prelude::*;
use vstd::string::*;
use crate::tally::{Blame, rows, lines_of, has_author, unique_authors, lemma_lines_insert, lemma_lines_unique};

verus! {

broadcast use vstd::seq_lib::group_to_multiset_ensures;

/// `a` is `b` or comes before it in lexicographic order, comparing
/// characters from position `i` on by their scalar values.
pub open spec fn text_le_from(a: Seq<char>, b: Seq<char>, i: int) -> bool
    decreases a.len() - i,
{
    if i >= a.len() {
        true
    } else if i >= b.len() {
        false
    } else if (a[i] as u32) != (b[i] as u32) {
        (a[i] as u32) < (b[i] as u32)
    } else {
        text_le_from(a, b, i + 1)
    }
}

/// Lexicographic order on text, which is also the order of `String`'s `Ord`.
pub open spec fn text_le(a: Seq<char>, b: Seq<char>) -> bool {
    text_le_from(a, b, 0)
}

/// `x` may stand right before `y` in a ranking.
pub open spec fn in_rank_order(x: Blame, y: Blame) -> bool {
    x.lines > y.lines || (x.lines == y.lines && text_le(x.author@, y.author@))
}

/// Every row of `s` may stand right before the next one.
pub open spec fn ranked(s: Seq<Blame>) -> bool {
    forall|k: int| 0 <= k < s.len() - 1 ==> #[trigger] in_rank_order(s[k], s[k + 1])
}

pub proof fn lemma_text_le_total(a: Seq<char>, b: Seq<char>, i: int)
    requires
        0 <= i,
    ensures
        text_le_from(a, b, i) || text_le_from(b, a, i),
    decreases a.len() - i,
{
    if i < a.len() && i < b.len() && (a[i] as u32) == (b[i] as u32) {
        lemma_text_le_total(a, b, i + 1);
    }
}

/// Any two rows can be placed one right before the other.
pub proof fn lemma_rank_order_total(x: Blame, y: Blame)
    ensures
        in_rank_order(x, y) || in_rank_order(y, x),
{
    lemma_text_le_total(x.author@, y.author@, 0);
}

/// Whether author `a` sorts at or before author `b`.
pub fn author_le(a: &String, b: &String) -> (r: bool)
    ensures
        r == text_le(a@, b@),
{
    let sa = a.as_str();
    let sb = b.as_str();
    let la = sa.unicode_len();
    let lb = sb.unicode_len();
    let mut i: usize = 0;
    while i < la
        invariant
            sa@ == a@,
            sb@ == b@,
            la == a@.len(),
            lb == b@.len(),
            i <= la,
            i <= lb,
            text_le(a@, b@) == text_le_from(a@, b@, i as int),
        decreases la - i,
    {
        if i >= lb {
            return false;
        }
        let ca = sa.get_char(i);
        let cb = sb.get_char(i);
        if (ca as u32) != (cb as u32) {
            return (ca as u32) < (cb as u32);
        }
        i += 1;
    }
    true
}

/// Whether row `x` may stand right before row `y` in a ranking.
pub fn ranks_before(x: &Blame, y: &Blame) -> (r: bool)
    ensures
        r == in_rank_order(*x, *y),
{
    if x.lines != y.lines {
        x.lines > y.lines
    } else {
        author_le(&x.author, &y.author)
    }
}

/// The rows of a tally as a ranking: the same rows, ordered by line count
/// with the most first, and authors in lexicographic order among equal counts.
pub fn hm_into_vec(authors: &Vec<Blame>) -> (r: Vec<Blame>)
    ensures
        rows(r@).to_multiset() == rows(authors@).to_multiset(),
        ranked(r@),
        forall|a: Seq<char>| #[trigger] lines_of(r@, a) == lines_of(authors@, a),
        forall|a: Seq<char>| #[trigger] has_author(r@, a) == has_author(authors@, a),
        unique_authors(authors@) ==> unique_authors(r@),
{
    let mut r: Vec<Blame> = Vec::new();
    let mut i: usize = 0;
    while i < authors.len()
        invariant
            i <= authors@.len(),
            rows(r@).to_multiset() == rows(authors@.take(i as int)).to_multiset(),
            ranked(r@),
            forall|a: Seq<char>| #[trigger] lines_of(r@, a) == lines_of(authors@.take(i as int), a),
            forall|a: Seq<char>| #[trigger] has_author(r@, a) == has_author(authors@.take(i as int), a),
            unique_authors(authors@) ==> unique_authors(r@),
        decreases authors@.len() - i,
    {
        let x = Blame { author: authors[i].author.clone(), lines: authors[i].lines };
        let mut j: usize = 0;
        while j < r.len() && ranks_before(&r[j], &x)
            invariant
                j <= r@.len(),
                j > 0 ==> in_rank_order(r@[j - 1], x),
            decreases r@.len() - j,
        {
            j += 1;
        }
        proof {
            if j < r@.len() {
                lemma_rank_order_total(r@[j as int], x);
            }
        }
        let ghost s = r@;
        r.insert(j, x);
        proof {
            assert(r@ =~= s.insert(j as int, x));
            assert forall|k: int| 0 <= k < r@.len() - 1 implies #[trigger] in_rank_order(r@[k], r@[k + 1]) by {
                if k + 1 < j {
                    assert(in_rank_order(s[k], s[k + 1]));
                } else if k > j {
                    let m = k - 1;
                    assert(in_rank_order(s[m], s[m + 1]));
                }
            }
            assert(rows(r@) =~= rows(s).insert(j as int, x@));
            assert(rows(authors@.take(i + 1)) =~= rows(authors@.take(i as int)).push(x@));
            let pre = authors@.take(i as int);
            let post = authors@.take(i + 1);
            assert(post.drop_last() =~= pre);
            assert(post.last() == authors@[i as int]);
            assert forall|a: Seq<char>| #[trigger] lines_of(r@, a) == lines_of(post, a) by {
                lemma_lines_insert(s, j as int, x, a);
            }
            assert forall|a: Seq<char>| #[trigger] has_author(r@, a) == has_author(post, a) by {
                if has_author(r@, a) {
                    let k = choose|k: int| 0 <= k < r@.len() && #[trigger] r@[k].author@ == a;
                    if k < j {
                        assert(s[k].author@ == a);
                    } else if k > j {
                        assert(s[k - 1].author@ == a);
                    } else {
                        assert(post[i as int].author@ == a);
                    }
                    if has_author(s, a) {
                        assert(has_author(pre, a));
                        let m = choose|m: int| 0 <= m < pre.len() && #[trigger] pre[m].author@ == a;
                        assert(post[m].author@ == a);
                    }
                }
                if has_author(post, a) {
                    let k = choose|k: int| 0 <= k < post.len() && #[trigger] post[k].author@ == a;
                    if k < i {
                        assert(pre[k].author@ == a);
                        assert(has_author(pre, a));
                        assert(has_author(s, a));
                        let m = choose|m: int| 0 <= m < s.len() && #[trigger] s[m].author@ == a;
                        if m < j {
                            assert(r@[m].author@ == a);
                        } else {
                            assert(r@[m + 1].author@ == a);
                        }
                    } else {
                        assert(r@[j as int].author@ == a);
                    }
                }
            }
            if unique_authors(authors@) {
                assert(!has_author(pre, x.author@)) by {
                    if has_author(pre, x.author@) {
                        let k = choose|k: int| 0 <= k < pre.len() && #[trigger] pre[k].author@ == x.author@;
                        assert(authors@[k].author@ != authors@[i as int].author@);
                    }
                }
                assert forall|p: int, q: int| 0 <= p < q < r@.len() implies r@[p].author@ != r@[q].author@ by {
                    if p == j {
                        assert(s[q - 1].author@ != x.author@) by {
                            if s[q - 1].author@ == x.author@ {
                                assert(has_author(s, x.author@));
                            }
                        }
                    } else if q == j {
                        assert(s[p].author@ != x.author@) by {
                            if s[p].author@ == x.author@ {
                                assert(has_author(s, x.author@));
                            }
                        }
                    } else {
                        let p0 = if p < j { p } else { p - 1 };
                        let q0 = if q < j { q } else { q - 1 };
                        assert(r@[p] == s[p0] && r@[q] == s[q0]);
                    }
                }
            }
        }
        i += 1;
    }
    assert(authors@.take(authors@.len() as int) =~= authors@);
    r
}

pub proof fn lemma_text_le_refl(a: Seq<char>, i: int)
    requires
        0 <= i,
    ensures
        text_le_from(a, a, i),
    decreases a.len() - i,
{
    if i < a.len() {
        lemma_text_le_refl(a, i + 1);
    }
}

proof fn lemma_char_cast(x: char, y: char)
    requires
        (x as u32) == (y as u32),
    ensures
        x == y,
{
}

pub proof fn lemma_text_le_antisym(a: Seq<char>, b: Seq<char>, i: int)
    requires
        0 <= i <= a.len(),
        i <= b.len(),
        forall|k: int| 0 <= k < i ==> a[k] == b[k],
        text_le_from(a, b, i),
        text_le_from(b, a, i),
    ensures
        a == b,
    decreases a.len() - i,
{
    if i == a.len() {
        assert(a =~= b);
    } else {
        assert(i < b.len());
        assert((a[i] as u32) == (b[i] as u32));
        lemma_char_cast(a[i], b[i]);
        lemma_text_le_antisym(a, b, i + 1);
    }
}

pub proof fn lemma_text_le_trans(a: Seq<char>, b: Seq<char>, c: Seq<char>, i: int)
    requires
        0 <= i,
        text_le_from(a, b, i),
        text_le_from(b, c, i),
    ensures
        text_le_from(a, c, i),
    decreases a.len() - i,
{
    if i < a.len() && (a[i] as u32) == (b[i] as u32) && (b[i] as u32) == (c[i] as u32) {
        lemma_text_le_trans(a, b, c, i + 1);
    }
}

pub proof fn lemma_rank_order_trans(x: Blame, y: Blame, z: Blame)
    requires
        in_rank_order(x, y),
        in_rank_order(y, z),
    ensures
        in_rank_order(x, z),
{
    if x.lines == z.lines {
        lemma_text_le_trans(x.author@, y.author@, z.author@, 0);
    }
}

/// In a ranking, every row may stand before every later row.
pub proof fn lemma_ranked_globally(s: Seq<Blame>, i: int, j: int)
    requires
        ranked(s),
        0 <= i <= j < s.len(),
    ensures
        in_rank_order(s[i], s[j]),
    decreases j - i,
{
    if i == j {
        lemma_text_le_refl(s[i].author@, 0);
    } else {
        lemma_ranked_globally(s, i, j - 1);
        assert(in_rank_order(s[j - 1], s[(j - 1) + 1]));
        lemma_rank_order_trans(s[i], s[j - 1], s[j]);
    }
}

proof fn lemma_same_rows_sorted(s: Seq<Blame>, t: Seq<Blame>)
    requires
        ranked(s),
        ranked(t),
        unique_authors(s),
        unique_authors(t),
        forall|v: (Seq<char>, nat)| rows(s).contains(v) <==> rows(t).contains(v),
    ensures
        rows(s) == rows(t),
    decreases s.len(),
{
    if s.len() == 0 {
        if t.len() > 0 {
            assert(rows(t).contains(rows(t)[0]));
        }
        assert(rows(s) =~= rows(t));
    } else {
        assert(rows(s).contains(rows(s)[0]));
        let j = choose|j: int| 0 <= j < rows(t).len() && rows(t)[j] == rows(s)[0];
        assert(t.len() > 0);
        assert(rows(t).contains(rows(t)[0]));
        let i = choose|i: int| 0 <= i < rows(s).len() && rows(s)[i] == rows(t)[0];
        lemma_ranked_globally(s, 0, i);
        lemma_ranked_globally(t, 0, j);
        assert(in_rank_order(s[0], t[0]));
        assert(in_rank_order(t[0], s[0]));
        lemma_text_le_antisym(s[0].author@, t[0].author@, 0);
        assert(rows(s)[0] == rows(t)[0]);
        let s1 = s.drop_first();
        let t1 = t.drop_first();
        assert forall|k: int| 0 <= k < s1.len() - 1 implies #[trigger] in_rank_order(s1[k], s1[k + 1]) by {
            assert(in_rank_order(s[k + 1], s[(k + 1) + 1]));
        }
        assert forall|k: int| 0 <= k < t1.len() - 1 implies #[trigger] in_rank_order(t1[k], t1[k + 1]) by {
            assert(in_rank_order(t[k + 1], t[(k + 1) + 1]));
        }
        assert(rows(s1) =~= rows(s).drop_first());
        assert(rows(t1) =~= rows(t).drop_first());
        assert forall|v: (Seq<char>, nat)| rows(s1).contains(v) <==> rows(t1).contains(v) by {
            if rows(s1).contains(v) {
                let k = choose|k: int| 0 <= k < rows(s1).len() && rows(s1)[k] == v;
                assert(s[k + 1].author@ != s[0].author@);
                assert(rows(s).contains(v));
                let m = choose|m: int| 0 <= m < rows(t).len() && rows(t)[m] == v;
                if m == 0 {
                    assert(false);
                }
                assert(rows(t1)[m - 1] == v);
            }
            if rows(t1).contains(v) {
                let k = choose|k: int| 0 <= k < rows(t1).len() && rows(t1)[k] == v;
                assert(t[k + 1].author@ != t[0].author@);
                assert(rows(t).contains(v));
                let m = choose|m: int| 0 <= m < rows(s).len() && rows(s)[m] == v;
                if m == 0 {
                    assert(false);
                }
                assert(rows(s1)[m - 1] == v);
            }
        }
        lemma_same_rows_sorted(s1, t1);
        assert(rows(s) =~= seq![rows(s)[0]] + rows(s1));
        assert(rows(t) =~= seq![rows(t)[0]] + rows(t1));
    }
}

proof fn lemma_rows_contains(s: Seq<Blame>, v: (Seq<char>, nat))
    requires
        unique_authors(s),
    ensures
        rows(s).contains(v) <==> has_author(s, v.0) && lines_of(s, v.0) == v.1,
{
    if rows(s).contains(v) {
        let k = choose|k: int| 0 <= k < rows(s).len() && rows(s)[k] == v;
        lemma_lines_unique(s, k);
        assert(s[k].author@ == v.0);
    }
    if has_author(s, v.0) && lines_of(s, v.0) == v.1 {
        let k = choose|k: int| 0 <= k < s.len() && #[trigger] s[k].author@ == v.0;
        lemma_lines_unique(s, k);
        assert(rows(s)[k] == v);
    }
}

/// A ranking is determined by its tally: two rankings with unique authors
/// that credit every author alike and name the same authors are the same
/// rows in the same order.
pub proof fn lemma_ranking_determined(s: Seq<Blame>, t: Seq<Blame>)
    requires
        ranked(s),
        ranked(t),
        unique_authors(s),
        unique_authors(t),
        forall|a: Seq<char>| #[trigger] lines_of(s, a) == lines_of(t, a),
        forall|a: Seq<char>| #[trigger] has_author(s, a) == has_author(t, a),
    ensures
        rows(s) == rows(t),
{
    assert forall|v: (Seq<char>, nat)| rows(s).contains(v) <==> rows(t).contains(v) by {
        lemma_rows_contains(s, v);
        lemma_rows_contains(t, v);
    }
    lemma_same_rows_sorted(s, t);
}

} // verus!
