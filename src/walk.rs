//! The walker's per-entry decision, and folding one file's blame hunks into
//! its attribution map.
use vstd::prelude::*;
use vstd::string::*;
use crate::tally::{Blame, blame_acc, fold_fits, lines_of, has_author, unique_authors};

verus! {

/// The kind of an entry in a snapshot.
#[derive(Debug, Clone, Copy, PartialEq, Eq, Structural)]
pub enum EntryKind {
    File,
    Directory,
    Other,
}

/// Counts the leaf entries of a pre-order traversal and builds their paths.
pub struct TreeWalker {
    count: usize,
}

impl TreeWalker {
    pub closed spec fn spec_count(&self) -> nat {
        self.count as nat
    }

    pub fn new() -> (r: Self)
        ensures
            r.spec_count() == 0,
    {
        TreeWalker { count: 0 }
    }

    /// Leaf entries visited so far.
    pub fn count(&self) -> (r: usize)
        ensures
            r == self.spec_count(),
    {
        self.count
    }

    /// Visits the entry `name` under directory path `dir` (which ends in a
    /// separator, or is empty at the root). A file is a work item: its full
    /// path comes back and is counted. Other entries give nothing.
    pub fn visit(&mut self, dir: &String, name: &String, kind: EntryKind) -> (r: Option<String>)
        requires
            old(self).spec_count() < usize::MAX,
        ensures
            kind == EntryKind::File ==> r is Some && r->Some_0@ == dir@ + name@ && final(self).spec_count() == old(self).spec_count() + 1,
            kind != EntryKind::File ==> r is None && final(self).spec_count() == old(self).spec_count(),
    {
        if kind != EntryKind::File {
            return None;
        }
        let mut path = dir.clone();
        path.append(name.as_str());
        self.count = self.count + 1;
        Some(path)
    }
}

/// One hunk of a file's blame: the author's e-mail, if the signature has a
/// readable one, and the number of lines in the hunk.
pub struct Hunk {
    pub email: Option<String>,
    pub lines: usize,
}

/// The author a hunk is credited to: its e-mail, or `unknown`.
pub open spec fn author_of(h: Hunk) -> Seq<char> {
    match h.email {
        Some(e) => e@,
        None => "unknown"@,
    }
}

/// Lines of the hunks in `hs` credited to author `a`.
pub open spec fn hunk_lines(hs: Seq<Hunk>, a: Seq<char>) -> int
    decreases hs.len(),
{
    if hs.len() == 0 {
        0
    } else {
        hunk_lines(hs.drop_last(), a) + if author_of(hs.last()) == a { hs.last().lines as int } else { 0 }
    }
}

/// Some hunk in `hs` is credited to author `a`.
pub open spec fn hunk_names(hs: Seq<Hunk>, a: Seq<char>) -> bool {
    exists|i: int| 0 <= i < hs.len() && author_of(#[trigger] hs[i]) == a
}

/// The attribution map of one file from its blame hunks: one row per author,
/// with the lines of all of that author's hunks, or `None` when such a sum
/// does not fit in `usize`.
pub fn attribute_hunks(hunks: &Vec<Hunk>) -> (r: Option<Vec<Blame>>)
    ensures
        match r {
            Some(t) => {
                &&& unique_authors(t@)
                &&& forall|a: Seq<char>| #[trigger] lines_of(t@, a) == hunk_lines(hunks@, a)
                &&& forall|a: Seq<char>| #[trigger] has_author(t@, a) == hunk_names(hunks@, a)
            },
            None => exists|a: Seq<char>| #[trigger] hunk_lines(hunks@, a) > usize::MAX,
        },
{
    let mut rows: Vec<Blame> = Vec::new();
    let mut i: usize = 0;
    while i < hunks.len()
        invariant
            i <= hunks@.len(),
            rows@.len() == i,
            forall|k: int| 0 <= k < i ==> (#[trigger] rows@[k]).author@ == author_of(hunks@[k]) && rows@[k].lines == hunks@[k].lines,
            forall|a: Seq<char>| #[trigger] lines_of(rows@, a) == hunk_lines(hunks@.take(i as int), a),
        decreases hunks@.len() - i,
    {
        let h = &hunks[i];
        let author = match &h.email {
            Some(e) => e.clone(),
            None => {
                proof {
                    reveal_strlit("unknown");
                }
                "unknown".to_owned()
            },
        };
        assert(author@ == author_of(hunks@[i as int]));
        let ghost pre = rows@;
        rows.push(Blame { author, lines: h.lines });
        proof {
            assert(rows@.drop_last() =~= pre);
            assert(hunks@.take(i + 1).drop_last() =~= hunks@.take(i as int));
            assert(hunks@.take(i + 1).last() == hunks@[i as int]);
            assert(rows@.last() == rows@[i as int]);
            assert forall|a: Seq<char>| #[trigger] lines_of(rows@, a) == hunk_lines(hunks@.take(i + 1), a) by {
                assert(lines_of(pre, a) == hunk_lines(hunks@.take(i as int), a));
            }
        }
        i += 1;
    }
    assert(hunks@.take(hunks@.len() as int) =~= hunks@);
    let mut t: Vec<Blame> = Vec::new();
    proof {
        assert forall|a: Seq<char>| #[trigger] lines_of(t@, a) == 0 by {}
    }
    if !fold_fits(&t, &rows) {
        proof {
            let a = choose|a: Seq<char>| !(#[trigger] lines_of(t@, a) + lines_of(rows@, a) <= usize::MAX);
            assert(hunk_lines(hunks@, a) > usize::MAX);
        }
        return None;
    }
    let ghost rv = rows@;
    blame_acc(&mut t, rows);
    proof {
        assert forall|a: Seq<char>| #[trigger] has_author(t@, a) == hunk_names(hunks@, a) by {
            assert(!has_author(Seq::<Blame>::empty(), a));
            if has_author(rv, a) {
                let k = choose|k: int| 0 <= k < rv.len() && #[trigger] rv[k].author@ == a;
                assert(author_of(hunks@[k]) == a);
            }
            if hunk_names(hunks@, a) {
                let k = choose|k: int| 0 <= k < hunks@.len() && author_of(#[trigger] hunks@[k]) == a;
                assert(rv[k].author@ == a);
            }
        }
    }
    Some(t)
}

} // verus!
