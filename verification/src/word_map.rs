use vstd::prelude::*;

use crate::word_metadata::WordMetadata;

verus! {

/// The final dictionary: expanded surface form to merged metadata.
/// Entries are kept in insertion order; the abstract view is the map
/// in which the latest entry for a key wins.
pub struct WordMap {
    entries: Vec<(Vec<char>, WordMetadata)>,
}

/// The map that an entry sequence denotes: later entries shadow
/// earlier ones.
spec fn entries_map(s: Seq<(Vec<char>, WordMetadata)>) -> Map<Seq<char>, WordMetadata>
    decreases s.len(),
{
    if s.len() == 0 {
        Map::empty()
    } else {
        entries_map(s.drop_last()).insert(s.last().0@, s.last().1)
    }
}

impl View for WordMap {
    type V = Map<Seq<char>, WordMetadata>;

    closed spec fn view(&self) -> Map<Seq<char>, WordMetadata> {
        entries_map(self.entries@)
    }
}

/// Every entry has a latest occurrence of its key.
proof fn lemma_last_occurrence(s: Seq<(Vec<char>, WordMetadata)>, e: int)
    requires
        0 <= e < s.len(),
    ensures
        exists|f: int|
            e <= f < s.len() && (#[trigger] s[f]).0@ == s[e].0@ && (forall|q: int|
                f < q < s.len() ==> (#[trigger] s[q]).0@ != s[e].0@),
    decreases s.len() - e,
{
    if exists|q: int| e < q < s.len() && (#[trigger] s[q]).0@ == s[e].0@ {
        let q = choose|q: int| e < q < s.len() && (#[trigger] s[q]).0@ == s[e].0@;
        lemma_last_occurrence(s, q);
        let f = choose|f: int|
            q <= f < s.len() && (#[trigger] s[f]).0@ == s[q].0@ && (forall|w: int|
                f < w < s.len() ==> (#[trigger] s[w]).0@ != s[q].0@);
        assert(e <= f < s.len() && s[f].0@ == s[e].0@);
    } else {
        assert(s[e].0@ == s[e].0@);
    }
}

/// Membership in the denoted map is decided by the latest matching
/// entry.
proof fn lemma_entries_get(s: Seq<(Vec<char>, WordMetadata)>, w: Seq<char>)
    ensures
        entries_map(s).contains_key(w) <==> (exists|k: int| 0 <= k < s.len() && (#[trigger] s[k]).0@ == w),
    decreases s.len(),
{
    if s.len() > 0 {
        lemma_entries_get(s.drop_last(), w);
        if s.last().0@ == w {
            assert((#[trigger] s[s.len() - 1]).0@ == w);
        } else {
            if entries_map(s).contains_key(w) {
                let k = choose|k: int| 0 <= k < s.len() - 1 && (#[trigger] s.drop_last()[k]).0@
                    == w;
                assert(s[k].0@ == w);
            }
            if exists|k: int| 0 <= k < s.len() && (#[trigger] s[k]).0@ == w {
                let k = choose|k: int| 0 <= k < s.len() && (#[trigger] s[k]).0@ == w;
                assert(k < s.len() - 1);
                assert(s.drop_last()[k].0@ == w);
            }
        }
    }
}

impl WordMap {
    pub fn new() -> (r: WordMap)
        ensures
            r@ == Map::<Seq<char>, WordMetadata>::empty(),
    {
        WordMap { entries: Vec::new() }
    }

    /// Inserts or overwrites one word's metadata.
    pub fn insert(&mut self, word: Vec<char>, meta: WordMetadata)
        ensures
            final(self)@ == old(self)@.insert(word@, meta),
    {
        let ghost w = word@;
        let ghost prev = self.entries@;
        self.entries.push((word, meta));
        proof {
            assert(self.entries@.drop_last() =~= prev);
            assert(self.entries@.last().0@ == w && self.entries@.last().1 == meta);
        }
    }

    /// Looks a word up, returning the metadata of the latest insertion.
    pub fn get(&self, word: &Vec<char>) -> (r: Option<&WordMetadata>)
        ensures
            match r {
                Some(m) => self@.contains_key(word@) && *m == self@[word@],
                None => !self@.contains_key(word@),
            },
    {
        let n = self.entries.len();
        let mut i: usize = n;
        proof {
            assert(self.entries@.take(n as int) =~= self.entries@);
        }
        while i > 0
            invariant
                i <= n,
                n == self.entries@.len(),
                entries_map(self.entries@).contains_key(word@) == entries_map(
                    self.entries@.take(i as int),
                ).contains_key(word@),
                entries_map(self.entries@).contains_key(word@) ==> entries_map(self.entries@)[word@]
                    == entries_map(self.entries@.take(i as int))[word@],
            decreases i,
        {
            proof {
                assert(self.entries@.take(i as int).drop_last() =~= self.entries@.take(i - 1));
                assert(self.entries@.take(i as int).last() == self.entries@[i - 1]);
            }
            if chars_eq(&self.entries[i - 1].0, word) {
                return Some(&self.entries[i - 1].1);
            }
            i = i - 1;
        }
        proof {
            assert(self.entries@.take(0) =~= Seq::<(Vec<char>, WordMetadata)>::empty());
        }
        None
    }

    /// The distinct words of the dictionary: every key of the map,
    /// each exactly once.
    #[verifier::loop_isolation(false)]
    #[verifier::rlimit(80)]
    pub fn words(&self) -> (r: Vec<Vec<char>>)
        ensures
            forall|p: int| 0 <= p < r@.len() ==> self@.contains_key((#[trigger] r@[p])@),
            forall|p: int, q: int| 0 <= p < q < r@.len() ==> r@[p]@ != r@[q]@,
            forall|k: Seq<char>|
                self@.contains_key(k) ==> exists|p: int| 0 <= p < r@.len() && (#[trigger] r@[p])@
                    == k,
    {
        let n = self.entries.len();
        let mut out: Vec<Vec<char>> = Vec::new();
        let mut i: usize = 0;
        while i < n
            invariant
                i <= n,
                forall|p: int|
                    0 <= p < out@.len() ==> entries_map(self.entries@).contains_key(
                        (#[trigger] out@[p])@,
                    ),
                forall|p: int, q: int| 0 <= p < q < out@.len() ==> out@[p]@ != out@[q]@,
                forall|p: int|
                    0 <= p < out@.len() ==> exists|e: int|
                        0 <= e < i && (#[trigger] self.entries@[e]).0@ == (#[trigger] out@[p])@
                            && (forall|q: int|
                            e < q < n ==> (#[trigger] self.entries@[q]).0@ != out@[p]@),
                forall|e: int|
                    0 <= e < i && (forall|q: int|
                        e < q < n ==> (#[trigger] self.entries@[q]).0@ != (
                        #[trigger] self.entries@[e]).0@) ==> exists|p: int|
                        0 <= p < out@.len() && (#[trigger] out@[p])@ == self.entries@[e].0@,
            decreases n - i,
        {
            let ghost out0 = out@;
            let key = &self.entries[i].0;
            let mut later = false;
            let mut j: usize = i + 1;
            while j < n
                invariant
                    i < j <= n,
                    later == exists|q: int|
                        i < q < j && (#[trigger] self.entries@[q]).0@ == self.entries@[i as int].0@,
                decreases n - j,
            {
                if chars_eq(&self.entries[j].0, key) {
                    later = true;
                    proof {
                        assert((#[trigger] self.entries@[j as int]).0@ == self.entries@[
                            i as int].0@);
                    }
                }
                j = j + 1;
            }
            if !later {
                let copy = copy_chars(key);
                proof {
                    lemma_entries_get(self.entries@, copy@);
                    assert((#[trigger] self.entries@[i as int]).0@ == copy@);
                    assert forall|p: int| 0 <= p < out0.len() implies (#[trigger] out0[p])@
                        != copy@ by {
                        let e = choose|e: int|
                            0 <= e < i && (#[trigger] self.entries@[e]).0@ == out0[p]@ && (
                            forall|q: int|
                                e < q < n ==> (#[trigger] self.entries@[q]).0@ != out0[p]@);
                        assert(self.entries@[i as int].0@ != out0[p]@);
                    }
                }
                out.push(copy);
            }
            proof {
                assert forall|e: int|
                    0 <= e < i + 1 && (forall|q: int|
                        e < q < n ==> (#[trigger] self.entries@[q]).0@ != (
                        #[trigger] self.entries@[e]).0@) implies exists|p: int|
                    0 <= p < out@.len() && (#[trigger] out@[p])@ == self.entries@[e].0@ by {
                    if e == i {
                        if later {
                            let q = choose|q: int|
                                i < q < n && (#[trigger] self.entries@[q]).0@ == self.entries@[
                                i as int].0@;
                            assert(self.entries@[q].0@ == self.entries@[e].0@);
                        } else {
                            assert((#[trigger] out@[out@.len() - 1])@ == self.entries@[
                                i as int].0@);
                        }
                    } else {
                        let p = choose|p: int|
                            0 <= p < out0.len() && (#[trigger] out0[p])@ == self.entries@[e].0@;
                        assert((#[trigger] out@[p])@ == self.entries@[e].0@);
                    }
                }
            }
            i = i + 1;
        }
        proof {
            assert forall|k: Seq<char>| entries_map(self.entries@).contains_key(k) implies exists|
                p: int,
            | 0 <= p < out@.len() && (#[trigger] out@[p])@ == k by {
                lemma_entries_get(self.entries@, k);
                let e = choose|e: int| 0 <= e < n && (#[trigger] self.entries@[e]).0@ == k;
                lemma_last_occurrence(self.entries@, e);
                let f = choose|f: int|
                    e <= f < n && (#[trigger] self.entries@[f]).0@ == self.entries@[e].0@ && (
                    forall|q: int|
                        f < q < n ==> (#[trigger] self.entries@[q]).0@ != self.entries@[e].0@);
                assert forall|q: int| f < q < n implies (#[trigger] self.entries@[q]).0@
                    != self.entries@[f].0@ by {}
                assert(exists|p: int|
                    0 <= p < out@.len() && (#[trigger] out@[p])@ == self.entries@[f].0@);
            }
        }
        out
    }

    /// Whether the dictionary holds the word.
    pub fn contains_key(&self, word: &Vec<char>) -> (r: bool)
        ensures
            r == self@.contains_key(word@),
    {
        match self.get(word) {
            Some(_) => true,
            None => false,
        }
    }
}

/// A copy of a character sequence.
fn copy_chars(v: &Vec<char>) -> (r: Vec<char>)
    ensures
        r@ == v@,
{
    let mut out: Vec<char> = Vec::new();
    let mut i: usize = 0;
    while i < v.len()
        invariant
            i <= v@.len(),
            out@ =~= v@.take(i as int),
        decreases v@.len() - i,
    {
        out.push(v[i]);
        proof {
            assert(out@ =~= v@.take(i + 1));
        }
        i = i + 1;
    }
    proof {
        assert(v@.take(v@.len() as int) =~= v@);
    }
    out
}

/// Character-sequence equality, decided position by position.
pub fn chars_eq(a: &Vec<char>, b: &Vec<char>) -> (r: bool)
    ensures
        r == (a@ == b@),
{
    if a.len() != b.len() {
        proof {
            assert(a@.len() != b@.len());
        }
        return false;
    }
    let mut i: usize = 0;
    while i < a.len()
        invariant
            i <= a@.len(),
            a@.len() == b@.len(),
            forall|k: int| 0 <= k < i ==> a@[k] == b@[k],
        decreases a@.len() - i,
    {
        if a[i] != b[i] {
            return false;
        }
        i = i + 1;
    }
    proof {
        assert(a@ =~= b@);
    }
    true
}

} // verus!
