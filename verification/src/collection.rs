use vstd::prelude::*;

use crate::strutil::str_eq;
use crate::timestamp::Timestamp;

verus! {

/// A named piece of text with the moment of its creation. Immutable once
/// created; re-saving under the same key replaces the whole record.
#[derive(Debug)]
pub struct Snippet {
    pub content: String,
    pub created_at: Timestamp,
}

/// The mathematical value of a snippet: its text and its timestamp.
#[verifier::ext_equal]
pub struct SnippetV {
    pub content: Seq<char>,
    pub created_at: Timestamp,
}

impl View for Snippet {
    type V = SnippetV;

    open spec fn view(&self) -> SnippetV {
        SnippetV { content: self.content@, created_at: self.created_at }
    }
}

impl Clone for Snippet {
    fn clone(&self) -> (r: Snippet)
        ensures
            r@ == self@,
    {
        Snippet { content: self.content.clone(), created_at: self.created_at }
    }
}

impl Snippet {
    pub open spec fn wf(self) -> bool {
        self.created_at.wf()
    }
}

/// The whole set of snippets, keyed by unique name. Backed by a vector of
/// entries whose keys are pairwise distinct; its mathematical value is the
/// map from name to snippet value.
pub struct Collection {
    pub entries: Vec<(String, Snippet)>,
}

/// The entries of a collection as a sequence of (name, value) pairs.
pub open spec fn pairs_of(entries: Seq<(String, Snippet)>) -> Seq<(Seq<char>, SnippetV)> {
    entries.map_values(|p: (String, Snippet)| (p.0@, p.1@))
}

/// Pairwise-distinct keys, and well-formed timestamps throughout.
pub open spec fn wf_pairs(s: Seq<(Seq<char>, SnippetV)>) -> bool {
    &&& forall|i: int, j: int| 0 <= i < j < s.len() ==> s[i].0 != s[j].0
    &&& forall|i: int| 0 <= i < s.len() ==> (#[trigger] s[i]).1.created_at.wf()
}

/// The map a sequence of pairs denotes; later pairs win, though under
/// `wf_pairs` each key occurs once.
pub open spec fn map_of(s: Seq<(Seq<char>, SnippetV)>) -> Map<Seq<char>, SnippetV>
    decreases s.len(),
{
    if s.len() == 0 {
        Map::empty()
    } else {
        map_of(s.drop_last()).insert(s.last().0, s.last().1)
    }
}

impl View for Collection {
    type V = Map<Seq<char>, SnippetV>;

    open spec fn view(&self) -> Map<Seq<char>, SnippetV> {
        map_of(pairs_of(self.entries@))
    }
}

pub proof fn lemma_map_of_domain(s: Seq<(Seq<char>, SnippetV)>)
    ensures
        forall|k: Seq<char>|
            map_of(s).contains_key(k) <==> exists|i: int| 0 <= i < s.len() && (#[trigger] s[i]).0
                == k,
    decreases s.len(),
{
    if s.len() > 0 {
        lemma_map_of_domain(s.drop_last());
        assert forall|k: Seq<char>| map_of(s).contains_key(k) implies exists|i: int|
            0 <= i < s.len() && (#[trigger] s[i]).0 == k by {
            if k == s.last().0 {
                assert(s[s.len() - 1].0 == k);
            } else {
                assert(map_of(s.drop_last()).contains_key(k));
                let i = choose|i: int|
                    0 <= i < s.drop_last().len() && (#[trigger] s.drop_last()[i]).0 == k;
                assert(s.drop_last()[i] == s[i]);
                assert(s[i].0 == k);
            }
        }
        assert forall|k: Seq<char>|
            (exists|i: int| 0 <= i < s.len() && (#[trigger] s[i]).0 == k) implies map_of(
            s,
        ).contains_key(k) by {
            let i = choose|i: int| 0 <= i < s.len() && (#[trigger] s[i]).0 == k;
            if i < s.len() - 1 {
                assert(s.drop_last()[i].0 == k);
                assert(map_of(s.drop_last()).contains_key(k));
            }
        }
    }
}

/// Under unique keys, the pair at any index is what the map holds for it.
pub proof fn lemma_map_of_index(s: Seq<(Seq<char>, SnippetV)>, i: int)
    requires
        forall|a: int, b: int| 0 <= a < b < s.len() ==> s[a].0 != s[b].0,
        0 <= i < s.len(),
    ensures
        map_of(s).contains_key(s[i].0),
        map_of(s)[s[i].0] == s[i].1,
    decreases s.len(),
{
    if i == s.len() - 1 {
    } else {
        assert(s[i].0 != s.last().0);
        assert(s.drop_last()[i] == s[i]);
        lemma_map_of_index(s.drop_last(), i);
    }
}

impl Collection {
    /// Unique keys and well-formed snippets.
    pub open spec fn wf(self) -> bool {
        wf_pairs(pairs_of(self.entries@))
    }

    /// The empty collection.
    pub fn new() -> (r: Collection)
        ensures
            r.wf(),
            r@ == Map::<Seq<char>, SnippetV>::empty(),
            r.entries@.len() == 0,
    {
        let r = Collection { entries: Vec::new() };
        proof {
            assert(pairs_of(r.entries@) =~= Seq::<(Seq<char>, SnippetV)>::empty());
        }
        r
    }

    /// Number of stored snippets.
    pub fn len(&self) -> (n: usize)
        ensures
            n == self.entries@.len(),
    {
        self.entries.len()
    }

    /// Where `name` sits in the entry vector, if anywhere.
    fn index_of(&self, name: &str) -> (r: Option<usize>)
        ensures
            r matches Some(i) ==> i < self.entries@.len() && self.entries@[i as int].0@ == name@,
            r is None ==> forall|i: int|
                0 <= i < self.entries@.len() ==> (#[trigger] self.entries@[i]).0@ != name@,
    {
        let n = self.entries.len();
        let mut i: usize = 0;
        while i < n
            invariant
                n == self.entries@.len(),
                i <= n,
                forall|j: int| 0 <= j < i ==> (#[trigger] self.entries@[j]).0@ != name@,
            decreases n - i,
        {
            if str_eq(self.entries[i].0.as_str(), name) {
                return Some(i);
            }
            i = i + 1;
        }
        None
    }

    /// Look a snippet up by name.
    pub fn get(&self, name: &str) -> (r: Option<&Snippet>)
        requires
            self.wf(),
        ensures
            r matches Some(sn) ==> self@.contains_key(name@) && self@[name@] == sn@,
            r is None ==> !self@.contains_key(name@),
    {
        proof {
            lemma_map_of_domain(pairs_of(self.entries@));
        }
        match self.index_of(name) {
            Some(i) => {
                proof {
                    lemma_map_of_index(pairs_of(self.entries@), i as int);
                    assert(pairs_of(self.entries@)[i as int].0 == name@);
                }
                Some(&self.entries[i].1)
            },
            None => {
                proof {
                    assert forall|j: int| 0 <= j < pairs_of(self.entries@).len() implies (
                    #[trigger] pairs_of(self.entries@)[j]).0 != name@ by {
                        assert(self.entries@[j].0@ != name@);
                    }
                }
                None
            },
        }
    }

    /// Insert or replace the snippet stored under `name`.
    pub fn insert(&mut self, name: String, sn: Snippet)
        requires
            old(self).wf(),
            sn.wf(),
        ensures
            final(self).wf(),
            final(self)@ == old(self)@.insert(name@, sn@),
            !old(self)@.contains_key(name@) ==> pairs_of(final(self).entries@) == pairs_of(
                old(self).entries@,
            ).push((name@, sn@)),
    {
        let ghost pre = pairs_of(self.entries@);
        match self.index_of(name.as_str()) {
            Some(i) => {
                self.entries.remove(i);
                self.entries.insert(i, (name, sn));
                proof {
                    let post = pairs_of(self.entries@);
                    assert(pre[i as int].0 == name@);
                    lemma_map_of_index(pre, i as int);
                    assert(old(self)@.contains_key(name@));
                    assert(post =~= pre.update(i as int, (pre[i as int].0, sn@)));
                    lemma_map_of_update_same_key(pre, i as int, sn@);
                    assert(final(self)@ =~= old(self)@.insert(name@, sn@));
                    assert forall|a: int, b: int| 0 <= a < b < post.len() implies post[a].0
                        != post[b].0 by {
                        assert(post[a].0 == pre[a].0 && post[b].0 == pre[b].0);
                    }
                    assert forall|a: int| 0 <= a < post.len() implies (
                    #[trigger] post[a]).1.created_at.wf() by {
                        if a != i as int {
                            assert(post[a].1 == pre[a].1);
                        }
                    }
                }
            },
            None => {
                self.entries.push((name, sn));
                proof {
                    let post = pairs_of(self.entries@);
                    assert(post.drop_last() =~= pre);
                    assert(post.last().0 == name@ && post.last().1 == sn@);
                    assert(post =~= pre.push((name@, sn@)));
                    assert(final(self)@ =~= old(self)@.insert(name@, sn@));
                    assert forall|a: int, b: int| 0 <= a < b < post.len() implies post[a].0
                        != post[b].0 by {
                        if b == post.len() - 1 {
                            assert(post[a].0 == pre[a].0);
                            assert(old(self).entries@[a].0@ != name@);
                        } else {
                            assert(post[a].0 == pre[a].0 && post[b].0 == pre[b].0);
                        }
                    }
                    assert forall|a: int| 0 <= a < post.len() implies (
                    #[trigger] post[a]).1.created_at.wf() by {
                        if a != post.len() - 1 {
                            assert(post[a].1 == pre[a].1);
                        }
                    }
                }
            },
        }
    }

    /// Remove the snippet stored under `name`; reports whether it was there.
    pub fn remove(&mut self, name: &str) -> (r: bool)
        requires
            old(self).wf(),
        ensures
            final(self).wf(),
            r == old(self)@.contains_key(name@),
            final(self)@ == old(self)@.remove(name@),
    {
        let ghost pre = pairs_of(self.entries@);
        proof {
            lemma_map_of_domain(pre);
        }
        match self.index_of(name) {
            Some(i) => {
                self.entries.remove(i);
                proof {
                    let post = pairs_of(self.entries@);
                    assert(post =~= pre.remove(i as int));
                    assert(pre[i as int].0 == name@);
                    lemma_map_of_remove(pre, i as int);
                    assert(final(self)@ =~= old(self)@.remove(name@));
                }
                true
            },
            None => {
                proof {
                    assert forall|j: int| 0 <= j < pre.len() implies (#[trigger] pre[j]).0
                        != name@ by {
                        assert(self.entries@[j].0@ != name@);
                    }
                    assert(!old(self)@.contains_key(name@));
                    assert(final(self)@ =~= old(self)@.remove(name@));
                }
                false
            },
        }
    }
}

/// Replacing the value at one index, key kept, is a map insert on that key.
proof fn lemma_map_of_update_same_key(s: Seq<(Seq<char>, SnippetV)>, i: int, v: SnippetV)
    requires
        forall|a: int, b: int| 0 <= a < b < s.len() ==> s[a].0 != s[b].0,
        0 <= i < s.len(),
    ensures
        map_of(s.update(i, (s[i].0, v))) == map_of(s).insert(s[i].0, v),
    decreases s.len(),
{
    let t = s.update(i, (s[i].0, v));
    if i == s.len() - 1 {
        assert(t.drop_last() =~= s.drop_last());
        assert(map_of(t) =~= map_of(s).insert(s[i].0, v));
    } else {
        assert(t.drop_last() =~= s.drop_last().update(i, (s[i].0, v)));
        assert(s.drop_last()[i] == s[i]);
        lemma_map_of_update_same_key(s.drop_last(), i, v);
        assert(s[i].0 != s.last().0);
        assert(map_of(t) =~= map_of(s).insert(s[i].0, v));
    }
}

/// Removing the entry at one index removes exactly its key from the map.
proof fn lemma_map_of_remove(s: Seq<(Seq<char>, SnippetV)>, i: int)
    requires
        forall|a: int, b: int| 0 <= a < b < s.len() ==> s[a].0 != s[b].0,
        0 <= i < s.len(),
    ensures
        map_of(s.remove(i)) == map_of(s).remove(s[i].0),
    decreases s.len(),
{
    let t = s.remove(i);
    if i == s.len() - 1 {
        assert(t =~= s.drop_last());
        lemma_map_of_domain(s.drop_last());
        assert forall|k: Seq<char>| map_of(s.drop_last()).contains_key(k) implies k != s[i].0 by {
            let j = choose|j: int|
                0 <= j < s.drop_last().len() && (#[trigger] s.drop_last()[j]).0 == k;
            assert(s[j].0 == k);
        }
        assert(map_of(t) =~= map_of(s).remove(s[i].0));
    } else {
        assert(t.drop_last() =~= s.drop_last().remove(i));
        assert(s.drop_last()[i] == s[i]);
        lemma_map_of_remove(s.drop_last(), i);
        assert(t.last() == s.last());
        assert(s[i].0 != s.last().0);
        assert(map_of(t) =~= map_of(s).remove(s[i].0));
    }
}

} // verus!
