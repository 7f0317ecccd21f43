use vstd::prelude::*;

verus! {

/// The in-memory key-value store behind the `SET` and `GET` commands.
///
/// Keys are unique; the abstract state, given by the view, is the map from
/// key characters to value characters. `set` inserts or overwrites, `get`
/// looks a key up and falls back to the literal text `nil`.
#[derive(Debug, Clone)]
pub struct DictionaryServer {
    server: Vec<(String, String)>,
}

/// The map described by an association list, later entries winning.
pub closed spec fn assoc_map(s: Seq<(String, String)>) -> Map<Seq<char>, Seq<char>>
    decreases s.len(),
{
    if s.len() == 0 {
        Map::empty()
    } else {
        assoc_map(s.drop_last()).insert(s.last().0@, s.last().1@)
    }
}

impl View for DictionaryServer {
    type V = Map<Seq<char>, Seq<char>>;

    closed spec fn view(&self) -> Map<Seq<char>, Seq<char>> {
        assoc_map(self.server@)
    }
}

proof fn lemma_assoc_found(s: Seq<(String, String)>, i: int)
    requires
        forall|p: int, q: int| 0 <= p < q < s.len() ==> s[p].0@ != s[q].0@,
        0 <= i < s.len(),
    ensures
        assoc_map(s).dom().contains(s[i].0@),
        assoc_map(s)[s[i].0@] == s[i].1@,
    decreases s.len(),
{
    if i < s.len() - 1 {
        assert(s.drop_last()[i] == s[i]);
        lemma_assoc_found(s.drop_last(), i);
    }
}

proof fn lemma_assoc_absent(s: Seq<(String, String)>, k: Seq<char>)
    requires
        forall|p: int| 0 <= p < s.len() ==> s[p].0@ != k,
    ensures
        !assoc_map(s).dom().contains(k),
    decreases s.len(),
{
    if s.len() > 0 {
        lemma_assoc_absent(s.drop_last(), k);
    }
}

proof fn lemma_assoc_update(s: Seq<(String, String)>, i: int, v: String)
    requires
        forall|p: int, q: int| 0 <= p < q < s.len() ==> s[p].0@ != s[q].0@,
        0 <= i < s.len(),
    ensures
        assoc_map(s.update(i, (s[i].0, v))) == assoc_map(s).insert(s[i].0@, v@),
    decreases s.len(),
{
    let s2 = s.update(i, (s[i].0, v));
    if i == s.len() - 1 {
        assert(s2.drop_last() =~= s.drop_last());
        assert(assoc_map(s2) =~= assoc_map(s).insert(s[i].0@, v@));
    } else {
        assert(s2.drop_last() =~= s.drop_last().update(i, (s[i].0, v)));
        assert(s.drop_last()[i] == s[i]);
        lemma_assoc_update(s.drop_last(), i, v);
        assert(s[i].0@ != s.last().0@);
        assert(assoc_map(s2) =~= assoc_map(s).insert(s[i].0@, v@));
    }
}

proof fn lemma_assoc_push(s: Seq<(String, String)>, p: (String, String))
    ensures
        assoc_map(s.push(p)) == assoc_map(s).insert(p.0@, p.1@),
{
    assert(s.push(p).drop_last() =~= s);
}

/// The store state after a run of `SET` operations, applied in order.
pub open spec fn apply_sets(
    m: Map<Seq<char>, Seq<char>>,
    ops: Seq<(Seq<char>, Seq<char>)>,
) -> Map<Seq<char>, Seq<char>>
    decreases ops.len(),
{
    if ops.len() == 0 {
        m
    } else {
        apply_sets(m, ops.drop_last()).insert(ops.last().0, ops.last().1)
    }
}

/// No lost writes: when concurrent connections `SET` pairwise distinct
/// keys, the lock serialises the writes into some order, and whatever that
/// order is, every written pair is present and retrievable afterwards.
pub proof fn lemma_no_lost_writes(m: Map<Seq<char>, Seq<char>>, ops: Seq<(Seq<char>, Seq<char>)>)
    requires
        forall|i: int, j: int| 0 <= i < j < ops.len() ==> ops[i].0 != ops[j].0,
    ensures
        forall|i: int|
            0 <= i < ops.len() ==> apply_sets(m, ops).dom().contains(#[trigger] ops[i].0)
                && apply_sets(m, ops)[ops[i].0] == ops[i].1,
    decreases ops.len(),
{
    if ops.len() > 0 {
        lemma_no_lost_writes(m, ops.drop_last());
        assert forall|i: int|
            0 <= i < ops.len() implies apply_sets(m, ops).dom().contains(#[trigger] ops[i].0)
            && apply_sets(m, ops)[ops[i].0] == ops[i].1 by {
            if i < ops.len() - 1 {
                assert(ops.drop_last()[i] == ops[i]);
                assert(ops[i].0 != ops.last().0);
            }
        }
    }
}

impl DictionaryServer {
    /// Keys of distinct entries differ, so the association list and the map
    /// agree entry by entry.
    pub closed spec fn wf(&self) -> bool {
        forall|p: int, q: int|
            0 <= p < q < self.server@.len() ==> self.server@[p].0@ != self.server@[q].0@
    }

    pub fn new() -> (r: DictionaryServer)
        ensures
            r.wf(),
            r@ == Map::<Seq<char>, Seq<char>>::empty(),
    {
        DictionaryServer { server: Vec::new() }
    }

    /// Inserts or overwrites the value stored under `key`. Always succeeds.
    pub fn set(&mut self, key: &String, value: &String) -> (r: Result<(), ()>)
        requires
            old(self).wf(),
        ensures
            final(self).wf(),
            final(self)@ == old(self)@.insert(key@, value@),
            r is Ok,
    {
        let ghost s0 = self.server@;
        let n = self.server.len();
        let mut i: usize = 0;
        while i < n
            invariant
                n == self.server@.len(),
                self.server@ == s0,
                old(self).wf(),
                s0 == old(self).server@,
                forall|m: int| 0 <= m < i ==> self.server@[m].0@ != key@,
            decreases n - i,
        {
            if self.server[i].0 == *key {
                let k2 = self.server[i].0.clone();
                self.server[i] = (k2, value.clone());
                proof {
                    lemma_assoc_update(s0, i as int, *value);
                    assert(self.server@ =~= s0.update(i as int, (s0[i as int].0, *value)));
                    assert forall|p: int, q: int|
                        0 <= p < q < self.server@.len() implies self.server@[p].0@
                        != self.server@[q].0@ by {
                        assert(self.server@[p].0@ == s0[p].0@);
                        assert(self.server@[q].0@ == s0[q].0@);
                    }
                }
                return Ok(());
            }
            i += 1;
        }
        self.server.push((key.clone(), value.clone()));
        proof {
            lemma_assoc_push(s0, (*key, *value));
            assert(self.server@ =~= s0.push((*key, *value)));
        }
        Ok(())
    }

    /// Returns the value stored under `key`, or the text `nil` when the key
    /// was never set.
    pub fn get(&mut self, key: &String) -> (r: String)
        requires
            old(self).wf(),
        ensures
            *final(self) == *old(self),
            r@ == if old(self)@.dom().contains(key@) {
                old(self)@[key@]
            } else {
                "nil"@
            },
    {
        let n = self.server.len();
        let mut i: usize = 0;
        while i < n
            invariant
                n == self.server@.len(),
                *self == *old(self),
                old(self).wf(),
                forall|m: int| 0 <= m < i ==> self.server@[m].0@ != key@,
            decreases n - i,
        {
            if self.server[i].0 == *key {
                proof {
                    lemma_assoc_found(self.server@, i as int);
                }
                return self.server[i].1.clone();
            }
            i += 1;
        }
        proof {
            lemma_assoc_absent(self.server@, key@);
        }
        String::from_str("nil")
    }
}

} // verus!
