//! The in-memory key-value store: a mapping from byte keys to byte
//! values, held as an entry list with unique keys and reasoned about as
//! a mathematical map. Reads leave it untouched; writes update exactly
//! the named keys.

use crate::command::{Arguments, Cmd};
use crate::value::Value;
use vstd::prelude::*;
use vstd::slice::slice_to_vec;

verus! {

/// The mapping an entry list spells out, later entries winning.
pub open spec fn entries_map(s: Seq<(Vec<u8>, Vec<u8>)>) -> Map<Seq<u8>, Seq<u8>>
    decreases s.len(),
{
    if s.len() == 0 {
        Map::empty()
    } else {
        entries_map(s.drop_last()).insert(s.last().0@, s.last().1@)
    }
}

/// The views of a sequence of owned keys.
pub open spec fn views_of(s: Seq<Vec<u8>>) -> Seq<Seq<u8>> {
    s.map_values(|v: Vec<u8>| v@)
}

/// The mapping after removing the first `k` of the given keys.
pub open spec fn spec_del_map(m: Map<Seq<u8>, Seq<u8>>, ks: Seq<Seq<u8>>, k: int) -> Map<
    Seq<u8>,
    Seq<u8>,
>
    decreases k,
{
    if k <= 0 {
        m
    } else {
        spec_del_map(m, ks, k - 1).remove(ks[k - 1])
    }
}

/// How many of the first `k` removals found their key present.
pub open spec fn spec_del_count(m: Map<Seq<u8>, Seq<u8>>, ks: Seq<Seq<u8>>, k: int) -> int
    decreases k,
{
    if k <= 0 {
        0
    } else {
        spec_del_count(m, ks, k - 1) + (if spec_del_map(m, ks, k - 1).contains_key(ks[k - 1]) {
            1int
        } else {
            0int
        })
    }
}

/// The store: a guarded mapping from byte keys to byte values. The
/// entry list never repeats a key.
pub struct Store {
    entries: Vec<(Vec<u8>, Vec<u8>)>,
}

impl View for Store {
    type V = Map<Seq<u8>, Seq<u8>>;

    closed spec fn view(&self) -> Map<Seq<u8>, Seq<u8>> {
        entries_map(self.entries@)
    }
}

impl Store {
    /// The entry list holds each key at most once.
    pub closed spec fn wf(&self) -> bool {
        forall|i: int, j: int|
            0 <= i < j < self.entries@.len() ==> (#[trigger] self.entries@[i]).0@ != (
            #[trigger] self.entries@[j]).0@
    }

    /// An empty store.
    pub fn new() -> (r: Self)
        ensures
            r@ == Map::<Seq<u8>, Seq<u8>>::empty(),
            r.wf(),
    {
        Store { entries: Vec::new() }
    }

    /// The index of the entry holding a key, if any.
    #[verifier::loop_isolation(false)]
    fn find(&self, key: &[u8]) -> (r: Option<usize>)
        requires
            self.wf(),
        ensures
            r matches Some(i) ==> i < self.entries@.len() && self.entries@[i as int].0@ == key@,
            r is None ==> !self@.contains_key(key@),
            r is Some <==> self@.contains_key(key@),
    {
        proof {
            lemma_entries(self.entries@);
        }
        let n = self.entries.len();
        let mut i: usize = 0;
        while i < n
            invariant
                i <= n,
                n == self.entries@.len(),
                self.wf(),
                forall|j: int| 0 <= j < i ==> (#[trigger] self.entries@[j]).0@ != key@,
            decreases n - i,
        {
            if crate::decoder::slice_eq(self.entries[i].0.as_slice(), key) {
                return Some(i);
            }
            i = i + 1;
        }
        proof {
            lemma_entries(self.entries@);
            if self@.contains_key(key@) {
                let w = choose|w: int|
                    0 <= w < self.entries@.len() && self.entries@[w].0@ == key@;
                assert(false);
            }
        }
        None
    }

    /// A borrow of the value stored under a key.
    pub fn get(&self, key: &[u8]) -> (r: Option<&Vec<u8>>)
        requires
            self.wf(),
        ensures
            r matches Some(v) ==> self@.contains_key(key@) && v@ == self@[key@],
            r is None <==> !self@.contains_key(key@),
    {
        proof {
            lemma_entries(self.entries@);
        }
        match self.find(key) {
            Some(i) => Some(&self.entries[i].1),
            None => None,
        }
    }

    /// Store a value under a key, replacing what was there.
    pub fn insert(&mut self, key: Vec<u8>, value: Vec<u8>)
        requires
            old(self).wf(),
        ensures
            final (self).wf(),
            final (self)@ == old(self)@.insert(key@, value@),
    {
        let ghost before = self.entries@;
        let ghost k0 = key@;
        match self.find(key.as_slice()) {
            Some(i) => {
                let _ = self.entries.remove(i);
                proof {
                    lemma_entries_remove(before, i as int);
                    lemma_remove_unique(before, i as int);
                }
            },
            None => {
                proof {
                    lemma_entries(before);
                    if exists|j: int| 0 <= j < before.len() && (#[trigger] before[j]).0@ == k0 {
                        let j = choose|j: int|
                            0 <= j < before.len() && (#[trigger] before[j]).0@ == k0;
                        assert(entries_map(before).contains_key(k0));
                    }
                }
            },
        }
        let ghost mid = self.entries@;
        self.entries.push((key, value));
        proof {
            assert(self.entries@.drop_last() =~= mid);
            assert(self.entries@.last().0@ == k0);
            assert(entries_map(self.entries@) == entries_map(mid).insert(
                k0,
                self.entries@.last().1@,
            ));
            assert(entries_map(self.entries@) =~= entries_map(before).insert(
                k0,
                self.entries@.last().1@,
            ));
            assert forall|a: int, b: int|
                0 <= a < b < self.entries@.len() implies (#[trigger] self.entries@[a]).0@ != (
            #[trigger] self.entries@[b]).0@ by {
                if b == self.entries@.len() - 1 {
                    assert(self.entries@[a] == mid[a]);
                }
            }
        }
    }

    /// Remove a key, reporting whether it was present.
    pub fn remove(&mut self, key: &[u8]) -> (r: bool)
        requires
            old(self).wf(),
        ensures
            final (self).wf(),
            r == old(self)@.contains_key(key@),
            final (self)@ == old(self)@.remove(key@),
    {
        let ghost before = self.entries@;
        match self.find(key) {
            Some(i) => {
                let _ = self.entries.remove(i);
                proof {
                    lemma_entries_remove(before, i as int);
                    lemma_remove_unique(before, i as int);
                    lemma_entries(before);
                }
                true
            },
            None => {
                proof {
                    assert(entries_map(before).remove(key@) =~= entries_map(before));
                }
                false
            },
        }
    }

    /// Execute one command: a read hands back the stored value or the
    /// absent value; a write stores its value and acknowledges; a
    /// removal deletes exactly the named keys, in order, and reports
    /// how many were present when their turn came (duplicates count
    /// once). Reads never change the mapping.
    #[verifier::loop_isolation(false)]
    pub fn run_command(&mut self, cmd: Cmd<Vec<u8>>) -> (r: Value)
        requires
            old(self).wf(),
        ensures
            final (self).wf(),
            match cmd {
                Cmd::GET { key } => final (self)@ == old(self)@ && (old(self)@.contains_key(key@)
                    ==> (r matches Value::Data(d) && d@ == old(self)@[key@])) && (!old(
                    self,
                )@.contains_key(key@) ==> r is Nil),
                Cmd::SET { key, value } => final (self)@ == old(self)@.insert(key@, value@)
                    && r is Okay,
                Cmd::DEL { keys } => {
                    let ks = views_of(keys@);
                    let total = spec_del_count(old(self)@, ks, ks.len() as int);
                    &&& final (self)@ == spec_del_map(old(self)@, ks, ks.len() as int)
                    &&& (r matches Value::Int(n) && n == (if total <= i64::MAX {
                        total
                    } else {
                        i64::MAX as int
                    }))
                },
            },
    {
        match cmd {
            Cmd::GET { key } => {
                match self.get(key.as_slice()) {
                    Some(v) => Value::Data(slice_to_vec(v.as_slice())),
                    None => Value::Nil,
                }
            },
            Cmd::SET { key, value } => {
                self.insert(key, value);
                Value::Okay
            },
            Cmd::DEL { keys } => {
                let ghost m0 = self@;
                let ghost ks = views_of(keys@);
                let mut deleted: usize = 0;
                let mut it = keys.iter();
                loop
                    invariant
                        self.wf(),
                        it.args == &keys,
                        it.index <= keys@.len(),
                        ks == views_of(keys@),
                        self@ == spec_del_map(m0, ks, it.index as int),
                        deleted == spec_del_count(m0, ks, it.index as int),
                        deleted <= it.index,
                    decreases keys@.len() - it.index,
                {
                    let ghost before_index = it.index as int;
                    match it.next() {
                        Some(k) => {
                            proof {
                                assert(ks[before_index] == keys@[before_index]@);
                            }
                            let removed = self.remove(k.as_slice());
                            if removed {
                                deleted = deleted + 1;
                            }
                        },
                        None => {
                            break ;
                        },
                    }
                }
                if deleted as u64 <= i64::MAX as u64 {
                    Value::Int(deleted as i64)
                } else {
                    Value::Int(i64::MAX)
                }
            },
        }
    }
}

/// Every entry is in the spelled-out mapping with its own value, and
/// every key in the mapping is spelled by some entry.
proof fn lemma_entries(s: Seq<(Vec<u8>, Vec<u8>)>)
    requires
        forall|i: int, j: int|
            0 <= i < j < s.len() ==> (#[trigger] s[i]).0@ != (#[trigger] s[j]).0@,
    ensures
        forall|i: int|
            0 <= i < s.len() ==> entries_map(s).contains_key((#[trigger] s[i]).0@)
                && entries_map(s)[s[i].0@] == s[i].1@,
        forall|k: Seq<u8>|
            entries_map(s).contains_key(k) ==> exists|i: int|
                0 <= i < s.len() && (#[trigger] s[i]).0@ == k,
    decreases s.len(),
{
    if s.len() > 0 {
        lemma_entries(s.drop_last());
        assert forall|i: int| 0 <= i < s.len() implies entries_map(s).contains_key(
            (#[trigger] s[i]).0@,
        ) && entries_map(s)[s[i].0@] == s[i].1@ by {
            if i < s.len() - 1 {
                assert(s.drop_last()[i] == s[i]);
                assert(s[i].0@ != s.last().0@);
            }
        }
        assert forall|k: Seq<u8>| entries_map(s).contains_key(k) implies exists|i: int|
            0 <= i < s.len() && (#[trigger] s[i]).0@ == k by {
            if k != s.last().0@ {
                assert(entries_map(s.drop_last()).contains_key(k));
                let w = choose|w: int|
                    0 <= w < s.drop_last().len() && (#[trigger] s.drop_last()[w]).0@ == k;
                assert(s.drop_last()[w] == s[w]);
                assert(s[w].0@ == k);
            } else {
                assert(s[s.len() - 1].0@ == k);
            }
        }
    }
}

/// Removing an entry keeps the remaining keys unique, and none of them
/// is the removed entry's key.
proof fn lemma_remove_unique(s: Seq<(Vec<u8>, Vec<u8>)>, i: int)
    requires
        0 <= i < s.len(),
        forall|a: int, b: int|
            0 <= a < b < s.len() ==> (#[trigger] s[a]).0@ != (#[trigger] s[b]).0@,
    ensures
        forall|a: int, b: int|
            0 <= a < b < s.remove(i).len() ==> (#[trigger] s.remove(i)[a]).0@ != (
            #[trigger] s.remove(i)[b]).0@,
        forall|j: int| 0 <= j < s.remove(i).len() ==> (#[trigger] s.remove(i)[j]).0@ != s[i].0@,
{
    assert forall|a: int, b: int|
        0 <= a < b < s.remove(i).len() implies (#[trigger] s.remove(i)[a]).0@ != (
    #[trigger] s.remove(i)[b]).0@ by {
        let a2 = if a < i {
            a
        } else {
            a + 1
        };
        let b2 = if b < i {
            b
        } else {
            b + 1
        };
        assert(s.remove(i)[a] == s[a2] && s.remove(i)[b] == s[b2]);
    }
    assert forall|j: int| 0 <= j < s.remove(i).len() implies (#[trigger] s.remove(i)[j]).0@
        != s[i].0@ by {
        let j2 = if j < i {
            j
        } else {
            j + 1
        };
        assert(s.remove(i)[j] == s[j2]);
    }
}

/// Taking one entry out removes exactly its key from the mapping.
proof fn lemma_entries_remove(s: Seq<(Vec<u8>, Vec<u8>)>, i: int)
    requires
        0 <= i < s.len(),
        forall|a: int, b: int|
            0 <= a < b < s.len() ==> (#[trigger] s[a]).0@ != (#[trigger] s[b]).0@,
    ensures
        entries_map(s.remove(i)) == entries_map(s).remove(s[i].0@),
    decreases s.len(),
{
    lemma_entries(s);
    if i == s.len() - 1 {
        assert(s.remove(i) =~= s.drop_last());
        lemma_entries(s.drop_last());
        if entries_map(s.drop_last()).contains_key(s[i].0@) {
            let w = choose|w: int|
                0 <= w < s.drop_last().len() && (#[trigger] s.drop_last()[w]).0@ == s[i].0@;
            assert(s[w].0@ == s[i].0@);
        }
        assert(entries_map(s.remove(i)) =~= entries_map(s).remove(s[i].0@));
    } else {
        assert(s.remove(i).drop_last() =~= s.drop_last().remove(i));
        assert(s.remove(i).last() == s.last());
        lemma_entries_remove(s.drop_last(), i);
        assert(s.drop_last()[i] == s[i]);
        assert(s[i].0@ != s.last().0@);
        assert(entries_map(s.remove(i)) =~= entries_map(s).remove(s[i].0@));
    }
}

} // verus!
