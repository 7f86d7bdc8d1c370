use vstd::prelude::*;
use crate::version::Version;
use crate::names::{name_lt, str_eq, str_le, lemma_name_order};

verus! {

/// The map a selection list stands for: later entries would win, though a
/// well-formed selection never repeats a name.
pub open spec fn sel_map(s: Seq<(String, Version)>) -> Map<Seq<char>, Version>
    decreases s.len(),
{
    if s.len() == 0 {
        Map::empty()
    } else {
        sel_map(s.drop_last()).insert(s.last().0@, s.last().1)
    }
}

/// No module name appears twice.
pub open spec fn distinct_keys(s: Seq<(String, Version)>) -> bool {
    forall|i: int, j: int| 0 <= i < j < s.len() ==> (#[trigger] s[i]).0@ != (#[trigger] s[j]).0@
}

/// Names in strictly ascending order.
pub open spec fn sorted_keys(s: Seq<(String, Version)>) -> bool {
    forall|i: int, j: int|
        0 <= i < j < s.len() ==> name_lt((#[trigger] s[i]).0@, (#[trigger] s[j]).0@)
}

pub proof fn lemma_sorted_distinct(s: Seq<(String, Version)>)
    requires
        sorted_keys(s),
    ensures
        distinct_keys(s),
{
    assert forall|i: int, j: int| 0 <= i < j < s.len() implies (#[trigger] s[i]).0@
        != (#[trigger] s[j]).0@ by {
        assert(name_lt(s[i].0@, s[j].0@));
    }
}

/// What a distinct-keyed selection list says: a name is selected exactly when
/// some entry carries it, with that entry's version.
pub proof fn lemma_sel_map_props(s: Seq<(String, Version)>)
    requires
        distinct_keys(s),
    ensures
        forall|n: Seq<char>|
            #[trigger] sel_map(s).dom().contains(n) == exists|i: int|
                0 <= i < s.len() && (#[trigger] s[i]).0@ == n,
        forall|i: int| 0 <= i < s.len() ==> sel_map(s)[(#[trigger] s[i]).0@] == s[i].1,
    decreases s.len(),
{
    if s.len() > 0 {
        let t = s.drop_last();
        lemma_sel_map_props(t);
        assert forall|n: Seq<char>|
            #[trigger] sel_map(s).dom().contains(n) == exists|i: int|
                0 <= i < s.len() && (#[trigger] s[i]).0@ == n by {
            if sel_map(s).dom().contains(n) {
                if n == s.last().0@ {
                    assert(s[s.len() - 1].0@ == n);
                } else {
                    assert(sel_map(t).dom().contains(n));
                    let i = choose|i: int| 0 <= i < t.len() && (#[trigger] t[i]).0@ == n;
                    assert(s[i] == t[i]);
                    assert(s[i].0@ == n);
                }
            }
            if exists|i: int| 0 <= i < s.len() && (#[trigger] s[i]).0@ == n {
                let i = choose|i: int| 0 <= i < s.len() && (#[trigger] s[i]).0@ == n;
                if i < s.len() - 1 {
                    assert(t[i].0@ == n);
                    assert(sel_map(t).dom().contains(n));
                }
            }
        }
        assert forall|i: int| 0 <= i < s.len() implies sel_map(s)[(#[trigger] s[i]).0@] == s[i].1
            by {
            if i < s.len() - 1 {
                assert(t[i] == s[i]);
                assert(s[i].0@ != s.last().0@);
            }
        }
    }
}

/// Inserting an entry with a fresh name anywhere in the list inserts it into
/// the map.
pub proof fn lemma_sel_map_insert(s: Seq<(String, Version)>, p: int, e: (String, Version))
    requires
        0 <= p <= s.len(),
        forall|i: int| 0 <= i < s.len() ==> (#[trigger] s[i]).0@ != e.0@,
    ensures
        sel_map(s.insert(p, e)) == sel_map(s).insert(e.0@, e.1),
    decreases s.len(),
{
    if p == s.len() {
        assert(s.insert(p, e).drop_last() =~= s);
        assert(s.insert(p, e).last() == e);
    } else {
        let t = s.drop_last();
        assert(s.insert(p, e).last() == s.last());
        assert(s.insert(p, e).drop_last() =~= t.insert(p, e));
        lemma_sel_map_insert(t, p, e);
        assert(s[s.len() - 1].0@ != e.0@);
        assert(sel_map(t).insert(e.0@, e.1).insert(s.last().0@, s.last().1) =~= sel_map(t).insert(
            s.last().0@,
            s.last().1,
        ).insert(e.0@, e.1));
    }
}

/// Removing an entry removes its name from the map.
pub proof fn lemma_sel_map_remove(s: Seq<(String, Version)>, p: int)
    requires
        distinct_keys(s),
        0 <= p < s.len(),
    ensures
        sel_map(s.remove(p)) == sel_map(s).remove(s[p].0@),
    decreases s.len(),
{
    let t = s.drop_last();
    lemma_sel_map_props(t);
    if p == s.len() - 1 {
        assert(s.remove(p) =~= t);
        assert(!sel_map(t).dom().contains(s.last().0@));
        assert(sel_map(t).insert(s.last().0@, s.last().1).remove(s.last().0@) =~= sel_map(t));
    } else {
        assert(s.remove(p).last() == s.last());
        assert(s.remove(p).drop_last() =~= t.remove(p));
        lemma_sel_map_remove(t, p);
        assert(t[p] == s[p]);
        assert(s.last().0@ != s[p].0@);
        assert(sel_map(t).remove(s[p].0@).insert(s.last().0@, s.last().1) =~= sel_map(t).insert(
            s.last().0@,
            s.last().1,
        ).remove(s[p].0@));
    }
}

/// The search's working selection: one version per module name, kept in
/// ascending name order.
pub struct Selection {
    pub entries: Vec<(String, Version)>,
}

impl Selection {
    /// The selection as a map from names to versions.
    pub open spec fn view(&self) -> Map<Seq<char>, Version> {
        sel_map(self.entries@)
    }

    pub open spec fn inv(&self) -> bool {
        sorted_keys(self.entries@)
    }

    pub fn new() -> (s: Selection)
        ensures
            s.inv(),
            s@ == Map::<Seq<char>, Version>::empty(),
    {
        Selection { entries: Vec::new() }
    }

    /// The selected version of `n`, if any.
    pub fn get(&self, n: &str) -> (r: Option<Version>)
        requires
            self.inv(),
        ensures
            match r {
                Some(v) => self@.dom().contains(n@) && self@[n@] == v,
                None => !self@.dom().contains(n@),
            },
    {
        proof {
            lemma_sorted_distinct(self.entries@);
            lemma_sel_map_props(self.entries@);
        }
        let mut i: usize = 0;
        while i < self.entries.len()
            invariant
                self.inv(),
                i <= self.entries@.len(),
                forall|j: int| 0 <= j < i ==> (#[trigger] self.entries@[j]).0@ != n@,
            decreases self.entries@.len() - i,
        {
            if str_eq(self.entries[i].0.as_str(), n) {
                proof {
                    lemma_sorted_distinct(self.entries@);
                    lemma_sel_map_props(self.entries@);
                }
                return Some(self.entries[i].1);
            }
            i = i + 1;
        }
        proof {
            lemma_sorted_distinct(self.entries@);
            lemma_sel_map_props(self.entries@);
        }
        None
    }

    /// Selects version `v` for the fresh name `n`.
    pub fn insert(&mut self, n: String, v: Version)
        requires
            old(self).inv(),
            !old(self)@.dom().contains(n@),
        ensures
            final(self).inv(),
            final(self)@ == old(self)@.insert(n@, v),
    {
        proof {
            lemma_sorted_distinct(self.entries@);
            lemma_sel_map_props(self.entries@);
        }
        let ghost s0 = self.entries@;
        let mut p: usize = 0;
        loop
            invariant
                self.entries@ == s0,
                sorted_keys(s0),
                !sel_map(s0).dom().contains(n@),
                p <= s0.len(),
                forall|j: int| 0 <= j < p ==> name_lt((#[trigger] s0[j]).0@, n@),
            ensures
                self.entries@ == s0,
                p <= s0.len(),
                forall|j: int| 0 <= j < p ==> name_lt((#[trigger] s0[j]).0@, n@),
                p == s0.len() || name_lt(n@, s0[p as int].0@),
            decreases s0.len() - p,
        {
            if p >= self.entries.len() {
                break;
            }
            if str_le(n.as_str(), self.entries[p].0.as_str()) {
                proof {
                    lemma_sorted_distinct(s0);
                    lemma_sel_map_props(s0);
                    if s0[p as int].0@ == n@ {
                        assert(sel_map(s0).dom().contains(n@));
                        assert(false);
                    }
                }
                break;
            }
            proof {
                lemma_name_order(n@, s0[p as int].0@, n@);
            }
            p = p + 1;
        }
        proof {
            lemma_sorted_distinct(s0);
            lemma_sel_map_props(s0);
            assert forall|i: int| 0 <= i < s0.len() implies (#[trigger] s0[i]).0@ != n@ by {
                if s0[i].0@ == n@ {
                    assert(sel_map(s0).dom().contains(n@));
                }
            }
            lemma_sel_map_insert(s0, p as int, (n, v));
        }
        self.entries.insert(p, (n, v));
        proof {
            let s1 = self.entries@;
            assert forall|i: int, j: int| 0 <= i < j < s1.len() implies name_lt(
                (#[trigger] s1[i]).0@,
                (#[trigger] s1[j]).0@,
            ) by {
                if j < p {
                } else if i < p && j == p {
                } else if i < p && j > p {
                    assert(s1[j] == s0[j - 1]);
                } else if i == p {
                    assert(s1[j] == s0[j - 1]);
                    if j - 1 == p {
                    } else {
                        lemma_name_order(n@, s0[p as int].0@, s0[j - 1].0@);
                    }
                } else {
                    assert(s1[i] == s0[i - 1] && s1[j] == s0[j - 1]);
                }
            }
        }
    }

    /// Drops the selection of `n`, if any.
    pub fn remove(&mut self, n: &str)
        requires
            old(self).inv(),
        ensures
            final(self).inv(),
            final(self)@ == old(self)@.remove(n@),
    {
        proof {
            lemma_sorted_distinct(self.entries@);
            lemma_sel_map_props(self.entries@);
        }
        let ghost s0 = self.entries@;
        let mut i: usize = 0;
        while i < self.entries.len()
            invariant
                self.entries@ == s0,
                s0 == old(self).entries@,
                sorted_keys(s0),
                i <= s0.len(),
                forall|j: int| 0 <= j < i ==> (#[trigger] s0[j]).0@ != n@,
            decreases s0.len() - i,
        {
            if str_eq(self.entries[i].0.as_str(), n) {
                proof {
                    lemma_sorted_distinct(s0);
                    lemma_sel_map_remove(s0, i as int);
                }
                self.entries.remove(i);
                proof {
                    let s1 = self.entries@;
                    assert forall|a: int, b: int| 0 <= a < b < s1.len() implies name_lt(
                        (#[trigger] s1[a]).0@,
                        (#[trigger] s1[b]).0@,
                    ) by {
                        if a < i && b < i {
                        } else if a < i {
                            assert(s1[b] == s0[b + 1]);
                        } else {
                            assert(s1[a] == s0[a + 1] && s1[b] == s0[b + 1]);
                        }
                    }
                }
                return;
            }
            i = i + 1;
        }
        proof {
            lemma_sorted_distinct(s0);
            lemma_sel_map_props(s0);
            if sel_map(s0).dom().contains(n@) {
                let j = choose|j: int| 0 <= j < s0.len() && (#[trigger] s0[j]).0@ == n@;
                assert(false);
            }
            assert(sel_map(s0).remove(n@) =~= sel_map(s0));
        }
    }
}

} // verus!
