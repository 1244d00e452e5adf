use vstd::prelude::*;
use crate::text::str_eq;

verus! {

/// One channel: its name and its samples, both as character sequences.
pub type EntryV = (Seq<char>, Seq<Seq<char>>);

/// The mapping described by an association list, later entries winning.
pub open spec fn assoc_map(es: Seq<EntryV>) -> Map<Seq<char>, Seq<Seq<char>>>
    decreases es.len(),
{
    if es.len() == 0 {
        Map::empty()
    } else {
        assoc_map(es.drop_last()).insert(es.last().0, es.last().1)
    }
}

/// No channel name occurs twice.
pub open spec fn unique_keys(es: Seq<EntryV>) -> bool {
    forall|i: int, j: int| 0 <= i < j < es.len() ==> es[i].0 != es[j].0
}

/// The entries whose sample sequences are non-empty, in order.
pub open spec fn nonempty_entries(es: Seq<EntryV>) -> Seq<EntryV>
    decreases es.len(),
{
    if es.len() == 0 {
        Seq::empty()
    } else if es.last().1.len() > 0 {
        nonempty_entries(es.drop_last()).push(es.last())
    } else {
        nonempty_entries(es.drop_last())
    }
}

pub proof fn lemma_assoc_found(es: Seq<EntryV>, i: int)
    requires
        unique_keys(es),
        0 <= i < es.len(),
    ensures
        assoc_map(es).dom().contains(es[i].0),
        assoc_map(es)[es[i].0] == es[i].1,
    decreases es.len(),
{
    if i < es.len() - 1 {
        assert(unique_keys(es.drop_last()));
        lemma_assoc_found(es.drop_last(), i);
    }
}

pub proof fn lemma_assoc_absent(es: Seq<EntryV>, k: Seq<char>)
    requires
        forall|i: int| 0 <= i < es.len() ==> es[i].0 != k,
    ensures
        !assoc_map(es).dom().contains(k),
    decreases es.len(),
{
    if es.len() > 0 {
        lemma_assoc_absent(es.drop_last(), k);
    }
}

pub proof fn lemma_assoc_dom_index(es: Seq<EntryV>, k: Seq<char>)
    requires
        assoc_map(es).dom().contains(k),
    ensures
        exists|i: int| 0 <= i < es.len() && (#[trigger] es[i]).0 == k,
    decreases es.len(),
{
    if es.len() > 0 {
        if es.last().0 == k {
            assert(es[es.len() - 1].0 == k);
        } else {
            lemma_assoc_dom_index(es.drop_last(), k);
            let i = choose|i: int| 0 <= i < es.drop_last().len() && (#[trigger] es.drop_last()[i]).0
                == k;
            assert(es[i].0 == k);
        }
    }
}

pub proof fn lemma_assoc_update(es: Seq<EntryV>, i: int, v: Seq<Seq<char>>)
    requires
        unique_keys(es),
        0 <= i < es.len(),
    ensures
        assoc_map(es.update(i, (es[i].0, v))) == assoc_map(es).insert(es[i].0, v),
    decreases es.len(),
{
    let es2 = es.update(i, (es[i].0, v));
    if i == es.len() - 1 {
        assert(es2.drop_last() =~= es.drop_last());
        assert(assoc_map(es2) =~= assoc_map(es).insert(es[i].0, v));
    } else {
        assert(unique_keys(es.drop_last()));
        lemma_assoc_update(es.drop_last(), i, v);
        assert(es2.drop_last() =~= es.drop_last().update(i, (es[i].0, v)));
        assert(es2.last() == es.last());
        assert(es[i].0 != es.last().0);
        assert(assoc_map(es2) =~= assoc_map(es).insert(es[i].0, v));
    }
}

pub proof fn lemma_assoc_len(es: Seq<EntryV>)
    requires
        unique_keys(es),
    ensures
        assoc_map(es).dom().finite(),
        assoc_map(es).dom().len() == es.len(),
    decreases es.len(),
{
    if es.len() > 0 {
        assert(unique_keys(es.drop_last()));
        lemma_assoc_len(es.drop_last());
        assert(forall|i: int|
            0 <= i < es.drop_last().len() ==> es.drop_last()[i].0 != es.last().0);
        lemma_assoc_absent(es.drop_last(), es.last().0);
    }
}

pub proof fn lemma_assoc_nonempty(es: Seq<EntryV>)
    requires
        unique_keys(es),
    ensures
        unique_keys(nonempty_entries(es)),
        forall|j: int|
            #![trigger nonempty_entries(es)[j]]
            0 <= j < nonempty_entries(es).len() ==> exists|i: int|
                0 <= i < es.len() && nonempty_entries(es)[j] == #[trigger] es[i],
        assoc_map(nonempty_entries(es)) =~= Map::new(
            |k: Seq<char>| assoc_map(es).dom().contains(k) && assoc_map(es)[k].len() > 0,
            |k: Seq<char>| assoc_map(es)[k],
        ),
    decreases es.len(),
{
    if es.len() > 0 {
        let dl = es.drop_last();
        assert(unique_keys(dl));
        lemma_assoc_nonempty(dl);
        let last = es.last();
        assert(forall|i: int| 0 <= i < dl.len() ==> dl[i].0 != last.0);
        lemma_assoc_absent(dl, last.0);
        let f = nonempty_entries(es);
        let fdl = nonempty_entries(dl);
        if last.1.len() > 0 {
            assert(f == fdl.push(last));
            assert forall|i: int, j: int| 0 <= i < j < f.len() implies f[i].0 != f[j].0 by {
                if j < f.len() - 1 {
                    assert(f[i] == fdl[i] && f[j] == fdl[j]);
                } else {
                    assert(f[j] == last);
                    assert(exists|m: int| 0 <= m < dl.len() && fdl[i] == dl[m]);
                    let m = choose|m: int| 0 <= m < dl.len() && fdl[i] == dl[m];
                    assert(dl[m].0 != last.0);
                }
            }
            assert(f.drop_last() =~= fdl);
            assert(assoc_map(f) =~= Map::new(
                |k: Seq<char>| assoc_map(es).dom().contains(k) && assoc_map(es)[k].len() > 0,
                |k: Seq<char>| assoc_map(es)[k],
            ));
        } else {
            assert(f == fdl);
            assert(assoc_map(f) =~= Map::new(
                |k: Seq<char>| assoc_map(es).dom().contains(k) && assoc_map(es)[k].len() > 0,
                |k: Seq<char>| assoc_map(es)[k],
            ));
        }
    }
}

/// A test the caller supplied could have answered `b` on a channel whose
/// name reads `k` and whose samples read `v`.
pub open spec fn approved<F: Fn(&String, &Vec<String>) -> bool>(
    f: F,
    k: Seq<char>,
    v: Seq<Seq<char>>,
    b: bool,
) -> bool {
    exists|ks: &String, vs: &Vec<String>|
        #![trigger call_ensures(f, (ks, vs), b)]
        ks@ == k && vs.deep_view() == v && call_ensures(f, (ks, vs), b)
}

pub proof fn lemma_approved<F: Fn(&String, &Vec<String>) -> bool>(
    f: F,
    ks: &String,
    vs: &Vec<String>,
    b: bool,
)
    requires
        call_ensures(f, (ks, vs), b),
    ensures
        approved(f, ks@, vs.deep_view(), b),
{
}

/// The parsed dataset: a mapping from channel name to the ordered samples
/// accumulated for it, each sample kept as its numeric text.
pub struct Waveform {
    entries: Vec<(String, Vec<String>)>,
}

impl View for Waveform {
    type V = Map<Seq<char>, Seq<Seq<char>>>;

    closed spec fn view(&self) -> Map<Seq<char>, Seq<Seq<char>>> {
        assoc_map(self.entries_view())
    }
}

impl Default for Waveform {
    fn default() -> (w: Waveform)
        ensures
            w.wf(),
            w@ == Map::<Seq<char>, Seq<Seq<char>>>::empty(),
    {
        Waveform::new()
    }
}

impl Waveform {
    pub closed spec fn entries_view(&self) -> Seq<EntryV> {
        Seq::new(self.entries@.len(), |i: int| (self.entries@[i].0@, self.entries@[i].1.deep_view()))
    }

    /// Internal consistency: no channel name is stored twice.
    pub open spec fn wf(&self) -> bool {
        unique_keys(self.entries_view())
    }

    /// An empty waveform.
    pub fn new() -> (w: Waveform)
        ensures
            w.wf(),
            w@ == Map::<Seq<char>, Seq<Seq<char>>>::empty(),
    {
        let w = Waveform { entries: Vec::new() };
        proof {
            assert(w.entries_view() =~= Seq::<EntryV>::empty());
        }
        w
    }

    /// How many channels the waveform holds.
    pub fn len(&self) -> (n: usize)
        requires
            self.wf(),
        ensures
            self@.dom().finite(),
            n == self@.dom().len(),
            n == self.entries_view().len(),
    {
        proof {
            lemma_assoc_len(self.entries_view());
        }
        self.entries.len()
    }

    /// The position of `key` among the entries, if present.
    fn find_index(&self, key: &str) -> (r: Option<usize>)
        ensures
            match r {
                Some(i) => i < self.entries_view().len() && self.entries_view()[i as int].0
                    == key@,
                None => forall|i: int|
                    0 <= i < self.entries_view().len() ==> self.entries_view()[i].0 != key@,
            },
    {
        let mut i: usize = 0;
        while i < self.entries.len()
            invariant
                0 <= i <= self.entries_view().len(),
                self.entries_view().len() == self.entries@.len(),
                forall|k: int| 0 <= k < i ==> self.entries_view()[k].0 != key@,
            decreases self.entries@.len() - i,
        {
            if str_eq(self.entries[i].0.as_str(), key) {
                return Some(i);
            }
            i = i + 1;
        }
        None
    }

    /// Bind `key` to `value`, replacing any samples it already had.
    pub fn insert(&mut self, key: String, value: Vec<String>)
        requires
            old(self).wf(),
        ensures
            final(self).wf(),
            final(self)@ == old(self)@.insert(key@, value.deep_view()),
    {
        let ghost es = self.entries_view();
        match self.find_index(key.as_str()) {
            Some(i) => {
                proof {
                    lemma_assoc_update(es, i as int, value.deep_view());
                }
                self.entries.remove(i);
                self.entries.insert(i, (key, value));
                proof {
                    assert(self.entries_view() =~= es.update(i as int, (es[i as int].0, value.deep_view())));
                    assert(unique_keys(self.entries_view()));
                }
            },
            None => {
                proof {
                    lemma_assoc_absent(es, key@);
                }
                self.entries.push((key, value));
                proof {
                    assert(self.entries_view() =~= es.push((key@, value.deep_view())));
                    assert(self.entries_view().drop_last() =~= es);
                    assert(unique_keys(self.entries_view()));
                }
            },
        }
    }

    /// The samples of `key`, if that channel exists.
    pub fn get(&self, key: &str) -> (r: Option<&Vec<String>>)
        requires
            self.wf(),
        ensures
            match r {
                Some(v) => self@.dom().contains(key@) && v.deep_view() == self@[key@],
                None => !self@.dom().contains(key@),
            },
    {
        match self.find_index(key) {
            Some(i) => {
                proof {
                    lemma_assoc_found(self.entries_view(), i as int);
                }
                Some(&self.entries[i].1)
            },
            None => {
                proof {
                    lemma_assoc_absent(self.entries_view(), key@);
                }
                None
            },
        }
    }

    /// Append one sample to the channel `key`; reports whether it exists.
    pub fn append_value(&mut self, key: &str, val: String) -> (found: bool)
        requires
            old(self).wf(),
        ensures
            final(self).wf(),
            found == old(self)@.dom().contains(key@),
            found ==> final(self)@ == old(self)@.insert(key@, old(self)@[key@].push(val@)),
            !found ==> final(self)@ == old(self)@,
    {
        let ghost es = self.entries_view();
        match self.find_index(key) {
            Some(i) => {
                proof {
                    lemma_assoc_found(es, i as int);
                    lemma_assoc_update(es, i as int, es[i as int].1.push(val@));
                }
                let mut e = self.entries.remove(i);
                proof {
                    assert(self.entries_view() =~~= es.remove(i as int));
                }
                let ghost mid = self.entries_view();
                e.1.push(val);
                proof {
                    assert(e.1.deep_view() =~= es[i as int].1.push(val@));
                }
                self.entries.insert(i, e);
                proof {
                    assert(self.entries_view() =~~= mid.insert(i as int, (es[i as int].0, es[i as int].1.push(val@))));
                    assert(self.entries_view() =~~= es.update(i as int, (es[i as int].0, es[i as int].1.push(val@))));
                    assert(unique_keys(self.entries_view()));
                }
                true
            },
            None => {
                proof {
                    lemma_assoc_absent(es, key@);
                }
                false
            },
        }
    }

    /// Remove every channel whose sample sequence is empty.
    pub fn drop_empty(&mut self)
        requires
            old(self).wf(),
        ensures
            final(self).wf(),
            final(self)@ == Map::new(
                |k: Seq<char>| old(self)@.dom().contains(k) && old(self)@[k].len() > 0,
                |k: Seq<char>| old(self)@[k],
            ),
    {
        let ghost orig = self.entries_view();
        let mut i: usize = 0;
        let ghost j: int = 0;
        while i < self.entries.len()
            invariant
                unique_keys(orig),
                0 <= i <= self.entries@.len(),
                0 <= j <= orig.len(),
                self.entries_view() =~= nonempty_entries(orig.take(j)) + orig.skip(j),
                i == nonempty_entries(orig.take(j)).len(),
                self.entries_view().len() == self.entries@.len(),
            decreases orig.len() - j,
        {
            proof {
                assert(orig.take(j + 1).drop_last() =~= orig.take(j));
                assert(self.entries_view()[i as int] == orig[j]);
            }
            if self.entries[i].1.len() == 0 {
                let ghost before = self.entries_view();
                self.entries.remove(i);
                proof {
                    assert(self.entries_view() =~~= before.remove(i as int));
                    assert(nonempty_entries(orig.take(j + 1)) == nonempty_entries(orig.take(j)));
                    assert(orig.skip(j).drop_first() =~= orig.skip(j + 1));
                    assert(before.remove(i as int) =~= nonempty_entries(orig.take(j)) + orig.skip(
                        j,
                    ).drop_first());
                    assert(self.entries_view() =~= nonempty_entries(orig.take(j + 1)) + orig.skip(
                        j + 1,
                    ));
                }
            } else {
                i = i + 1;
                proof {
                    assert(nonempty_entries(orig.take(j + 1)) =~= nonempty_entries(
                        orig.take(j),
                    ).push(orig[j]));
                    assert(self.entries_view() =~= nonempty_entries(orig.take(j + 1)) + orig.skip(
                        j + 1,
                    ));
                }
            }
            proof {
                j = j + 1;
            }
        }
        proof {
            assert(orig.skip(j).len() == 0);
            assert(j == orig.len());
            assert(orig.take(j) =~= orig);
            assert(self.entries_view() =~= nonempty_entries(orig));
            lemma_assoc_nonempty(orig);
        }
    }

    /// Keep only the channels the caller's test approves of; every surviving
    /// channel keeps its samples unchanged.
    pub fn retain<F: Fn(&String, &Vec<String>) -> bool>(&mut self, f: F)
        requires
            old(self).wf(),
            forall|k: &String, v: &Vec<String>| #[trigger] call_requires(f, (k, v)),
        ensures
            final(self).wf(),
            forall|k: Seq<char>| #[trigger] final(self)@.dom().contains(k) ==> old(self)@.dom().contains(k)
                && final(self)@[k] == old(self)@[k],
            forall|k: Seq<char>| #[trigger] final(self)@.dom().contains(k) ==> approved(
                f,
                k,
                old(self)@[k],
                true,
            ),
            forall|k: Seq<char>| old(self)@.dom().contains(k) && !(#[trigger] final(self)@.dom().contains(k))
                ==> approved(f, k, old(self)@[k], false),
    {
        let ghost orig = self.entries_view();
        let mut i: usize = 0;
        let ghost j: int = 0;
        while i < self.entries.len()
            invariant
                unique_keys(orig),
                unique_keys(self.entries_view()),
                forall|k: &String, v: &Vec<String>| #[trigger] call_requires(f, (k, v)),
                0 <= i <= self.entries@.len(),
                i <= j <= orig.len(),
                self.entries_view().len() == self.entries@.len(),
                self.entries@.len() - i == orig.len() - j,
                self.entries_view().skip(i as int) =~= orig.skip(j),
                forall|idx: int| 0 <= idx < i ==> exists|oidx: int|
                    0 <= oidx < j && #[trigger] self.entries_view()[idx] == orig[oidx],
                forall|idx: int| 0 <= idx < i ==> approved(
                    f,
                    (#[trigger] self.entries_view()[idx]).0,
                    self.entries_view()[idx].1,
                    true,
                ),
                forall|oidx: int| 0 <= oidx < j ==> (exists|idx: int|
                    0 <= idx < i && self.entries_view()[idx] == #[trigger] orig[oidx]) || approved(
                    f,
                    orig[oidx].0,
                    orig[oidx].1,
                    false,
                ),
            decreases orig.len() - j,
        {
            let ghost before = self.entries_view();
            proof {
                assert(before.skip(i as int)[0] == orig.skip(j)[0]);
                assert(before[i as int] == orig[j]);
            }
            let e0 = &self.entries[i].0;
            let e1 = &self.entries[i].1;
            proof {
                assert(e0@ == before[i as int].0);
                assert(e1.deep_view() == before[i as int].1);
            }
            let keep = f(e0, e1);
            proof {
                lemma_approved(f, e0, e1, keep);
            }
            if keep {
                proof {
                    assert(before.skip(i as int).drop_first() =~= before.skip(i as int + 1));
                    assert(orig.skip(j).drop_first() =~= orig.skip(j + 1));
                }
                i = i + 1;
            } else {
                self.entries.remove(i);
                proof {
                    assert(self.entries_view() =~~= before.remove(i as int));
                    assert(self.entries_view().skip(i as int) =~= before.skip(i as int + 1));
                    assert(before.skip(i as int + 1) =~= orig.skip(j).drop_first());
                    assert(orig.skip(j).drop_first() =~= orig.skip(j + 1));
                    assert(self.entries_view().skip(i as int) =~= orig.skip(j + 1));
                    assert(forall|idx: int|
                        0 <= idx < i ==> self.entries_view()[idx] == before[idx]);
                    assert forall|a: int, b: int|
                        0 <= a < b < self.entries_view().len() implies (
                    #[trigger] self.entries_view()[a]).0 != (#[trigger] self.entries_view()[b]).0
                        by {
                        let bv = before;
                        let a2: int = if a < i { a } else { a + 1 };
                        let b2: int = if b < i { b } else { b + 1 };
                        assert(self.entries_view()[a] == bv[a2]);
                        assert(self.entries_view()[b] == bv[b2]);
                    }
                }
            }
            proof {
                j = j + 1;
            }
        }
        proof {
            let ev = self.entries_view();
            assert(ev.skip(i as int).len() == 0);
            assert(j == orig.len());
            assert forall|k: Seq<char>| #[trigger] assoc_map(ev).dom().contains(k) implies assoc_map(
                orig,
            ).dom().contains(k) && assoc_map(ev)[k] == assoc_map(orig)[k] && approved(
                f,
                k,
                assoc_map(orig)[k],
                true,
            ) by {
                lemma_assoc_dom_index(ev, k);
                let idx = choose|idx: int| 0 <= idx < ev.len() && (#[trigger] ev[idx]).0 == k;
                lemma_assoc_found(ev, idx);
                let oidx = choose|oidx: int| 0 <= oidx < j && #[trigger] ev[idx] == orig[oidx];
                lemma_assoc_found(orig, oidx);
            }
            assert forall|k: Seq<char>|
                assoc_map(orig).dom().contains(k) && !(#[trigger] assoc_map(ev).dom().contains(
                    k,
                )) implies approved(f, k, assoc_map(orig)[k], false) by {
                lemma_assoc_dom_index(orig, k);
                let oidx = choose|oidx: int| 0 <= oidx < orig.len() && (#[trigger] orig[oidx]).0
                    == k;
                lemma_assoc_found(orig, oidx);
                if exists|idx: int| 0 <= idx < i && ev[idx] == #[trigger] orig[oidx] {
                    let idx = choose|idx: int| 0 <= idx < i && ev[idx] == #[trigger] orig[oidx];
                    lemma_assoc_found(ev, idx);
                    assert(false);
                }
            }
        }
    }

    /// The name of the channel stored at position `i`; positions enumerate
    /// the channels, so distinct positions name distinct channels.
    pub fn channel_at(&self, i: usize) -> (r: &String)
        requires
            self.wf(),
            i < self@.dom().len(),
        ensures
            r@ == self.entries_view()[i as int].0,
            self@.dom().contains(r@),
            self@[r@] == self.entries_view()[i as int].1,
    {
        proof {
            lemma_assoc_len(self.entries_view());
            lemma_assoc_found(self.entries_view(), i as int);
        }
        &self.entries[i].0
    }
}

} // verus!
