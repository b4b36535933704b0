//! The record of applied patches, per family, for undoing them.

use vstd::prelude::*;

use crate::patch::PatchFile;

verus! {

/// A moment: whole seconds since the Unix epoch and the nanoseconds past them.
#[derive(Debug, Clone, Copy, PartialEq, Eq, Structural)]
pub struct Timestamp {
    pub seconds: i64,
    pub nanos: u32,
}

/// Relies on chrono's `Utc::now`, `timestamp` and `timestamp_subsec_nanos`: the
/// current time.
#[verifier::external_body]
fn current_time() -> Timestamp {
    let now = chrono::Utc::now();
    Timestamp { seconds: now.timestamp(), nanos: now.timestamp_subsec_nanos() }
}

/// A patch that was applied: when, to which family, and what it wrote.
#[derive(Debug)]
pub struct HistoryEntry {
    pub timestamp: Timestamp,
    pub family: String,
    pub patch: PatchFile,
    pub output_files: Vec<String>,
    pub output_dir: String,
}

/// Applied patches, per family, oldest first. Each family appears once.
#[derive(Debug)]
pub struct HistoryFile {
    pub entries: Vec<(String, Vec<HistoryEntry>)>,
}

/// Position of `family` among the keys of `entries`.
pub open spec fn key_position(entries: Seq<(String, Vec<HistoryEntry>)>, family: Seq<char>) -> Option<
    int,
> {
    if exists|i: int| 0 <= i < entries.len() && entries[i].0@ == family {
        Some(choose|i: int| 0 <= i < entries.len() && entries[i].0@ == family)
    } else {
        None
    }
}

/// The entries recorded for `family`, oldest first.
pub open spec fn entries_of(h: HistoryFile, family: Seq<char>) -> Seq<HistoryEntry> {
    match key_position(h.entries@, family) {
        Some(i) => h.entries@[i].1@,
        None => Seq::empty(),
    }
}

/// The number of entries of all families.
pub open spec fn count_entries(entries: Seq<(String, Vec<HistoryEntry>)>) -> nat
    decreases entries.len(),
{
    if entries.len() == 0 {
        0
    } else {
        count_entries(entries.drop_last()) + entries.last().1@.len()
    }
}

impl HistoryFile {
    /// Each family appears once.
    pub open spec fn wf(&self) -> bool {
        forall|i: int, j: int|
            0 <= i < j < self.entries@.len() ==> self.entries@[i].0@ != self.entries@[j].0@
    }

    /// Whether each family appears once.
    pub fn is_well_formed(&self) -> (r: bool)
        ensures
            r == self.wf(),
    {
        let mut i: usize = 0;
        while i < self.entries.len()
            invariant
                i <= self.entries@.len(),
                forall|a: int, b: int|
                    0 <= a < b < self.entries@.len() && a < i ==> self.entries@[a].0@
                        != self.entries@[b].0@,
            decreases self.entries.len() - i,
        {
            let mut j = i + 1;
            while j < self.entries.len()
                invariant
                    i < j <= self.entries@.len(),
                    forall|b: int| i < b < j ==> self.entries@[i as int].0@ != self.entries@[b].0@,
                decreases self.entries.len() - j,
            {
                if self.entries[i].0 == self.entries[j].0 {
                    return false;
                }
                j += 1;
            }
            i += 1;
        }
        true
    }

    /// An empty history.
    pub fn new() -> (r: HistoryFile)
        ensures
            r.wf(),
            r.entries@.len() == 0,
    {
        HistoryFile { entries: Vec::new() }
    }

    fn position(&self, family: &String) -> (r: Option<usize>)
        ensures
            match r {
                Some(i) => i < self.entries@.len() && self.entries@[i as int].0@ == family@,
                None => key_position(self.entries@, family@) is None,
            },
    {
        let mut i: usize = 0;
        while i < self.entries.len()
            invariant
                i <= self.entries@.len(),
                forall|j: int| 0 <= j < i ==> self.entries@[j].0@ != family@,
            decreases self.entries.len() - i,
        {
            if self.entries[i].0 == *family {
                return Some(i);
            }
            i += 1;
        }
        None
    }

    proof fn lemma_position(&self, family: Seq<char>, i: int)
        requires
            self.wf(),
            0 <= i < self.entries@.len(),
            self.entries@[i].0@ == family,
        ensures
            key_position(self.entries@, family) == Some(i),
    {
        let k = key_position(self.entries@, family)->0;
        assert(self.entries@[k].0@ == family);
        if k != i {
            if k < i {
                assert(self.entries@[k].0@ != self.entries@[i].0@);
            } else {
                assert(self.entries@[i].0@ != self.entries@[k].0@);
            }
        }
    }

    /// Records an entry under its family.
    pub fn add_entry(&mut self, entry: HistoryEntry)
        requires
            old(self).wf(),
        ensures
            final(self).wf(),
            forall|f: Seq<char>|
                #[trigger] entries_of(*final(self), f) == if f == entry.family@ {
                    entries_of(*old(self), f).push(entry)
                } else {
                    entries_of(*old(self), f)
                },
    {
        let ghost before = *self;
        let key = entry.family.clone();
        match self.position(&key) {
            Some(i) => {
                proof {
                    self.lemma_position(key@, i as int);
                }
                let (name, mut list) = self.entries.remove(i);
                list.push(entry);
                self.entries.insert(i, (name, list));
                assert(self.entries@ =~= before.entries@.update(i as int, self.entries@[i as int]));
                assert forall|f: Seq<char>| #[trigger] entries_of(*self, f) == if f == key@ {
                    entries_of(before, f).push(entry)
                } else {
                    entries_of(before, f)
                } by {
                    if f == key@ {
                        self.lemma_position(f, i as int);
                    } else if key_position(before.entries@, f) is Some {
                        let k = key_position(before.entries@, f)->0;
                        before.lemma_position(f, k);
                        self.lemma_position(f, k);
                    } else {
                        assert(key_position(self.entries@, f) is None) by {
                            if exists|j: int| 0 <= j < self.entries@.len() && self.entries@[j].0@ == f {
                                let j = choose|j: int| 0 <= j < self.entries@.len() && self.entries@[j].0@ == f;
                                assert(before.entries@[j].0@ == f);
                            }
                        }
                    }
                }
            },
            None => {
                let mut list: Vec<HistoryEntry> = Vec::new();
                list.push(entry);
                self.entries.push((key, list));
                let ghost n: int = self.entries@.len() - 1;
                assert forall|f: Seq<char>| #[trigger] entries_of(*self, f) == if f == key@ {
                    entries_of(before, f).push(entry)
                } else {
                    entries_of(before, f)
                } by {
                    if f == key@ {
                        assert forall|j: int| 0 <= j < n implies self.entries@[j].0@ != f by {
                            assert(self.entries@[j] == before.entries@[j]);
                        }
                        let k = key_position(self.entries@, f)->0;
                        assert(self.entries@[n].0@ == f);
                        assert(k == n);
                        assert(entries_of(before, f) =~= Seq::<HistoryEntry>::empty());
                        assert(self.entries@[n].1@ =~= Seq::<HistoryEntry>::empty().push(entry));
                    } else if key_position(before.entries@, f) is Some {
                        let k = key_position(before.entries@, f)->0;
                        assert(self.entries@[k] == before.entries@[k]);
                        assert(self.entries@[k].0@ == f);
                        assert forall|a: int, b: int| 0 <= a < b < self.entries@.len() implies self.entries@[a].0@
                            != self.entries@[b].0@ by {
                            if b == n {
                                assert(self.entries@[a] == before.entries@[a]);
                            } else {
                                assert(self.entries@[a] == before.entries@[a]);
                                assert(self.entries@[b] == before.entries@[b]);
                            }
                        }
                        self.lemma_position(f, k);
                    } else {
                        assert(key_position(self.entries@, f) is None) by {
                            if exists|j: int| 0 <= j < self.entries@.len() && self.entries@[j].0@ == f {
                                let j = choose|j: int| 0 <= j < self.entries@.len() && self.entries@[j].0@ == f;
                                if j < n {
                                    assert(before.entries@[j].0@ == f);
                                }
                            }
                        }
                    }
                }
                assert forall|a: int, b: int| 0 <= a < b < self.entries@.len() implies self.entries@[a].0@
                    != self.entries@[b].0@ by {
                    assert(self.entries@[a] == before.entries@[a]);
                    if b < n {
                        assert(self.entries@[b] == before.entries@[b]);
                    }
                }
            },
        }
    }

    /// The entries of `family`, oldest first, when it has a record.
    pub fn get_family_history(&self, family: &str) -> (r: Option<&Vec<HistoryEntry>>)
        requires
            self.wf(),
        ensures
            match r {
                Some(v) => key_position(self.entries@, family@) is Some && v@ == entries_of(*self, family@),
                None => key_position(self.entries@, family@) is None,
            },
    {
        let key = family.to_owned();
        match self.position(&key) {
            Some(i) => {
                proof {
                    self.lemma_position(key@, i as int);
                }
                Some(&self.entries[i].1)
            },
            None => None,
        }
    }

    /// The newest entry of `family`.
    pub fn get_last_entry(&self, family: &str) -> (r: Option<&HistoryEntry>)
        requires
            self.wf(),
        ensures
            match r {
                Some(e) => entries_of(*self, family@).len() > 0 && *e == entries_of(*self, family@).last(),
                None => entries_of(*self, family@).len() == 0,
            },
    {
        match self.get_family_history(family) {
            Some(v) => if v.len() > 0 {
                Some(&v[v.len() - 1])
            } else {
                None
            },
            None => None,
        }
    }

    /// Removes and returns the newest entry of `family`.
    pub fn pop_last_entry(&mut self, family: &str) -> (r: Option<HistoryEntry>)
        requires
            old(self).wf(),
        ensures
            final(self).wf(),
            match r {
                Some(e) => entries_of(*old(self), family@).len() > 0 && e == entries_of(
                    *old(self),
                    family@,
                ).last(),
                None => entries_of(*old(self), family@).len() == 0,
            },
            forall|f: Seq<char>|
                #[trigger] entries_of(*final(self), f) == if f == family@ {
                    entries_of(*old(self), f).take(
                        if entries_of(*old(self), f).len() > 0 {
                            entries_of(*old(self), f).len() - 1
                        } else {
                            0
                        },
                    )
                } else {
                    entries_of(*old(self), f)
                },
    {
        let ghost before = *self;
        let key = family.to_owned();
        match self.position(&key) {
            Some(i) => {
                proof {
                    self.lemma_position(key@, i as int);
                }
                let (name, mut list) = self.entries.remove(i);
                let ghost old_list = list@;
                let r = list.pop();
                self.entries.insert(i, (name, list));
                assert(self.entries@ =~= before.entries@.update(i as int, self.entries@[i as int]));
                assert forall|a: int, b: int| 0 <= a < b < self.entries@.len() implies self.entries@[a].0@
                    != self.entries@[b].0@ by {
                    assert(self.entries@[a].0@ == before.entries@[a].0@);
                    assert(self.entries@[b].0@ == before.entries@[b].0@);
                }
                assert forall|f: Seq<char>| #[trigger] entries_of(*self, f) == if f == family@ {
                    entries_of(before, f).take(
                        if entries_of(before, f).len() > 0 {
                            entries_of(before, f).len() - 1
                        } else {
                            0
                        },
                    )
                } else {
                    entries_of(before, f)
                } by {
                    if f == key@ {
                        self.lemma_position(f, i as int);
                        if old_list.len() > 0 {
                            assert(old_list.take(old_list.len() - 1) =~= old_list.drop_last());
                        } else {
                            assert(old_list.take(0) =~= old_list);
                        }
                    } else if key_position(before.entries@, f) is Some {
                        let k = key_position(before.entries@, f)->0;
                        before.lemma_position(f, k);
                        self.lemma_position(f, k);
                    } else {
                        assert(key_position(self.entries@, f) is None) by {
                            if exists|j: int| 0 <= j < self.entries@.len() && self.entries@[j].0@ == f {
                                let j = choose|j: int| 0 <= j < self.entries@.len() && self.entries@[j].0@ == f;
                                assert(before.entries@[j].0@ == f);
                            }
                        }
                    }
                }
                r
            },
            None => {
                assert forall|f: Seq<char>| #[trigger] entries_of(*self, f) == if f == family@ {
                    entries_of(before, f).take(
                        if entries_of(before, f).len() > 0 {
                            entries_of(before, f).len() - 1
                        } else {
                            0
                        },
                    )
                } else {
                    entries_of(before, f)
                } by {
                    if f == family@ {
                        assert(Seq::<HistoryEntry>::empty().take(0) =~= Seq::<HistoryEntry>::empty());
                    }
                }
                None
            },
        }
    }

    /// The families with a record, in the order they were first recorded.
    pub fn families(&self) -> (r: Vec<&str>)
        ensures
            r@.len() == self.entries@.len(),
            forall|i: int| 0 <= i < r@.len() ==> r@[i]@ == self.entries@[i].0@,
    {
        let mut out: Vec<&str> = Vec::new();
        let mut i: usize = 0;
        while i < self.entries.len()
            invariant
                i <= self.entries@.len(),
                out@.len() == i,
                forall|j: int| 0 <= j < i ==> out@[j]@ == self.entries@[j].0@,
            decreases self.entries.len() - i,
        {
            out.push(self.entries[i].0.as_str());
            i += 1;
        }
        out
    }

    /// The number of entries of all families, or `usize::MAX` when that does not fit.
    pub fn total_entries(&self) -> (r: usize)
        ensures
            r == if count_entries(self.entries@) <= usize::MAX {
                count_entries(self.entries@)
            } else {
                usize::MAX as nat
            },
    {
        let mut total: usize = 0;
        let mut i: usize = 0;
        assert(self.entries@.take(0) =~= Seq::<(String, Vec<HistoryEntry>)>::empty());
        while i < self.entries.len()
            invariant
                i <= self.entries@.len(),
                total == if count_entries(self.entries@.take(i as int)) <= usize::MAX {
                    count_entries(self.entries@.take(i as int))
                } else {
                    usize::MAX as nat
                },
            decreases self.entries.len() - i,
        {
            assert(self.entries@.take(i + 1).drop_last() =~= self.entries@.take(i as int));
            total = total.saturating_add(self.entries[i].1.len());
            i += 1;
        }
        assert(self.entries@.take(i as int) =~= self.entries@);
        total
    }
}

/// The record of applying `patch`, taken now.
pub fn create_history_entry(patch: &PatchFile, output_files: Vec<String>, output_dir: String) -> (r:
    HistoryEntry)
    ensures
        r.family == patch.family,
        r.patch.family == patch.family,
        r.patch.edits@ == patch.edits@,
        r.output_files == output_files,
        r.output_dir == output_dir,
{
    HistoryEntry {
        timestamp: current_time(),
        family: patch.family.clone(),
        patch: patch.clone(),
        output_files,
        output_dir,
    }
}

} // verus!
