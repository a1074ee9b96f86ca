//! The store's state model: a directory is a list of named entries, each
//! carrying the encoded record bytes and a last-modified timestamp in
//! nanoseconds since the Unix epoch. Entry names are unique, so a
//! directory abstracts to a map from file name to entry content.

use vstd::prelude::*;

verus! {

/// Timestamps handled by the store stay within this bound (about 4 * 10^13
/// years away from the epoch, far beyond any wall clock), so that
/// differences of two timestamps never overflow `i128`.
pub const TIMESTAMP_BOUND: i128 = 0x10_0000_0000_0000_0000_0000_0000;

/// A timestamp the store can do arithmetic on without overflow.
pub open spec fn ts_in_range(t: i128) -> bool {
    -TIMESTAMP_BOUND <= t <= TIMESTAMP_BOUND
}

/// One entry of the storage directory: a file.
pub struct DirEntryModel {
    /// The file name, relative to the storage directory.
    pub name: String,
    /// The file's content: the encoded session record.
    pub content: Vec<u8>,
    /// The file's last-modified time, in nanoseconds since the Unix epoch.
    pub modified_nanos: i128,
}

/// What a directory entry abstracts to.
pub ghost struct EntryView {
    pub content: Seq<u8>,
    pub modified: i128,
}

pub open spec fn entry_view(e: DirEntryModel) -> EntryView {
    EntryView { content: e.content@, modified: e.modified_nanos }
}

/// The storage directory: the entries, in no significant order.
pub struct DirectoryModel {
    pub entries: Vec<DirEntryModel>,
}

/// No two entries share a name.
pub open spec fn unique_names(s: Seq<DirEntryModel>) -> bool {
    forall|i: int, j: int|
        0 <= i < s.len() && 0 <= j < s.len() && i != j ==> (#[trigger] s[i]).name@ != (
        #[trigger] s[j]).name@
}

/// Some entry bears this name.
pub open spec fn has_name(s: Seq<DirEntryModel>, n: Seq<char>) -> bool {
    exists|i: int| 0 <= i < s.len() && (#[trigger] s[i]).name@ == n
}

/// The map a list of entries abstracts to; a later entry would shadow an
/// earlier one of the same name, but under `unique_names` that never
/// happens.
pub open spec fn map_of(s: Seq<DirEntryModel>) -> Map<Seq<char>, EntryView>
    decreases s.len(),
{
    if s.len() == 0 {
        Map::empty()
    } else {
        map_of(s.drop_last()).insert(s.last().name@, entry_view(s.last()))
    }
}

impl View for DirectoryModel {
    type V = Map<Seq<char>, EntryView>;

    open spec fn view(&self) -> Map<Seq<char>, EntryView> {
        map_of(self.entries@)
    }
}

impl DirectoryModel {
    /// Entry names are unique and every modification time is a timestamp
    /// the store can subtract from the current time.
    pub open spec fn wf(self) -> bool {
        &&& unique_names(self.entries@)
        &&& forall|i: int|
            0 <= i < self.entries@.len() ==> ts_in_range(
                (#[trigger] self.entries@[i]).modified_nanos,
            )
    }

    /// An empty directory.
    pub fn new() -> (r: DirectoryModel)
        ensures
            r.wf(),
            r@ == Map::<Seq<char>, EntryView>::empty(),
            r.entries@.len() == 0,
    {
        DirectoryModel { entries: Vec::new() }
    }

    /// Finds the entry bearing the given name, if any.
    pub(crate) fn find(&self, name: &String) -> (r: Option<usize>)
        ensures
            r matches Some(i) ==> i < self.entries@.len() && self.entries@[i as int].name@
                == name@,
            r is None ==> !has_name(self.entries@, name@),
    {
        let n = self.entries.len();
        let mut j: usize = 0;
        while j < n
            invariant
                j <= n,
                n == self.entries@.len(),
                forall|k: int| 0 <= k < j ==> (#[trigger] self.entries@[k]).name@ != name@,
            decreases n - j,
        {
            if self.entries[j].name == *name {
                return Some(j);
            }
            j = j + 1;
        }
        None
    }
}

/// Membership and lookup in the abstraction map, in terms of the entry
/// list: a name is in the map exactly when some entry bears it, and with
/// unique names each entry is the value of its own name.
pub proof fn lemma_map_of_properties(s: Seq<DirEntryModel>)
    requires
        unique_names(s),
    ensures
        forall|n: Seq<char>| #[trigger] map_of(s).contains_key(n) <==> has_name(s, n),
        forall|i: int|
            0 <= i < s.len() ==> map_of(s).contains_key((#[trigger] s[i]).name@) && map_of(
                s,
            )[s[i].name@] == entry_view(s[i]),
    decreases s.len(),
{
    if s.len() > 0 {
        let t = s.drop_last();
        assert(unique_names(t)) by {
            assert(forall|i: int| 0 <= i < t.len() ==> t[i] == s[i]);
        }
        lemma_map_of_properties(t);
        assert forall|n: Seq<char>| #[trigger] map_of(s).contains_key(n) implies has_name(s, n) by {
            if n == s.last().name@ {
                assert(s[s.len() - 1].name@ == n);
            } else {
                assert(map_of(t).contains_key(n));
                let i = choose|i: int| 0 <= i < t.len() && (#[trigger] t[i]).name@ == n;
                assert(s[i].name@ == n);
            }
        }
        assert forall|n: Seq<char>| has_name(s, n) implies #[trigger] map_of(s).contains_key(n) by {
            let i = choose|i: int| 0 <= i < s.len() && (#[trigger] s[i]).name@ == n;
            if i == s.len() - 1 {
                assert(n == s.last().name@);
            } else {
                assert(t[i].name@ == n);
                assert(has_name(t, n));
            }
        }
        assert forall|i: int| 0 <= i < s.len() implies map_of(s).contains_key(
            (#[trigger] s[i]).name@,
        ) && map_of(s)[s[i].name@] == entry_view(s[i]) by {
            if i == s.len() - 1 {
                assert(map_of(s)[s.last().name@] == entry_view(s.last()));
            } else {
                assert(t[i] == s[i]);
                assert(s[i].name@ != s.last().name@);
                assert(map_of(s)[s[i].name@] == map_of(t)[t[i].name@]);
            }
        }
    }
}

/// Appending an entry with a fresh name inserts it into the abstraction.
pub proof fn lemma_map_of_push(s: Seq<DirEntryModel>, e: DirEntryModel)
    requires
        unique_names(s),
        !has_name(s, e.name@),
    ensures
        map_of(s.push(e)) == map_of(s).insert(e.name@, entry_view(e)),
        unique_names(s.push(e)),
{
    let t = s.push(e);
    assert(t.drop_last() =~= s);
    assert(t.last() == e);
    assert forall|i: int, j: int|
        0 <= i < t.len() && 0 <= j < t.len() && i != j implies (#[trigger] t[i]).name@ != (
    #[trigger] t[j]).name@ by {
        if i < s.len() && j < s.len() {
            assert(t[i] == s[i] && t[j] == s[j]);
        } else if j == s.len() {
            assert(t[i] == s[i]);
            assert(s[i].name@ != e.name@);
        } else {
            assert(t[j] == s[j]);
            assert(s[j].name@ != e.name@);
        }
    }
}

/// Overwriting the entry at an index, keeping its name, updates the name's
/// value in the abstraction.
pub proof fn lemma_map_of_update(s: Seq<DirEntryModel>, i: int, e: DirEntryModel)
    requires
        unique_names(s),
        0 <= i < s.len(),
        e.name@ == s[i].name@,
    ensures
        map_of(s.update(i, e)) == map_of(s).insert(e.name@, entry_view(e)),
        unique_names(s.update(i, e)),
{
    let t = s.update(i, e);
    assert(forall|k: int| 0 <= k < t.len() ==> (#[trigger] t[k]).name@ == s[k].name@);
    assert forall|a: int, b: int|
        0 <= a < t.len() && 0 <= b < t.len() && a != b implies (#[trigger] t[a]).name@ != (
    #[trigger] t[b]).name@ by {
        assert(t[a].name@ == s[a].name@ && t[b].name@ == s[b].name@);
    }
    lemma_map_of_properties(s);
    lemma_map_of_properties(t);
    let goal = map_of(s).insert(e.name@, entry_view(e));
    assert forall|n: Seq<char>| #[trigger] map_of(t).contains_key(n) implies goal.contains_key(
        n,
    ) by {
        if n != e.name@ {
            let k = choose|k: int| 0 <= k < t.len() && (#[trigger] t[k]).name@ == n;
            assert(s[k].name@ == n);
        }
    }
    assert forall|n: Seq<char>| #[trigger] goal.contains_key(n) implies map_of(t).contains_key(
        n,
    ) by {
        if n == e.name@ {
            assert(t[i].name@ == n);
        } else {
            let k = choose|k: int| 0 <= k < s.len() && (#[trigger] s[k]).name@ == n;
            assert(t[k].name@ == n);
        }
    }
    assert forall|n: Seq<char>| #[trigger] map_of(t).contains_key(n) implies map_of(t)[n] == goal[n] by {
        if n == e.name@ {
            assert(t[i].name@ == n);
            assert(map_of(t)[n] == entry_view(t[i]));
        } else {
            let k = choose|k: int| 0 <= k < t.len() && (#[trigger] t[k]).name@ == n;
            assert(k != i);
            assert(t[k] == s[k]);
            assert(map_of(t)[n] == entry_view(t[k]));
            assert(map_of(s)[n] == entry_view(s[k]));
        }
    }
    assert(map_of(t) =~= goal);
}

/// Removing the entry at an index removes its name from the abstraction.
pub proof fn lemma_map_of_remove(s: Seq<DirEntryModel>, i: int)
    requires
        unique_names(s),
        0 <= i < s.len(),
    ensures
        map_of(s.remove(i)) == map_of(s).remove(s[i].name@),
        unique_names(s.remove(i)),
{
    let t = s.remove(i);
    assert(forall|k: int| 0 <= k < i ==> #[trigger] t[k] == s[k]);
    assert(forall|k: int| i <= k < t.len() ==> #[trigger] t[k] == s[k + 1]);
    assert forall|a: int, b: int|
        0 <= a < t.len() && 0 <= b < t.len() && a != b implies (#[trigger] t[a]).name@ != (
    #[trigger] t[b]).name@ by {
        let a0 = if a < i {
            a
        } else {
            a + 1
        };
        let b0 = if b < i {
            b
        } else {
            b + 1
        };
        assert(t[a] == s[a0] && t[b] == s[b0]);
    }
    lemma_map_of_properties(s);
    lemma_map_of_properties(t);
    let goal = map_of(s).remove(s[i].name@);
    assert forall|n: Seq<char>| #[trigger] map_of(t).contains_key(n) implies goal.contains_key(
        n,
    ) by {
        let k = choose|k: int| 0 <= k < t.len() && (#[trigger] t[k]).name@ == n;
        let k0 = if k < i {
            k
        } else {
            k + 1
        };
        assert(s[k0].name@ == n);
        assert(k0 != i);
        assert(n != s[i].name@);
    }
    assert forall|n: Seq<char>| #[trigger] goal.contains_key(n) implies map_of(t).contains_key(
        n,
    ) by {
        let k = choose|k: int| 0 <= k < s.len() && (#[trigger] s[k]).name@ == n;
        assert(k != i);
        let k1 = if k < i {
            k
        } else {
            k - 1
        };
        assert(t[k1].name@ == n);
    }
    assert forall|n: Seq<char>| #[trigger] map_of(t).contains_key(n) implies map_of(t)[n] == goal[n] by {
        let k = choose|k: int| 0 <= k < t.len() && (#[trigger] t[k]).name@ == n;
        let k0 = if k < i {
            k
        } else {
            k + 1
        };
        assert(t[k] == s[k0]);
        assert(map_of(t)[n] == entry_view(t[k]));
        assert(map_of(s)[n] == entry_view(s[k0]));
        assert(n != s[i].name@);
    }
    assert(map_of(t) =~= goal);
}

} // verus!
