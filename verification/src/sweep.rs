//! The expiry sweep: one pass over the storage directory that removes
//! records whose expiry timestamp has passed, skipping entries whose
//! names do not parse as identifiers and entries younger than the
//! configured minimum age.

use vstd::prelude::*;

use crate::codec::record_decoding;
use crate::dir_model::{
    entry_view, has_name, lemma_map_of_properties, map_of, ts_in_range, unique_names,
    DirEntryModel, DirectoryModel, EntryView,
};
use crate::ids::{parse_id, parsed_id};
use crate::store::{FileSessionStorage, StoreError};

verus! {

/// A sweep leaves an entry in place when its name is not an identifier,
/// when the file is younger than the minimum age, or when its record has
/// not yet expired.
pub open spec fn entry_survives(name: Seq<char>, v: EntryView, now: i128, theta: int) -> bool {
    ||| parsed_id(name) is None
    ||| now - v.modified < theta
    ||| (record_decoding(v.content) matches Some(t) && t.1 >= now)
}

/// A session file whose modification time lies in the future: computing
/// its age fails, which aborts the sweep.
pub open spec fn clock_offender(name: Seq<char>, v: EntryView, now: i128) -> bool {
    parsed_id(name) is Some && v.modified > now
}

/// A session file old enough to be inspected whose content does not
/// decode: loading it fails, which aborts the sweep.
pub open spec fn decode_offender(name: Seq<char>, v: EntryView, now: i128, theta: int) -> bool {
    &&& parsed_id(name) is Some
    &&& v.modified <= now
    &&& now - v.modified >= theta
    &&& record_decoding(v.content) is None
}

pub open spec fn has_clock_offender(m: Map<Seq<char>, EntryView>, now: i128) -> bool {
    exists|n: Seq<char>| #[trigger] m.contains_key(n) && clock_offender(n, m[n], now)
}

pub open spec fn has_decode_offender(m: Map<Seq<char>, EntryView>, now: i128, theta: int) -> bool {
    exists|n: Seq<char>| #[trigger] m.contains_key(n) && decode_offender(n, m[n], now, theta)
}

/// The sweep completes without error exactly when no entry aborts it.
pub open spec fn sweep_ok(m: Map<Seq<char>, EntryView>, now: i128, theta: int) -> bool {
    !has_clock_offender(m, now) && !has_decode_offender(m, now, theta)
}

/// The directory a completed sweep leaves behind: exactly the surviving
/// entries, unchanged.
pub open spec fn sweep_post(m: Map<Seq<char>, EntryView>, now: i128, theta: int) -> Map<
    Seq<char>,
    EntryView,
> {
    Map::new(
        |n: Seq<char>| m.contains_key(n) && entry_survives(n, m[n], now, theta),
        |n: Seq<char>| m[n],
    )
}

/// The surviving entries of a list, in order.
pub open spec fn kept(s: Seq<DirEntryModel>, now: i128, theta: int) -> Seq<DirEntryModel>
    decreases s.len(),
{
    if s.len() == 0 {
        Seq::empty()
    } else if entry_survives(s[0].name@, entry_view(s[0]), now, theta) {
        seq![s[0]] + kept(s.drop_first(), now, theta)
    } else {
        kept(s.drop_first(), now, theta)
    }
}

/// The entry occurs in the list.
pub open spec fn appears(s: Seq<DirEntryModel>, e: DirEntryModel) -> bool {
    exists|m: int| 0 <= m < s.len() && s[m] == e
}

/// The surviving entries are surviving entries of the original list;
/// every surviving name is kept; and unique names stay unique.
pub proof fn lemma_kept_properties(s: Seq<DirEntryModel>, now: i128, theta: int)
    requires
        unique_names(s),
    ensures
        forall|k: int|
            0 <= k < kept(s, now, theta).len() ==> appears(s, #[trigger] kept(s, now, theta)[k])
                && entry_survives(
                kept(s, now, theta)[k].name@,
                entry_view(kept(s, now, theta)[k]),
                now,
                theta,
            ),
        forall|m: int|
            0 <= m < s.len() && entry_survives(
                (#[trigger] s[m]).name@,
                entry_view(s[m]),
                now,
                theta,
            ) ==> has_name(kept(s, now, theta), s[m].name@),
        unique_names(kept(s, now, theta)),
    decreases s.len(),
{
    if s.len() > 0 {
        let rest = s.drop_first();
        assert(forall|k: int| 0 <= k < rest.len() ==> #[trigger] rest[k] == s[k + 1]);
        assert(unique_names(rest));
        lemma_kept_properties(rest, now, theta);
        let kr = kept(rest, now, theta);
        let ks = kept(s, now, theta);
        assert forall|e: DirEntryModel| #[trigger] appears(rest, e) implies appears(s, e) by {
            let m = choose|m: int| 0 <= m < rest.len() && rest[m] == e;
            assert(s[m + 1] == e);
        }
        if entry_survives(s[0].name@, entry_view(s[0]), now, theta) {
            assert(ks == seq![s[0]] + kr);
            assert(ks[0] == s[0]);
            assert(forall|k: int| 1 <= k < ks.len() ==> #[trigger] ks[k] == kr[k - 1]);
            assert forall|k: int| 0 <= k < ks.len() implies appears(s, #[trigger] ks[k])
                && entry_survives(ks[k].name@, entry_view(ks[k]), now, theta) by {
                if k == 0 {
                    assert(s[0] == ks[0]);
                    assert(appears(s, ks[0]));
                } else {
                    assert(appears(rest, kr[k - 1]));
                }
            }
            assert forall|m: int|
                0 <= m < s.len() && entry_survives(
                    (#[trigger] s[m]).name@,
                    entry_view(s[m]),
                    now,
                    theta,
                ) implies has_name(ks, s[m].name@) by {
                if m == 0 {
                    assert(ks[0].name@ == s[0].name@);
                } else {
                    assert(rest[m - 1] == s[m]);
                    assert(has_name(kr, rest[m - 1].name@));
                    let k = choose|k: int|
                        0 <= k < kr.len() && (#[trigger] kr[k]).name@ == rest[m - 1].name@;
                    assert(ks[k + 1].name@ == s[m].name@);
                }
            }
            assert forall|a: int, b: int|
                0 <= a < ks.len() && 0 <= b < ks.len() && a != b implies (
            #[trigger] ks[a]).name@ != (#[trigger] ks[b]).name@ by {
                if a == 0 || b == 0 {
                    let other = if a == 0 {
                        b
                    } else {
                        a
                    };
                    assert(ks[other] == kr[other - 1]);
                    assert(appears(rest, kr[other - 1]));
                    let m0 = choose|m: int| 0 <= m < rest.len() && rest[m] == kr[other - 1];
                    assert(ks[other] == s[m0 + 1]);
                    assert(s[0].name@ != s[m0 + 1].name@);
                } else {
                    assert(ks[a] == kr[a - 1] && ks[b] == kr[b - 1]);
                }
            }
        } else {
            assert(ks == kr);
            assert forall|k: int| 0 <= k < ks.len() implies appears(s, #[trigger] ks[k])
                && entry_survives(ks[k].name@, entry_view(ks[k]), now, theta) by {
                assert(appears(rest, kr[k]));
            }
            assert forall|m: int|
                0 <= m < s.len() && entry_survives(
                    (#[trigger] s[m]).name@,
                    entry_view(s[m]),
                    now,
                    theta,
                ) implies has_name(ks, s[m].name@) by {
                assert(m != 0);
                assert(rest[m - 1] == s[m]);
                assert(has_name(kr, rest[m - 1].name@));
            }
        }
    }
}

impl FileSessionStorage {
    /// Enumerates the directory and deletes every expired session record.
    ///
    /// Entries whose names do not parse as identifiers are skipped.
    /// Entries younger than the minimum-age threshold are skipped without
    /// being opened. A modification time in the future, or an old-enough
    /// session file that does not decode, aborts the whole pass with a
    /// backend error and the directory is left as it was.
    pub fn delete_expired(&self, dir: &mut DirectoryModel, now_nanos: i128) -> (r: Result<
        (),
        StoreError,
    >)
        requires
            self.wf(),
            old(dir).wf(),
            ts_in_range(now_nanos),
        ensures
            final(dir).wf(),
            r is Ok <==> sweep_ok(old(dir)@, now_nanos, self.min_age_nanos()),
            r is Ok ==> final(dir)@ == sweep_post(old(dir)@, now_nanos, self.min_age_nanos()),
            r is Err ==> final(dir)@ == old(dir)@,
            r matches Err(e) ==> (!has_decode_offender(
                old(dir)@,
                now_nanos,
                self.min_age_nanos(),
            ) ==> e.message@ == "Failed to subtract dates"@) && (!has_clock_offender(
                old(dir)@,
                now_nanos,
            ) ==> e.message@ == "Failed to serialize/decode"@),
    {
        let d = self.minimum_expiry();
        let theta: i128 = d.secs as i128 * 1_000_000_000 + d.nanos as i128;
        assert(theta == self.min_age_nanos());
        let n = dir.entries.len();
        let mut keep: Vec<bool> = Vec::new();
        let mut j: usize = 0;
        while j < n
            invariant
                j <= n,
                n == dir.entries@.len(),
                dir == old(dir),
                dir.wf(),
                ts_in_range(now_nanos),
                theta == self.min_age_nanos(),
                keep@.len() == j,
                forall|k: int|
                    0 <= k < j ==> keep@[k as int] == entry_survives(
                        (#[trigger] dir.entries@[k]).name@,
                        entry_view(dir.entries@[k]),
                        now_nanos,
                        theta as int,
                    ),
                forall|k: int|
                    0 <= k < j ==> !clock_offender(
                        (#[trigger] dir.entries@[k]).name@,
                        entry_view(dir.entries@[k]),
                        now_nanos,
                    ) && !decode_offender(
                        dir.entries@[k].name@,
                        entry_view(dir.entries@[k]),
                        now_nanos,
                        theta as int,
                    ),
            decreases n - j,
        {
            let e = &dir.entries[j];
            match parse_id(e.name.as_str()) {
                Option::None => {
                    keep.push(true);
                },
                Option::Some(_) => {
                    if e.modified_nanos > now_nanos {
                        proof {
                            lemma_map_of_properties(dir.entries@);
                            assert(has_name(dir.entries@, dir.entries@[j as int].name@));
                            assert(dir@.contains_key(dir.entries@[j as int].name@));
                            assert(clock_offender(
                                dir.entries@[j as int].name@,
                                dir@[dir.entries@[j as int].name@],
                                now_nanos,
                            ));
                        }
                        return Err(StoreError { message: "Failed to subtract dates".to_owned() });
                    }
                    let age = now_nanos - e.modified_nanos;
                    if age < theta {
                        keep.push(true);
                    } else {
                        match crate::codec::decode_record(&e.content) {
                            Option::None => {
                                proof {
                                    lemma_map_of_properties(dir.entries@);
                                    assert(has_name(dir.entries@, dir.entries@[j as int].name@));
                                    assert(decode_offender(
                                        dir.entries@[j as int].name@,
                                        dir@[dir.entries@[j as int].name@],
                                        now_nanos,
                                        theta as int,
                                    ));
                                }
                                return Err(
                                    StoreError {
                                        message: "Failed to serialize/decode".to_owned(),
                                    },
                                );
                            },
                            Option::Some(t) => {
                                keep.push(t.1 >= now_nanos);
                            },
                        }
                    }
                },
            }
            j = j + 1;
        }
        proof {
            lemma_map_of_properties(dir.entries@);
            assert forall|nm: Seq<char>| #[trigger] dir@.contains_key(nm) implies !clock_offender(
                nm,
                dir@[nm],
                now_nanos,
            ) && !decode_offender(nm, dir@[nm], now_nanos, theta as int) by {
                let k = choose|k: int|
                    0 <= k < dir.entries@.len() && (#[trigger] dir.entries@[k]).name@ == nm;
                assert(dir@[nm] == entry_view(dir.entries@[k]));
            }
            assert(sweep_ok(dir@, now_nanos, theta as int));
        }
        let ghost s_all = dir.entries@;
        let mut i: usize = n;
        while i > 0
            invariant
                i <= n,
                n == s_all.len(),
                keep@.len() == n,
                unique_names(s_all),
                forall|k: int| 0 <= k < n ==> ts_in_range((#[trigger] s_all[k]).modified_nanos),
                forall|k: int|
                    0 <= k < n ==> keep@[k as int] == entry_survives(
                        (#[trigger] s_all[k]).name@,
                        entry_view(s_all[k]),
                        now_nanos,
                        theta as int,
                    ),
                dir.entries@ == s_all.subrange(0, i as int) + kept(
                    s_all.subrange(i as int, n as int),
                    now_nanos,
                    theta as int,
                ),
            decreases i,
        {
            i = i - 1;
            let ghost cur = dir.entries@;
            let ghost suffix = s_all.subrange(i as int, n as int);
            proof {
                assert(suffix[0] == s_all[i as int]);
                assert(suffix.drop_first() =~= s_all.subrange(i as int + 1, n as int));
            }
            if !keep[i] {
                proof {
                    assert(cur[i as int] == s_all[i as int]);
                    assert(i < cur.len());
                }
                dir.entries.remove(i);
                proof {
                    assert(kept(suffix, now_nanos, theta as int) == kept(
                        suffix.drop_first(),
                        now_nanos,
                        theta as int,
                    ));
                    assert(dir.entries@ =~= s_all.subrange(0, i as int) + kept(
                        suffix,
                        now_nanos,
                        theta as int,
                    ));
                }
            } else {
                proof {
                    assert(kept(suffix, now_nanos, theta as int) == seq![s_all[i as int]] + kept(
                        suffix.drop_first(),
                        now_nanos,
                        theta as int,
                    ));
                    assert(dir.entries@ =~= s_all.subrange(0, i as int) + kept(
                        suffix,
                        now_nanos,
                        theta as int,
                    ));
                }
            }
        }
        proof {
            assert(s_all.subrange(0, n as int) =~= s_all);
            assert(dir.entries@ =~= kept(s_all, now_nanos, theta as int));
            lemma_kept_properties(s_all, now_nanos, theta as int);
            let ks = kept(s_all, now_nanos, theta as int);
            assert forall|k: int| 0 <= k < ks.len() implies ts_in_range(
                (#[trigger] ks[k]).modified_nanos,
            ) by {
                assert(appears(s_all, ks[k]));
                let m0 = choose|m: int| 0 <= m < s_all.len() && s_all[m] == ks[k];
                assert(ts_in_range(s_all[m0].modified_nanos));
            }
            lemma_map_of_properties(s_all);
            lemma_map_of_properties(ks);
            let m0 = map_of(s_all);
            let goal = sweep_post(m0, now_nanos, theta as int);
            assert forall|nm: Seq<char>| #[trigger] map_of(ks).contains_key(nm) implies
                goal.contains_key(nm) && map_of(ks)[nm] == goal[nm] by {
                let k = choose|k: int| 0 <= k < ks.len() && (#[trigger] ks[k]).name@ == nm;
                assert(appears(s_all, ks[k]));
                let m1 = choose|m: int| 0 <= m < s_all.len() && s_all[m] == ks[k];
                assert(m0.contains_key(nm) && m0[nm] == entry_view(s_all[m1]));
                assert(entry_survives(nm, m0[nm], now_nanos, theta as int));
                assert(map_of(ks)[nm] == entry_view(ks[k]));
            }
            assert forall|nm: Seq<char>| #[trigger] goal.contains_key(nm) implies map_of(
                ks,
            ).contains_key(nm) by {
                let k = choose|k: int|
                    0 <= k < s_all.len() && (#[trigger] s_all[k]).name@ == nm;
                assert(m0[nm] == entry_view(s_all[k]));
                assert(entry_survives(s_all[k].name@, entry_view(s_all[k]), now_nanos, theta as int));
                assert(has_name(ks, s_all[k].name@));
            }
            assert(map_of(ks) =~= goal);
        }
        Ok(())
    }
}

} // verus!
