//! The file session store: configuration, error type, session records,
//! and the four record operations over the directory model.
//!
//! Every failure is a single generic backend category carrying a message;
//! absence is not an error for `load` (it returns nothing) nor for
//! `delete` (which is idempotent).

use vstd::prelude::*;
use vstd::string::StringExecFns;

use crate::codec::{codec_inverts, decode_record, encode_record, record_decoding, record_encoding};
use crate::dir_model::{
    has_name, lemma_map_of_properties, lemma_map_of_push, lemma_map_of_remove,
    lemma_map_of_update, ts_in_range, DirEntryModel, DirectoryModel, EntryView,
};
use crate::ids::{id_string_of, render_id};

verus! {

/// A duration with the same shape as the standard library's: whole
/// seconds plus a sub-second nanosecond part below one billion.
#[derive(Clone, Copy, Debug)]
pub struct StoreDuration {
    pub secs: u64,
    pub nanos: u32,
}

impl StoreDuration {
    /// The nanosecond part stays below one second.
    pub open spec fn wf(self) -> bool {
        self.nanos < 1_000_000_000
    }

    /// The whole duration in nanoseconds.
    pub open spec fn as_nanos(self) -> int {
        self.secs * 1_000_000_000 + self.nanos
    }

    pub fn from_secs(secs: u64) -> (r: StoreDuration)
        ensures
            r.wf(),
            r.secs == secs,
            r.nanos == 0,
    {
        StoreDuration { secs, nanos: 0 }
    }

    pub fn new(secs: u64, nanos: u32) -> (r: StoreDuration)
        requires
            nanos < 1_000_000_000,
        ensures
            r.wf(),
            r.secs == secs,
            r.nanos == nanos,
    {
        StoreDuration { secs, nanos }
    }
}

/// The single generic backend-failure category: a human-readable cause.
#[derive(Debug)]
pub struct StoreError {
    pub message: String,
}

/// A session record: identifier, absolute expiry timestamp in nanoseconds
/// since the Unix epoch, and an opaque payload.
#[derive(Debug)]
pub struct SessionRecord {
    pub id: i128,
    pub expiry_nanos: i128,
    pub payload: String,
}

/// What a session record abstracts to.
pub ghost struct RecordView {
    pub id: i128,
    pub expiry_nanos: i128,
    pub payload: Seq<char>,
}

impl View for SessionRecord {
    type V = RecordView;

    open spec fn view(&self) -> RecordView {
        RecordView { id: self.id, expiry_nanos: self.expiry_nanos, payload: self.payload@ }
    }
}

impl SessionRecord {
    /// A record is expired once the current time has passed its expiry
    /// timestamp.
    pub fn is_expired(&self, now_nanos: i128) -> (r: bool)
        ensures
            r == (now_nanos > self.expiry_nanos),
    {
        now_nanos > self.expiry_nanos
    }
}

/// `create` succeeds exactly when no entry bears the record's file name.
pub open spec fn create_ok(m: Map<Seq<char>, EntryView>, r: RecordView) -> bool {
    !m.contains_key(id_string_of(r.id))
}

/// The directory after a successful `create` or `save`: the record's file
/// holds the encoded record and is stamped with the current time.
pub open spec fn write_post(m: Map<Seq<char>, EntryView>, r: RecordView, now: i128) -> Map<
    Seq<char>,
    EntryView,
> {
    m.insert(
        id_string_of(r.id),
        EntryView { content: record_encoding(r.id, r.expiry_nanos, r.payload), modified: now },
    )
}

/// `save` succeeds exactly when the record's file already exists.
pub open spec fn save_ok(m: Map<Seq<char>, EntryView>, r: RecordView) -> bool {
    m.contains_key(id_string_of(r.id))
}

/// The directory after `delete`: the identifier's file is gone, whether or
/// not it was there.
pub open spec fn delete_post(m: Map<Seq<char>, EntryView>, id: i128) -> Map<Seq<char>, EntryView> {
    m.remove(id_string_of(id))
}

/// What `load` yields on a directory: absence, a file that does not
/// decode, or the decoded record.
pub ghost enum LoadOutcome {
    Missing,
    Corrupt,
    Found(RecordView),
}

pub open spec fn load_spec(m: Map<Seq<char>, EntryView>, id: i128) -> LoadOutcome {
    if !m.contains_key(id_string_of(id)) {
        LoadOutcome::Missing
    } else {
        match record_decoding(m[id_string_of(id)].content) {
            Option::None => LoadOutcome::Corrupt,
            Option::Some(t) => LoadOutcome::Found(
                RecordView { id: t.0, expiry_nanos: t.1, payload: t.2 },
            ),
        }
    }
}

/// A file-backed session store: a storage folder and the minimum age a
/// file must reach before a sweep inspects it.
#[derive(Clone, Debug)]
pub struct FileSessionStorage {
    folder_name: String,
    minimum_expiry_date: StoreDuration,
}

impl Default for FileSessionStorage {
    fn default() -> (r: FileSessionStorage)
        ensures
            r.wf(),
            r.folder() == ".sessions"@,
            r.min_age_nanos() == 60_000_000_000,
    {
        FileSessionStorage::new()
    }
}

impl FileSessionStorage {
    pub closed spec fn wf(self) -> bool {
        self.minimum_expiry_date.wf()
    }

    /// The storage folder's path.
    pub closed spec fn folder(self) -> Seq<char> {
        self.folder_name@
    }

    /// The sweep's minimum-age threshold, in nanoseconds.
    pub closed spec fn min_age_nanos(self) -> int {
        self.minimum_expiry_date.as_nanos()
    }

    /// Creates a store over the folder ".sessions".
    pub fn new() -> (r: FileSessionStorage)
        ensures
            r.wf(),
            r.folder() == ".sessions"@,
            r.min_age_nanos() == 60_000_000_000,
    {
        FileSessionStorage::new_in_folder(".sessions".to_owned())
    }

    /// Creates a store with sessions placed in the given folder; the
    /// minimum-age threshold defaults to 60 seconds.
    pub fn new_in_folder(folder: String) -> (r: FileSessionStorage)
        ensures
            r.wf(),
            r.folder() == folder@,
            r.min_age_nanos() == 60_000_000_000,
    {
        FileSessionStorage {
            folder_name: folder,
            minimum_expiry_date: StoreDuration::from_secs(60),
        }
    }

    /// Sets the minimum age a file must reach before a sweep opens it to
    /// check its expiry timestamp.
    pub fn set_minimum_expiry_date(self, duration: StoreDuration) -> (r: FileSessionStorage)
        requires
            duration.wf(),
        ensures
            r.wf(),
            r.folder() == self.folder(),
            r.min_age_nanos() == duration.as_nanos(),
    {
        FileSessionStorage { folder_name: self.folder_name, minimum_expiry_date: duration }
    }

    /// The storage folder.
    pub fn folder_name(&self) -> (r: &String)
        ensures
            r@ == self.folder(),
    {
        &self.folder_name
    }

    /// The sweep's minimum-age threshold.
    pub fn minimum_expiry(&self) -> (r: StoreDuration)
        ensures
            self.wf() ==> r.wf(),
            r.as_nanos() == self.min_age_nanos(),
    {
        self.minimum_expiry_date
    }

    /// The path of the identifier's session file: the folder, a
    /// separator, and the identifier's canonical string form.
    pub fn session_file_path(&self, id: i128) -> (r: String)
        ensures
            r@ == self.folder() + "/"@ + id_string_of(id),
    {
        let name = render_id(id);
        let mut path = self.folder_name.clone();
        path.append("/");
        path.append(name.as_str());
        path
    }

    /// Creates the record's file, failing if it already exists; on
    /// success the file holds the encoded record.
    pub fn create(&self, dir: &mut DirectoryModel, record: &SessionRecord, now_nanos: i128) -> (r:
        Result<(), StoreError>)
        requires
            old(dir).wf(),
            ts_in_range(now_nanos),
        ensures
            final(dir).wf(),
            create_ok(old(dir)@, record@) ==> r is Ok && final(dir)@ == write_post(
                old(dir)@,
                record@,
                now_nanos,
            ) && codec_inverts(record@.id, record@.expiry_nanos, record@.payload),
            !create_ok(old(dir)@, record@) ==> final(dir)@ == old(dir)@ && (r matches Err(e)
                && e.message@ == "Failed to open file"@),
    {
        let name = render_id(record.id);
        proof {
            lemma_map_of_properties(dir.entries@);
        }
        match dir.find(&name) {
            Option::Some(i) => {
                proof {
                    assert(dir.entries@[i as int].name@ == name@);
                    assert(has_name(dir.entries@, name@));
                }
                Err(StoreError { message: "Failed to open file".to_owned() })
            },
            Option::None => {
                let content = encode_record(record.id, record.expiry_nanos, &record.payload);
                let ghost s0 = dir.entries@;
                let entry = DirEntryModel { name, content, modified_nanos: now_nanos };
                proof {
                    lemma_map_of_push(s0, entry);
                }
                dir.entries.push(entry);
                Ok(())
            },
        }
    }

    /// Overwrites the record's existing file in full, failing — not
    /// creating — if it is absent.
    pub fn save(&self, dir: &mut DirectoryModel, record: &SessionRecord, now_nanos: i128) -> (r:
        Result<(), StoreError>)
        requires
            old(dir).wf(),
            ts_in_range(now_nanos),
        ensures
            final(dir).wf(),
            save_ok(old(dir)@, record@) ==> r is Ok && final(dir)@ == write_post(
                old(dir)@,
                record@,
                now_nanos,
            ) && codec_inverts(record@.id, record@.expiry_nanos, record@.payload),
            !save_ok(old(dir)@, record@) ==> final(dir)@ == old(dir)@ && (r matches Err(e)
                && e.message@ == "Failed to open file"@),
    {
        let name = render_id(record.id);
        proof {
            lemma_map_of_properties(dir.entries@);
        }
        match dir.find(&name) {
            Option::None => Err(StoreError { message: "Failed to open file".to_owned() }),
            Option::Some(i) => {
                proof {
                    assert(dir.entries@[i as int].name@ == name@);
                    assert(has_name(dir.entries@, name@));
                }
                let content = encode_record(record.id, record.expiry_nanos, &record.payload);
                let ghost s0 = dir.entries@;
                let entry = DirEntryModel { name, content, modified_nanos: now_nanos };
                proof {
                    lemma_map_of_update(s0, i as int, entry);
                }
                dir.entries[i] = entry;
                Ok(())
            },
        }
    }

    /// Reads and decodes the identifier's file; absence is a normal
    /// outcome, not an error.
    pub fn load(&self, dir: &DirectoryModel, id: i128) -> (r: Result<
        Option<SessionRecord>,
        StoreError,
    >)
        requires
            dir.wf(),
        ensures
            load_spec(dir@, id) is Missing ==> (r matches Ok(o) && o is None),
            load_spec(dir@, id) is Corrupt ==> (r matches Err(e) && e.message@
                == "Failed to serialize/decode"@),
            load_spec(dir@, id) matches LoadOutcome::Found(rv) ==> (r matches Ok(Some(rec))
                && rec@ == rv),
    {
        let name = render_id(id);
        proof {
            lemma_map_of_properties(dir.entries@);
        }
        match dir.find(&name) {
            Option::None => Ok(None),
            Option::Some(i) => {
                proof {
                    assert(dir.entries@[i as int].name@ == name@);
                    assert(has_name(dir.entries@, name@));
                }
                match decode_record(&dir.entries[i].content) {
                    Option::None => Err(
                        StoreError { message: "Failed to serialize/decode".to_owned() },
                    ),
                    Option::Some(t) => Ok(
                        Some(SessionRecord { id: t.0, expiry_nanos: t.1, payload: t.2 }),
                    ),
                }
            },
        }
    }

    /// Removes the identifier's file; a file that is already gone counts
    /// as success.
    pub fn delete(&self, dir: &mut DirectoryModel, id: i128) -> (r: Result<(), StoreError>)
        requires
            old(dir).wf(),
        ensures
            final(dir).wf(),
            r is Ok,
            final(dir)@ == delete_post(old(dir)@, id),
    {
        let name = render_id(id);
        proof {
            lemma_map_of_properties(dir.entries@);
        }
        match dir.find(&name) {
            Option::None => {
                proof {
                    assert(!dir@.contains_key(name@));
                    assert(dir@.remove(name@) =~= dir@);
                }
                Ok(())
            },
            Option::Some(i) => {
                proof {
                    lemma_map_of_remove(dir.entries@, i as int);
                }
                dir.entries.remove(i);
                Ok(())
            },
        }
    }
}

} // verus!
