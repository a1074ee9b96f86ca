//! Laws of the store, stated over the spec-level transitions that the
//! operations' contracts use.

use vstd::prelude::*;

use crate::codec::{codec_inverts, record_decoding, record_encoding};
use crate::dir_model::EntryView;
use crate::ids::parsed_id;
use crate::ids::id_string_of;
use crate::store::{create_ok, delete_post, load_spec, write_post, LoadOutcome, RecordView};
use crate::sweep::{
    clock_offender, decode_offender, has_clock_offender, has_decode_offender, sweep_ok,
    sweep_post,
};

verus! {

/// Round-trip: after a record is written — by `create` into a directory
/// that did not hold it, or by `save` over its existing file (a full
/// overwrite, no merge) — loading its identifier yields exactly that
/// record. The hypothesis is the codec contract the store consumes:
/// decoding inverts encoding on this record's fields; every call of
/// `create` and `save` establishes it for the record written.
pub proof fn lemma_write_then_load(m: Map<Seq<char>, EntryView>, r: RecordView, now: i128)
    requires
        codec_inverts(r.id, r.expiry_nanos, r.payload),
    ensures
        load_spec(write_post(m, r, now), r.id) == LoadOutcome::Found(r),
{
    let name = id_string_of(r.id);
    let m1 = write_post(m, r, now);
    assert(m1.contains_key(name));
    assert(m1[name].content == record_encoding(r.id, r.expiry_nanos, r.payload));
    assert(record_decoding(m1[name].content) == Some((r.id, r.expiry_nanos, r.payload)));
}

/// No duplicate creation: once a record's file exists, a second `create`
/// of the same identifier is refused, and — the failed attempt leaving
/// the directory unchanged — a load still yields the original record.
pub proof fn lemma_no_duplicate_create(m: Map<Seq<char>, EntryView>, r: RecordView, now: i128)
    requires
        create_ok(m, r),
        codec_inverts(r.id, r.expiry_nanos, r.payload),
    ensures
        !create_ok(write_post(m, r, now), r),
        load_spec(write_post(m, r, now), r.id) == LoadOutcome::Found(r),
{
    lemma_write_then_load(m, r, now);
}

/// Idempotent delete: deleting an absent identifier changes nothing (and
/// `delete` always succeeds); after any delete the identifier loads as
/// absent; and deleting twice equals deleting once.
pub proof fn lemma_delete_idempotent(m: Map<Seq<char>, EntryView>, id: i128)
    ensures
        !m.contains_key(id_string_of(id)) ==> delete_post(m, id) == m,
        load_spec(delete_post(m, id), id) is Missing,
        delete_post(delete_post(m, id), id) == delete_post(m, id),
{
    if !m.contains_key(id_string_of(id)) {
        assert(delete_post(m, id) =~= m);
    }
    assert(delete_post(delete_post(m, id), id) =~= delete_post(m, id));
}

/// Sweep threshold behaviour: a session file younger than the minimum
/// age survives a sweep even if its record has already expired; an
/// old-enough session file that decodes is removed exactly when its
/// expiry timestamp lies in the past.
pub proof fn lemma_sweep_threshold(
    m: Map<Seq<char>, EntryView>,
    n: Seq<char>,
    now: i128,
    theta: int,
)
    requires
        m.contains_key(n),
    ensures
        now - m[n].modified < theta ==> sweep_post(m, now, theta).contains_key(n) && sweep_post(
            m,
            now,
            theta,
        )[n] == m[n],
        (parsed_id(n) is Some && m[n].modified <= now && now - m[n].modified >= theta && (
        record_decoding(m[n].content) matches Some(t) && t.1 < now)) ==> !sweep_post(
            m,
            now,
            theta,
        ).contains_key(n),
        (record_decoding(m[n].content) matches Some(t) && t.1 >= now) ==> sweep_post(
            m,
            now,
            theta,
        ).contains_key(n) && sweep_post(m, now, theta)[n] == m[n],
{
}

/// Sweep tolerance of foreign files: an entry whose name does not parse
/// as an identifier is left untouched, and its presence neither causes
/// nor masks a sweep failure.
pub proof fn lemma_sweep_ignores_foreign(
    m: Map<Seq<char>, EntryView>,
    n: Seq<char>,
    v: EntryView,
    now: i128,
    theta: int,
)
    requires
        parsed_id(n) is None,
    ensures
        m.contains_key(n) ==> sweep_post(m, now, theta).contains_key(n) && sweep_post(
            m,
            now,
            theta,
        )[n] == m[n],
        sweep_ok(m.insert(n, v), now, theta) == sweep_ok(m, now, theta),
{
    let mi = m.insert(n, v);
    if has_clock_offender(mi, now) {
        let x = choose|x: Seq<char>| #[trigger] mi.contains_key(x) && clock_offender(
            x,
            mi[x],
            now,
        );
        assert(x != n);
        assert(m.contains_key(x) && clock_offender(x, m[x], now));
    }
    if has_decode_offender(mi, now, theta) {
        let x = choose|x: Seq<char>| #[trigger] mi.contains_key(x) && decode_offender(
            x,
            mi[x],
            now,
            theta,
        );
        assert(x != n);
        assert(m.contains_key(x) && decode_offender(x, m[x], now, theta));
    }
    if has_clock_offender(m, now) {
        let x = choose|x: Seq<char>| #[trigger] m.contains_key(x) && clock_offender(x, m[x], now);
        assert(x != n);
        assert(mi.contains_key(x) && clock_offender(x, mi[x], now));
    }
    if has_decode_offender(m, now, theta) {
        let x = choose|x: Seq<char>| #[trigger] m.contains_key(x) && decode_offender(
            x,
            m[x],
            now,
            theta,
        );
        assert(x != n);
        assert(mi.contains_key(x) && decode_offender(x, mi[x], now, theta));
    }
}

/// Concurrent sweep safety, at the directory level: a second sweep over
/// what a completed sweep left behind succeeds and removes nothing more.
/// Together with `delete`'s idempotence this is why two passes over the
/// same directory tolerate each other's deletions: an entry the other
/// pass already removed is simply absent, which neither errs nor deletes
/// anything twice.
pub proof fn lemma_sweep_idempotent(m: Map<Seq<char>, EntryView>, now: i128, theta: int)
    requires
        sweep_ok(m, now, theta),
    ensures
        sweep_ok(sweep_post(m, now, theta), now, theta),
        sweep_post(sweep_post(m, now, theta), now, theta) == sweep_post(m, now, theta),
{
    let m1 = sweep_post(m, now, theta);
    if has_clock_offender(m1, now) {
        let x = choose|x: Seq<char>| #[trigger] m1.contains_key(x) && clock_offender(
            x,
            m1[x],
            now,
        );
        assert(m.contains_key(x) && clock_offender(x, m[x], now));
    }
    if has_decode_offender(m1, now, theta) {
        let x = choose|x: Seq<char>| #[trigger] m1.contains_key(x) && decode_offender(
            x,
            m1[x],
            now,
            theta,
        );
        assert(m.contains_key(x) && decode_offender(x, m[x], now, theta));
    }
    assert(sweep_post(m1, now, theta) =~= m1);
}

} // verus!
