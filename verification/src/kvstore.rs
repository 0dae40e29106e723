//! The log-structured storage engine, modelled in memory.
//!
//! The store keeps a numbered sequence of append-only segments.  Every
//! mutation is appended to the active (last) segment as one encoded
//! record; an in-memory index maps each live key to the location of its
//! most recent `Set` record, and a per-segment stale-byte counter tracks
//! superseded records.  When the stale bytes exceed a threshold the store
//! compacts: it rewrites the live records into a fresh segment and retires
//! the old ones.
//!
//! The segments live in memory as character vectors; the unverified shell
//! mirrors them to numbered files in a database directory by draining the
//! effect queue ([`KvStore::take_effects`]) after each mutation, and hands
//! the file contents back to [`KvStore::open`] when a directory is
//! reopened.
use vstd::prelude::*;

use crate::codec::Req;
use crate::codec::Requests;
use crate::codec::enc_req;
use crate::codec::encode_put_record;
use crate::codec::encode_remove_record;
use crate::decode::ParseOut;
use crate::decode::decode_request_at;
use crate::decode::parse_req;
use crate::decode::lemma_enc_req_unambiguous;
use crate::decode::lemma_parse_req_of_enc;
use crate::error::Error;
use crate::index::KeyIndex;
use crate::index::Location;
use crate::index::lemma_entries_map_covered;
use crate::index::lemma_entries_map_has;

verus! {

/// When the stale bytes across all segments exceed this, a mutation
/// triggers compaction before it returns.
pub const COMPACTION_THRESHOLD: u64 = 1048576;

/// One append-only segment: its numeric id and its contents, together
/// with the ghost sequence of records the contents encode.
pub struct Segment {
    pub id: u64,
    pub data: Vec<char>,
    pub cmds: Ghost<Seq<Req>>,
}

/// A pending instruction to the persistence shell: create an empty
/// segment file, append characters to one, or delete one.
pub enum Effect {
    Create { id: u64 },
    Append { id: u64, data: Vec<char> },
    Delete { id: u64 },
}

// ---------------------------------------------------------------------------
// Specification helpers
// ---------------------------------------------------------------------------
/// The concatenation of the encodings of a record sequence.
pub open spec fn concat_enc(cmds: Seq<Req>) -> Seq<char>
    decreases cmds.len(),
{
    if cmds.len() == 0 {
        Seq::empty()
    } else {
        concat_enc(cmds.drop_last()) + enc_req(cmds.last())
    }
}

/// The offset at which record `j` starts inside the concatenation.
pub open spec fn enc_offset(cmds: Seq<Req>, j: int) -> int {
    concat_enc(cmds.take(j)).len() as int
}

/// Replaying one record against a key-value map.
pub open spec fn apply_cmd(m: Map<Seq<char>, Seq<char>>, c: Req) -> Map<Seq<char>, Seq<char>> {
    match c {
        Req::Put { key, value } => m.insert(key, value),
        Req::Remove { key } => m.remove(key),
        Req::Get { key } => m,
    }
}

/// Replaying a record sequence, oldest first.
pub open spec fn apply_cmds(m: Map<Seq<char>, Seq<char>>, cmds: Seq<Req>) -> Map<
    Seq<char>,
    Seq<char>,
>
    decreases cmds.len(),
{
    if cmds.len() == 0 {
        m
    } else {
        apply_cmd(apply_cmds(m, cmds.drop_last()), cmds.last())
    }
}

/// Replaying the record sequences of all segments in id order.
pub open spec fn apply_seg_cmds(m: Map<Seq<char>, Seq<char>>, ss: Seq<Seq<Req>>) -> Map<
    Seq<char>,
    Seq<char>,
>
    decreases ss.len(),
{
    if ss.len() == 0 {
        m
    } else {
        apply_cmds(apply_seg_cmds(m, ss.drop_last()), ss.last())
    }
}

/// The outcome of the last record in `ops` that touches key `k`:
/// `Some(Some(v))` when it sets the key to `v`, `Some(None)` when it
/// removes the key, `None` when no record touches it.
pub open spec fn last_write(ops: Seq<Req>, k: Seq<char>) -> Option<Option<Seq<char>>>
    decreases ops.len(),
{
    if ops.len() == 0 {
        None
    } else {
        match ops.last() {
            Req::Put { key, value } => if key == k {
                Some(Some(value))
            } else {
                last_write(ops.drop_last(), k)
            },
            Req::Remove { key } => if key == k {
                Some(None)
            } else {
                last_write(ops.drop_last(), k)
            },
            Req::Get { key } => last_write(ops.drop_last(), k),
        }
    }
}

proof fn lemma_last_write_general(m: Map<Seq<char>, Seq<char>>, ops: Seq<Req>, k: Seq<char>)
    ensures
        match last_write(ops, k) {
            Some(Some(v)) => apply_cmds(m, ops).contains_key(k) && apply_cmds(m, ops)[k] == v,
            Some(None) => !apply_cmds(m, ops).contains_key(k),
            None => apply_cmds(m, ops).contains_key(k) == m.contains_key(k) && (m.contains_key(k)
                ==> apply_cmds(m, ops)[k] == m[k]),
        },
    decreases ops.len(),
{
    if ops.len() > 0 {
        lemma_last_write_general(m, ops.drop_last(), k);
    }
}

/// The store answers reads by the last write: after any sequence of
/// mutations replayed onto an empty store, a key maps to `v` exactly when
/// the last record touching it is a `Set` to `v`, and has no mapping when
/// no record touches it or the last one removes it.  With the contracts
/// of `set`, `remove` and `get` (whose view evolves by `apply_cmd`), this
/// pins `get` after every operation sequence; with `open`'s contract and
/// [`lemma_reopen_exact`] it pins `get` after closing and reopening too.
pub proof fn lemma_last_write_wins(ops: Seq<Req>, k: Seq<char>)
    ensures
        match last_write(ops, k) {
            Some(Some(v)) => apply_cmds(Map::empty(), ops).contains_key(k) && apply_cmds(
                Map::empty(),
                ops,
            )[k] == v,
            _ => !apply_cmds(Map::<Seq<char>, Seq<char>>::empty(), ops).contains_key(k),
        },
{
    lemma_last_write_general(Map::empty(), ops, k);
}

/// The record sequences of a segment list.
pub open spec fn seg_cmds(segs: Seq<Segment>) -> Seq<Seq<Req>> {
    segs.map(|i: int, s: Segment| s.cmds@)
}

/// The on-disk shape of a segment list: each segment's id and contents.
pub open spec fn seg_disk_model(segs: Seq<Segment>) -> Seq<(u64, Seq<char>)> {
    segs.map(|i: int, s: Segment| (s.id, s.data@))
}

/// Remove the segment with the given id from a disk shape.
pub open spec fn disk_remove_id(d: Seq<(u64, Seq<char>)>, id: u64) -> Seq<(u64, Seq<char>)>
    decreases d.len(),
{
    if d.len() == 0 {
        Seq::empty()
    } else if d.last().0 == id {
        disk_remove_id(d.drop_last(), id)
    } else {
        disk_remove_id(d.drop_last(), id).push(d.last())
    }
}

/// What one pending effect does to a disk shape.
pub open spec fn apply_effect(d: Seq<(u64, Seq<char>)>, e: Effect) -> Seq<(u64, Seq<char>)> {
    match e {
        Effect::Create { id } => d.push((id, Seq::empty())),
        Effect::Append { id, data } => d.map(
            |i: int, p: (u64, Seq<char>)|
                if p.0 == id {
                    (p.0, p.1 + data@)
                } else {
                    p
                },
        ),
        Effect::Delete { id } => disk_remove_id(d, id),
    }
}

/// What a queue of pending effects does to a disk shape, oldest first.
pub open spec fn apply_effects(d: Seq<(u64, Seq<char>)>, effs: Seq<Effect>) -> Seq<
    (u64, Seq<char>),
>
    decreases effs.len(),
{
    if effs.len() == 0 {
        d
    } else {
        apply_effect(apply_effects(d, effs.drop_last()), effs.last())
    }
}

/// The bytes of live records that the index holds in the given segment.
pub open spec fn live_bytes(entries: Seq<(String, Location)>, id: u64) -> int
    decreases entries.len(),
{
    if entries.len() == 0 {
        0
    } else {
        live_bytes(entries.drop_last(), id) + if entries.last().1.segment == id {
            entries.last().1.length as int
        } else {
            0
        }
    }
}

/// The sum of the per-segment stale counters.
pub open spec fn sum_stale(s: Seq<usize>) -> int
    decreases s.len(),
{
    if s.len() == 0 {
        0
    } else {
        sum_stale(s.drop_last()) + s.last()
    }
}

/// The position of the segment with the given id, or -1.
pub open spec fn seg_pos(segs: Seq<Segment>, id: u64) -> int
    decreases segs.len(),
{
    if segs.len() == 0 {
        -1
    } else if segs.last().id == id {
        segs.len() - 1
    } else {
        seg_pos(segs.drop_last(), id)
    }
}

/// A segment's contents are exactly the concatenated encodings of its
/// records, and none of its records is a wire-only `Get`.
pub open spec fn seg_wf(seg: Segment) -> bool {
    &&& seg.data@ == concat_enc(seg.cmds@)
    &&& forall|j: int| 0 <= j < seg.cmds@.len() ==> !(#[trigger] seg.cmds@[j] is Get)
}

/// An index entry points at a well-formed `Set` record for its key, whose
/// value is the model's value for that key.
pub open spec fn entry_ok(segs: Seq<Segment>, k: Seq<char>, loc: Location, v: Seq<char>) -> bool {
    let si = seg_pos(segs, loc.segment);
    let j = loc.cmd_idx@;
    &&& 0 <= si < segs.len()
    &&& 0 <= j < segs[si].cmds@.len()
    &&& segs[si].cmds@[j] == (Req::Put { key: k, value: v })
    &&& loc.offset as int == enc_offset(segs[si].cmds@, j)
    &&& loc.length as int == enc_req(segs[si].cmds@[j]).len()
}

// ---------------------------------------------------------------------------
// Lemmas about the specification helpers
// ---------------------------------------------------------------------------
pub proof fn lemma_concat_enc_snoc(cmds: Seq<Req>, c: Req)
    ensures
        concat_enc(cmds.push(c)) == concat_enc(cmds) + enc_req(c),
{
    assert(cmds.push(c).drop_last() =~= cmds);
    assert(cmds.push(c).last() == c);
}

pub proof fn lemma_concat_enc_split(cmds: Seq<Req>, m: int)
    requires
        0 <= m <= cmds.len(),
    ensures
        concat_enc(cmds) == concat_enc(cmds.take(m)) + concat_enc(cmds.skip(m)),
    decreases cmds.len(),
{
    if m == cmds.len() {
        assert(cmds.take(m) =~= cmds);
        assert(cmds.skip(m) =~= Seq::<Req>::empty());
        assert(concat_enc(cmds) + concat_enc(cmds.skip(m)) =~= concat_enc(cmds));
    } else {
        let d = cmds.drop_last();
        lemma_concat_enc_split(d, m);
        assert(cmds.take(m) =~= d.take(m));
        assert(cmds.skip(m).drop_last() =~= d.skip(m));
        assert(cmds.skip(m).len() > 0);
        assert(cmds.skip(m).last() == cmds.last());
        assert(concat_enc(cmds.skip(m)) == concat_enc(d.skip(m)) + enc_req(cmds.last()));
        assert(concat_enc(cmds.take(m)) + concat_enc(cmds.skip(m)) =~= (concat_enc(cmds.take(m))
            + concat_enc(d.skip(m))) + enc_req(cmds.last()));
        assert(concat_enc(cmds) == concat_enc(d) + enc_req(cmds.last()));
    }
}

pub proof fn lemma_enc_offset_push(cmds: Seq<Req>, c: Req, j: int)
    requires
        0 <= j <= cmds.len(),
    ensures
        enc_offset(cmds.push(c), j) == enc_offset(cmds, j),
{
    assert(cmds.push(c).take(j) =~= cmds.take(j));
}

/// Where record `j` lies inside the concatenation, and that the slice
/// there is exactly its encoding.
pub proof fn lemma_record_at(cmds: Seq<Req>, j: int)
    requires
        0 <= j < cmds.len(),
    ensures
        0 <= enc_offset(cmds, j),
        enc_offset(cmds, j) + enc_req(cmds[j]).len() <= concat_enc(cmds).len(),
        concat_enc(cmds).subrange(
            enc_offset(cmds, j),
            enc_offset(cmds, j) + enc_req(cmds[j]).len(),
        ) == enc_req(cmds[j]),
{
    lemma_concat_enc_split(cmds, j + 1);
    assert(cmds.take(j + 1) =~= cmds.take(j).push(cmds[j]));
    lemma_concat_enc_snoc(cmds.take(j), cmds[j]);
    let a = concat_enc(cmds.take(j));
    let e = enc_req(cmds[j]);
    let b = concat_enc(cmds.skip(j + 1));
    assert(concat_enc(cmds) =~= a + e + b);
    assert(concat_enc(cmds).subrange(a.len() as int, a.len() + e.len() as int) =~= e);
}

pub proof fn lemma_apply_cmds_snoc(m: Map<Seq<char>, Seq<char>>, cmds: Seq<Req>, c: Req)
    ensures
        apply_cmds(m, cmds.push(c)) == apply_cmd(apply_cmds(m, cmds), c),
{
    assert(cmds.push(c).drop_last() =~= cmds);
    assert(cmds.push(c).last() == c);
}

pub proof fn lemma_apply_segs_snoc(m: Map<Seq<char>, Seq<char>>, ss: Seq<Seq<Req>>, cs: Seq<Req>)
    ensures
        apply_seg_cmds(m, ss.push(cs)) == apply_cmds(apply_seg_cmds(m, ss), cs),
{
    assert(ss.push(cs).drop_last() =~= ss);
    assert(ss.push(cs).last() == cs);
}

/// Appending one record to the last segment replays as applying that
/// record after everything else.
pub proof fn lemma_apply_segs_extend_last(m: Map<Seq<char>, Seq<char>>, ss: Seq<Seq<Req>>, c: Req)
    requires
        ss.len() > 0,
    ensures
        apply_seg_cmds(m, ss.update(ss.len() - 1, ss.last().push(c))) == apply_cmd(
            apply_seg_cmds(m, ss),
            c,
        ),
{
    let ss2 = ss.update(ss.len() - 1, ss.last().push(c));
    assert(ss2.drop_last() =~= ss.drop_last());
    assert(ss2.last() == ss.last().push(c));
    lemma_apply_cmds_snoc(apply_seg_cmds(m, ss.drop_last()), ss.last(), c);
}

pub proof fn lemma_apply_effects_snoc(d: Seq<(u64, Seq<char>)>, effs: Seq<Effect>, e: Effect)
    ensures
        apply_effects(d, effs.push(e)) == apply_effect(apply_effects(d, effs), e),
{
    assert(effs.push(e).drop_last() =~= effs);
    assert(effs.push(e).last() == e);
}

pub proof fn lemma_live_bytes_nonneg(entries: Seq<(String, Location)>, id: u64)
    ensures
        live_bytes(entries, id) >= 0,
    decreases entries.len(),
{
    if entries.len() > 0 {
        lemma_live_bytes_nonneg(entries.drop_last(), id);
    }
}

pub proof fn lemma_live_bytes_push(entries: Seq<(String, Location)>, e: (String, Location), id: u64)
    ensures
        live_bytes(entries.push(e), id) == live_bytes(entries, id) + if e.1.segment == id {
            e.1.length as int
        } else {
            0
        },
{
    assert(entries.push(e).drop_last() =~= entries);
    assert(entries.push(e).last() == e);
}

pub proof fn lemma_live_bytes_update(
    entries: Seq<(String, Location)>,
    i: int,
    e: (String, Location),
    id: u64,
)
    requires
        0 <= i < entries.len(),
    ensures
        live_bytes(entries.update(i, e), id) == live_bytes(entries, id) - (
        if entries[i].1.segment == id {
            entries[i].1.length as int
        } else {
            0
        }) + (if e.1.segment == id {
            e.1.length as int
        } else {
            0
        }),
    decreases entries.len(),
{
    let eu = entries.update(i, e);
    if i == entries.len() - 1 {
        assert(eu.drop_last() =~= entries.drop_last());
        assert(eu.last() == e);
    } else {
        assert(eu.drop_last() =~= entries.drop_last().update(i, e));
        assert(eu.last() == entries.last());
        assert(entries.drop_last()[i] == entries[i]);
        lemma_live_bytes_update(entries.drop_last(), i, e, id);
    }
}

pub proof fn lemma_live_bytes_remove(entries: Seq<(String, Location)>, i: int, id: u64)
    requires
        0 <= i < entries.len(),
    ensures
        live_bytes(entries.remove(i), id) == live_bytes(entries, id) - (
        if entries[i].1.segment == id {
            entries[i].1.length as int
        } else {
            0
        }),
    decreases entries.len(),
{
    let er = entries.remove(i);
    if i == entries.len() - 1 {
        assert(er =~= entries.drop_last());
    } else {
        assert(er.drop_last() =~= entries.drop_last().remove(i));
        assert(er.len() > 0);
        assert(er.last() == entries.last());
        assert(entries.drop_last()[i] == entries[i]);
        lemma_live_bytes_remove(entries.drop_last(), i, id);
    }
}

/// One entry's record length is at most the live bytes of its segment.
pub proof fn lemma_live_bytes_at_least(entries: Seq<(String, Location)>, i: int)
    requires
        0 <= i < entries.len(),
    ensures
        live_bytes(entries, entries[i].1.segment) >= entries[i].1.length as int,
    decreases entries.len(),
{
    if i == entries.len() - 1 {
        lemma_live_bytes_nonneg(entries.drop_last(), entries[i].1.segment);
    } else {
        assert(entries.drop_last()[i] == entries[i]);
        lemma_live_bytes_at_least(entries.drop_last(), i);
    }
}

pub proof fn lemma_sum_stale_prefix(s: Seq<usize>, j: int)
    requires
        0 <= j <= s.len(),
    ensures
        sum_stale(s.take(j)) <= sum_stale(s),
    decreases s.len(),
{
    if j == s.len() {
        assert(s.take(j) =~= s);
    } else {
        let d = s.drop_last();
        assert(s.take(j) =~= d.take(j));
        lemma_sum_stale_prefix(d, j);
    }
}

pub proof fn lemma_sum_stale_update(s: Seq<usize>, i: int, v: usize)
    requires
        0 <= i < s.len(),
    ensures
        sum_stale(s.update(i, v)) == sum_stale(s) - s[i] + v,
    decreases s.len(),
{
    let su = s.update(i, v);
    if i == s.len() - 1 {
        assert(su.drop_last() =~= s.drop_last());
        assert(su.last() == v);
    } else {
        assert(su.drop_last() =~= s.drop_last().update(i, v));
        assert(su.last() == s.last());
        assert(s.drop_last()[i] == s[i]);
        lemma_sum_stale_update(s.drop_last(), i, v);
    }
}

/// `seg_pos` names a real position holding the id, or there is none.
pub proof fn lemma_seg_pos_finds(segs: Seq<Segment>, id: u64)
    ensures
        seg_pos(segs, id) == -1 ==> forall|i: int|
            0 <= i < segs.len() ==> (#[trigger] segs[i]).id != id,
        seg_pos(segs, id) != -1 ==> 0 <= seg_pos(segs, id) < segs.len() && segs[seg_pos(
            segs,
            id,
        )].id == id,
    decreases segs.len(),
{
    if segs.len() > 0 {
        lemma_seg_pos_finds(segs.drop_last(), id);
        if segs.last().id != id {
            assert(forall|i: int|
                0 <= i < segs.len() - 1 ==> segs.drop_last()[i] == #[trigger] segs[i]);
        }
    }
}

/// With distinct ids, `seg_pos` finds exactly the position that holds the
/// id.
pub proof fn lemma_seg_pos_unique(segs: Seq<Segment>, i: int)
    requires
        0 <= i < segs.len(),
        forall|a: int, b: int|
            0 <= a < b < segs.len() ==> (#[trigger] segs[a]).id != (#[trigger] segs[b]).id,
    ensures
        seg_pos(segs, segs[i].id) == i,
    decreases segs.len(),
{
    if i == segs.len() - 1 {
    } else {
        assert(segs.last().id != segs[i].id);
        assert(forall|a: int, b: int|
            0 <= a < b < segs.drop_last().len() ==> (#[trigger] segs.drop_last()[a]).id != (
            #[trigger] segs.drop_last()[b]).id);
        assert(segs.drop_last()[i] == segs[i]);
        lemma_seg_pos_unique(segs.drop_last(), i);
    }
}

/// `seg_pos` depends only on the ids of the segments.
pub proof fn lemma_seg_pos_same_ids(s1: Seq<Segment>, s2: Seq<Segment>, id: u64)
    requires
        s1.len() == s2.len(),
        forall|i: int| 0 <= i < s1.len() ==> (#[trigger] s1[i]).id == (#[trigger] s2[i]).id,
    ensures
        seg_pos(s1, id) == seg_pos(s2, id),
    decreases s1.len(),
{
    if s1.len() > 0 {
        assert(forall|i: int|
            0 <= i < s1.len() - 1 ==> (#[trigger] s1.drop_last()[i]).id == s1[i].id);
        assert(forall|i: int|
            0 <= i < s2.len() - 1 ==> (#[trigger] s2.drop_last()[i]).id == s2[i].id);
        lemma_seg_pos_same_ids(s1.drop_last(), s2.drop_last(), id);
    }
}

/// `data` is exactly the concatenation of the encodings of `cmds`, and no
/// record is a wire-only `Get`: the shape of every segment file this
/// engine writes.
pub open spec fn is_record_seq(data: Seq<char>, cmds: Seq<Req>) -> bool {
    &&& data == concat_enc(cmds)
    &&& forall|j: int| 0 <= j < cmds.len() ==> !(#[trigger] cmds[j] is Get)
}

/// The shape of a list of segment files as plain values.
pub open spec fn files_model(files: Seq<(u64, Vec<char>)>) -> Seq<(u64, Seq<char>)> {
    files.map(|i: int, p: (u64, Vec<char>)| (p.0, p.1@))
}

/// The contents of one file are a well-formed record sequence.
pub open spec fn file_parses(data: Seq<char>) -> bool {
    exists|cmds: Seq<Req>| is_record_seq(data, cmds)
}

/// Every file is a well-formed record sequence: exactly the condition
/// under which reopening a directory succeeds.
pub open spec fn files_parse(files: Seq<(u64, Seq<char>)>) -> bool {
    forall|f: int| 0 <= f < files.len() ==> file_parses((#[trigger] files[f]).1)
}

/// The record sequence a file encodes (unique when it exists).
pub open spec fn file_cmds(data: Seq<char>) -> Seq<Req> {
    choose|cmds: Seq<Req>| is_record_seq(data, cmds)
}

/// The key-value map that replaying a list of segment files produces.
pub open spec fn replay_of(files: Seq<(u64, Seq<char>)>) -> Map<Seq<char>, Seq<char>> {
    apply_seg_cmds(Map::empty(), files.map(|i: int, p: (u64, Seq<char>)| file_cmds(p.1)))
}

/// An encoded record is never empty.
pub proof fn lemma_enc_req_positive(r: Req)
    ensures
        enc_req(r).len() > 0,
{
    match r {
        Req::Put { key, value } => {}
        Req::Get { key } => {}
        Req::Remove { key } => {}
    }
}

/// The head record of a nonempty concatenation.
pub proof fn lemma_concat_enc_head(cmds: Seq<Req>)
    requires
        cmds.len() > 0,
    ensures
        concat_enc(cmds) == enc_req(cmds[0]) + concat_enc(cmds.drop_first()),
{
    lemma_concat_enc_split(cmds, 1);
    let t1 = cmds.take(1);
    assert(t1.drop_last() =~= Seq::<Req>::empty());
    assert(t1.last() == cmds[0]);
    assert(concat_enc(t1) == concat_enc(Seq::<Req>::empty()) + enc_req(cmds[0]));
    assert(Seq::<char>::empty() + enc_req(cmds[0]) =~= enc_req(cmds[0]));
    assert(cmds.skip(1) =~= cmds.drop_first());
}

/// A record sequence whose concatenation is a prefix of another's is an
/// initial segment of the other sequence.
#[verifier::rlimit(100)]
pub proof fn lemma_record_seq_prefix(cs: Seq<Req>, ds: Seq<Req>, z: Seq<char>)
    requires
        concat_enc(cs) == concat_enc(ds) + z,
    ensures
        ds.len() <= cs.len(),
        ds == cs.take(ds.len() as int),
    decreases ds.len(),
{
    if ds.len() == 0 {
        assert(cs.take(0) =~= Seq::<Req>::empty());
        assert(ds =~= cs.take(0));
    } else {
        lemma_concat_enc_head(ds);
        lemma_enc_req_positive(ds[0]);
        if cs.len() == 0 {
            assert(concat_enc(cs).len() == 0);
            assert(concat_enc(ds).len() >= enc_req(ds[0]).len());
            assert(false);
        }
        lemma_concat_enc_head(cs);
        let w = concat_enc(cs);
        assert(enc_req(cs[0]) + concat_enc(cs.drop_first()) =~= enc_req(ds[0]) + (concat_enc(
            ds.drop_first(),
        ) + z));
        lemma_enc_req_unambiguous(
            cs[0],
            concat_enc(cs.drop_first()),
            ds[0],
            concat_enc(ds.drop_first()) + z,
        );
        assert(cs[0] == ds[0]);
        assert(enc_req(cs[0]).len() == enc_req(ds[0]).len());
        lemma_record_seq_prefix(cs.drop_first(), ds.drop_first(), z);
        assert(ds =~= cs.take(ds.len() as int)) by {
            assert(ds.drop_first() == cs.drop_first().take(ds.len() - 1));
            assert forall|j: int| 0 <= j < ds.len() implies ds[j] == cs[j] by {
                if j > 0 {
                    assert(ds.drop_first()[j - 1] == ds[j]);
                    assert(cs.drop_first().take(ds.len() - 1)[j - 1] == cs[j]);
                }
            }
        }
    }
}

/// A character sequence encodes at most one record sequence.
pub proof fn lemma_record_seq_unique(data: Seq<char>, c1: Seq<Req>, c2: Seq<Req>)
    requires
        is_record_seq(data, c1),
        is_record_seq(data, c2),
    ensures
        c1 == c2,
{
    assert(concat_enc(c1) =~= concat_enc(c2) + Seq::<char>::empty());
    assert(concat_enc(c2) =~= concat_enc(c1) + Seq::<char>::empty());
    lemma_record_seq_prefix(c1, c2, Seq::empty());
    lemma_record_seq_prefix(c2, c1, Seq::empty());
    assert(c1.take(c1.len() as int) =~= c1);
    assert(c2 =~= c1);
}

/// In the middle of a well-formed file, the parser finds exactly the next
/// record, which lies there as its exact encoding.
pub proof fn lemma_parse_mid(data: Seq<char>, cs: Seq<Req>, done: Seq<Req>, pos: int)
    requires
        data == concat_enc(cs),
        0 <= pos < data.len(),
        data.take(pos) == concat_enc(done),
    ensures
        done.len() < cs.len(),
        done == cs.take(done.len() as int),
        parse_req(data.skip(pos)) == ParseOut::Found(
            cs[done.len() as int],
            enc_req(cs[done.len() as int]).len() as int,
        ),
        pos + enc_req(cs[done.len() as int]).len() <= data.len(),
        data.subrange(pos, pos + enc_req(cs[done.len() as int]).len()) == enc_req(
            cs[done.len() as int],
        ),
{
    assert(data =~= data.take(pos) + data.skip(pos));
    lemma_record_seq_prefix(cs, done, data.skip(pos));
    let k = done.len() as int;
    lemma_concat_enc_split(cs, k);
    assert(concat_enc(cs.take(k)) == concat_enc(done));
    assert(concat_enc(cs.skip(k)) =~= data.skip(pos));
    if k == cs.len() {
        assert(cs.skip(k) =~= Seq::<Req>::empty());
        assert(data.skip(pos).len() == 0);
        assert(false);
    }
    lemma_concat_enc_head(cs.skip(k));
    assert(cs.skip(k)[0] == cs[k]);
    lemma_parse_req_of_enc(cs[k], concat_enc(cs.skip(k).drop_first()));
    assert(data.skip(pos) =~= enc_req(cs[k]) + concat_enc(cs.skip(k).drop_first()));
    assert(pos == enc_offset(cs, k));
    lemma_record_at(cs, k);
}

/// A segment that no entry points into has no live bytes.
pub proof fn lemma_live_bytes_absent(entries: Seq<(String, Location)>, id: u64)
    requires
        forall|j: int| 0 <= j < entries.len() ==> (#[trigger] entries[j].1).segment != id,
    ensures
        live_bytes(entries, id) == 0,
    decreases entries.len(),
{
    if entries.len() > 0 {
        assert(forall|j: int|
            0 <= j < entries.len() - 1 ==> #[trigger] entries.drop_last()[j] == entries[j]);
        lemma_live_bytes_absent(entries.drop_last(), id);
    }
}

/// Deleting an id that no disk entry carries changes nothing.
pub proof fn lemma_disk_remove_none(d: Seq<(u64, Seq<char>)>, id: u64)
    requires
        forall|q: int| 0 <= q < d.len() ==> (#[trigger] d[q]).0 != id,
    ensures
        disk_remove_id(d, id) == d,
    decreases d.len(),
{
    if d.len() > 0 {
        assert(forall|q: int| 0 <= q < d.len() - 1 ==> #[trigger] d.drop_last()[q] == d[q]);
        lemma_disk_remove_none(d.drop_last(), id);
        assert(disk_remove_id(d, id) =~= d);
    }
}

/// Deleting an id that exactly one disk entry carries removes exactly that
/// entry.
pub proof fn lemma_disk_remove_one(d: Seq<(u64, Seq<char>)>, p: int, id: u64)
    requires
        0 <= p < d.len(),
        d[p].0 == id,
        forall|q: int| 0 <= q < d.len() && q != p ==> (#[trigger] d[q]).0 != id,
    ensures
        disk_remove_id(d, id) == d.remove(p),
    decreases d.len(),
{
    if p == d.len() - 1 {
        assert(d.last().0 == id);
        assert(forall|q: int| 0 <= q < d.len() - 1 ==> #[trigger] d.drop_last()[q] == d[q]);
        lemma_disk_remove_none(d.drop_last(), id);
        assert(d.remove(p) =~= d.drop_last());
    } else {
        assert(d.last().0 != id);
        assert(forall|q: int| 0 <= q < d.len() - 1 ==> #[trigger] d.drop_last()[q] == d[q]);
        lemma_disk_remove_one(d.drop_last(), p, id);
        assert(disk_remove_id(d, id) == d.drop_last().remove(p).push(d.last()));
        assert(d.drop_last().remove(p).push(d.last()) =~= d.remove(p));
    }
}

/// The sum of the stale counters is never negative.
pub proof fn lemma_sum_stale_nonneg(s: Seq<usize>)
    ensures
        sum_stale(s) >= 0,
    decreases s.len(),
{
    if s.len() > 0 {
        lemma_sum_stale_nonneg(s.drop_last());
    }
}

/// The direct outcome of a `set` when no compaction follows it: the
/// encoded `Set` record is appended to the active segment, the index
/// points the key at exactly that record, no other entry moves, and the
/// superseded record's length — if the key was already present, and
/// whatever value it held — is added to its segment's stale counter.
pub open spec fn put_appended(pre: KvStore, post: KvStore, key: Seq<char>, value: Seq<char>) -> bool {
    let rec = enc_req(Req::Put { key, value });
    let n = pre.segments@.len();
    let active = pre.segments@[n - 1];
    &&& post.segments@.len() == n
    &&& forall|i: int| 0 <= i < n ==> (#[trigger] post.segments@[i]).id == pre.segments@[i].id
    &&& forall|i: int|
        0 <= i < n - 1 ==> (#[trigger] post.segments@[i]).data@ == pre.segments@[i].data@
    &&& post.segments@[n - 1].data@ == active.data@ + rec
    &&& post.index@.contains_key(key)
    &&& post.index@[key].segment == active.id
    &&& post.index@[key].offset as int == active.data@.len()
    &&& post.index@[key].length as int == rec.len()
    &&& forall|k: Seq<char>|
        k != key ==> (#[trigger] post.index@.contains_key(k)) == pre.index@.contains_key(k)
    &&& forall|k: Seq<char>|
        k != key && pre.index@.contains_key(k) ==> (#[trigger] post.index@[k]) == pre.index@[k]
    &&& if pre.index@.contains_key(key) {
        let prior = pre.index@[key];
        let pj = seg_pos(pre.segments@, prior.segment);
        post.stale@ == pre.stale@.update(pj, (pre.stale@[pj] + prior.length) as usize)
    } else {
        post.stale@ == pre.stale@
    }
}

/// The direct outcome of a `remove` of a live key when no compaction
/// follows it: the encoded `Remove` tombstone is appended to the active
/// segment, the key leaves the index, no other entry moves, and the stale
/// counters gain both the tombstone's length (on the active segment) and
/// the superseded record's length (on its own segment).
pub open spec fn remove_appended(pre: KvStore, post: KvStore, key: Seq<char>) -> bool {
    let rec = enc_req(Req::Remove { key });
    let n = pre.segments@.len();
    let active = pre.segments@[n - 1];
    let prior = pre.index@[key];
    let pj = seg_pos(pre.segments@, prior.segment);
    let booked = pre.stale@.update(n - 1, (pre.stale@[n - 1] + rec.len()) as usize);
    &&& pre.index@.contains_key(key)
    &&& post.segments@.len() == n
    &&& forall|i: int| 0 <= i < n ==> (#[trigger] post.segments@[i]).id == pre.segments@[i].id
    &&& forall|i: int|
        0 <= i < n - 1 ==> (#[trigger] post.segments@[i]).data@ == pre.segments@[i].data@
    &&& post.segments@[n - 1].data@ == active.data@ + rec
    &&& !post.index@.contains_key(key)
    &&& forall|k: Seq<char>|
        k != key ==> (#[trigger] post.index@.contains_key(k)) == pre.index@.contains_key(k)
    &&& forall|k: Seq<char>|
        k != key && pre.index@.contains_key(k) ==> (#[trigger] post.index@[k]) == pre.index@[k]
    &&& post.stale@ == booked.update(pj, (booked[pj] + prior.length) as usize)
}

/// The total size of all segments.
pub open spec fn total_data_bytes(segs: Seq<Segment>) -> int
    decreases segs.len(),
{
    if segs.len() == 0 {
        0
    } else {
        total_data_bytes(segs.drop_last()) + segs.last().data@.len()
    }
}

/// The total bytes of live records across all segments.
pub open spec fn total_live_bytes(entries: Seq<(String, Location)>, segs: Seq<Segment>) -> int
    decreases segs.len(),
{
    if segs.len() == 0 {
        0
    } else {
        total_live_bytes(entries, segs.drop_last()) + live_bytes(entries, segs.last().id)
    }
}

proof fn lemma_stale_live_account(segs: Seq<Segment>, stale: Seq<usize>, entries: Seq<(String, Location)>)
    requires
        stale.len() == segs.len(),
        forall|i: int|
            0 <= i < segs.len() ==> (#[trigger] stale[i]) + live_bytes(entries, segs[i].id)
                == segs[i].data@.len(),
    ensures
        sum_stale(stale) + total_live_bytes(entries, segs) == total_data_bytes(segs),
    decreases segs.len(),
{
    if segs.len() > 0 {
        assert(forall|i: int|
            0 <= i < segs.len() - 1 ==> #[trigger] segs.drop_last()[i] == segs[i]);
        assert(forall|i: int|
            0 <= i < stale.len() - 1 ==> #[trigger] stale.drop_last()[i] == stale[i]);
        lemma_stale_live_account(segs.drop_last(), stale.drop_last(), entries);
        assert(stale[segs.len() - 1] + live_bytes(entries, segs.last().id) == segs.last().data@.len());
    }
}

/// Disk usage is accounted exactly: the directory's total size equals the
/// live bytes plus the stale bytes.  Every mutation leaves the stale
/// bytes at most [`COMPACTION_THRESHOLD`] (compaction runs before the
/// mutation returns otherwise), so total disk usage converges to within
/// the threshold of the live data, however long the history.
pub proof fn lemma_disk_usage_accounted(s: KvStore)
    requires
        s.wf(),
    ensures
        total_data_bytes(s.segments@) == total_live_bytes(s.index.entries@, s.segments@)
            + s.spec_total_stale(),
{
    lemma_stale_live_account(s.segments@, s.stale@, s.index.entries@);
}

/// Each stale counter is at most the sum of all of them.
pub proof fn lemma_sum_stale_at_least(s: Seq<usize>, i: int)
    requires
        0 <= i < s.len(),
    ensures
        sum_stale(s) >= s[i],
    decreases s.len(),
{
    if i == s.len() - 1 {
        lemma_sum_stale_nonneg(s.drop_last());
    } else {
        assert(s.drop_last()[i] == s[i]);
        lemma_sum_stale_at_least(s.drop_last(), i);
    }
}

/// When no stale bytes remain — as right after compaction — every byte of
/// every segment belongs to a live record of the index.
pub proof fn lemma_no_stale_means_all_live(s: KvStore)
    requires
        s.wf(),
        s.spec_total_stale() == 0,
    ensures
        forall|i: int|
            0 <= i < s.segments@.len() ==> live_bytes(
                s.index.entries@,
                (#[trigger] s.segments@[i]).id,
            ) == s.segments@[i].data@.len(),
{
    assert forall|i: int| 0 <= i < s.segments@.len() implies live_bytes(
        s.index.entries@,
        (#[trigger] s.segments@[i]).id,
    ) == s.segments@[i].data@.len() by {
        lemma_sum_stale_at_least(s.stale@, i);
        assert(s.stale@[i] == 0);
    }
}

/// Reopening a directory reproduces the store exactly: for a store whose
/// pending effects have all been flushed to disk, the on-disk files parse,
/// and replaying them yields exactly the store's key-value contents (and
/// so, with [`KvStore::open`]'s contract, an equal key set with equal
/// values).
pub proof fn lemma_reopen_exact(t: KvStore)
    requires
        t.wf(),
        t.effects@.len() == 0,
    ensures
        files_parse(t.disk@),
        replay_of(t.disk@) == t@,
{
    assert(t.effects@ =~= Seq::<Effect>::empty());
    assert(apply_effects(t.disk@, t.effects@) == t.disk@);
    assert(t.disk@ == seg_disk_model(t.segments@));
    let d = t.disk@;
    assert forall|g: int| 0 <= g < d.len() implies file_parses((#[trigger] d[g]).1) by {
        assert(seg_wf(t.segments@[g]));
        assert(d[g] == (t.segments@[g].id, t.segments@[g].data@));
        assert(is_record_seq(d[g].1, t.segments@[g].cmds@));
        assert(file_parses(d[g].1));
    }
    assert(files_parse(d));
    let mcs = d.map(|i: int, p: (u64, Seq<char>)| file_cmds(p.1));
    assert forall|g: int| 0 <= g < d.len() implies #[trigger] mcs[g] == seg_cmds(t.segments@)[g] by {
        assert(seg_wf(t.segments@[g]));
        assert(is_record_seq(d[g].1, t.segments@[g].cmds@));
        assert(file_parses(d[g].1));
        assert(is_record_seq(d[g].1, file_cmds(d[g].1)));
        lemma_record_seq_unique(d[g].1, file_cmds(d[g].1), t.segments@[g].cmds@);
    }
    assert(mcs =~= seg_cmds(t.segments@));
    assert(replay_of(d) == t@);
}

// ---------------------------------------------------------------------------
// Executable helpers
// ---------------------------------------------------------------------------
/// Append a copy of `src` to `dst`.
fn append_chars(dst: &mut Vec<char>, src: &Vec<char>)
    ensures
        final(dst)@ == old(dst)@ + src@,
{
    let n = src.len();
    let mut i: usize = 0;
    while i < n
        invariant
            n == src@.len(),
            i <= n,
            dst@ == old(dst)@ + src@.take(i as int),
        decreases n - i,
    {
        dst.push(src[i]);
        proof {
            assert(src@.take(i + 1 as int) =~= src@.take(i as int).push(src@[i as int]));
            assert(dst@ =~= old(dst)@ + src@.take(i + 1 as int));
        }
        i = i + 1;
    }
    proof {
        assert(src@.take(n as int) =~= src@);
    }
}

/// Copy the characters `[start, start + len)` out of `src`.
fn copy_range(src: &Vec<char>, start: usize, len: usize) -> (r: Vec<char>)
    requires
        start + len <= src@.len(),
    ensures
        r@ == src@.subrange(start as int, start + len),
{
    let mut out: Vec<char> = Vec::new();
    let mut i: usize = 0;
    while i < len
        invariant
            start + len <= src@.len(),
            src@.len() == src.len(),
            i <= len,
            out@ == src@.subrange(start as int, start + i),
        decreases len - i,
    {
        out.push(src[start + i]);
        proof {
            assert(src@.subrange(start as int, start + i + 1) =~= src@.subrange(
                start as int,
                start + i,
            ).push(src@[start + i]));
        }
        i = i + 1;
    }
    out
}

/// Compare `rec` with the characters of `data` at `[pos, pos + used)`.
fn chars_eq_range(rec: &Vec<char>, data: &Vec<char>, pos: usize, used: usize) -> (r: bool)
    requires
        pos + used <= data@.len(),
    ensures
        r == (rec@ == data@.subrange(pos as int, pos + used)),
{
    if rec.len() != used {
        proof {
            assert(data@.subrange(pos as int, pos + used).len() == used);
        }
        return false;
    }
    let mut i: usize = 0;
    while i < used
        invariant
            used == rec@.len(),
            pos + used <= data@.len(),
            data@.len() == data.len(),
            i <= used,
            forall|t: int| 0 <= t < i ==> rec@[t] == data@[pos + t],
        decreases used - i,
    {
        if rec[i] != data[pos + i] {
            proof {
                assert(data@.subrange(pos as int, pos + used)[i as int] == data@[pos + i]);
            }
            return false;
        }
        i = i + 1;
    }
    proof {
        assert(rec@ =~= data@.subrange(pos as int, pos + used));
    }
    true
}

/// Find the position of the segment with the given id.
fn find_seg(segments: &Vec<Segment>, id: u64) -> (r: Option<usize>)
    ensures
        match r {
            Some(p) => p < segments@.len() && p as int == seg_pos(segments@, id),
            None => seg_pos(segments@, id) == -1,
        },
{
    let mut j = segments.len();
    proof {
        assert(segments@.take(segments@.len() as int) =~= segments@);
    }
    while j > 0
        invariant
            j <= segments@.len(),
            seg_pos(segments@, id) == seg_pos(segments@.take(j as int), id),
        decreases j,
    {
        if segments[j - 1].id == id {
            proof {
                let t = segments@.take(j as int);
                assert(t.last() == segments@[j - 1]);
                assert(seg_pos(t, id) == j - 1);
            }
            return Some(j - 1);
        }
        proof {
            let t = segments@.take(j as int);
            assert(t.last() == segments@[j - 1]);
            assert(t.drop_last() =~= segments@.take(j - 1));
        }
        j = j - 1;
    }
    proof {
        assert(segments@.take(0) =~= Seq::<Segment>::empty());
    }
    None
}

// ---------------------------------------------------------------------------
// The store
// ---------------------------------------------------------------------------
/// The storage engine: segments, key index, stale counters, the ghost
/// key-value model, and the queue of effects the persistence shell has
/// not yet applied to the real directory (whose ghost shape is `disk`).
pub struct KvStore {
    pub segments: Vec<Segment>,
    pub stale: Vec<usize>,
    pub index: KeyIndex,
    pub model: Ghost<Map<Seq<char>, Seq<char>>>,
    pub disk: Ghost<Seq<(u64, Seq<char>)>>,
    pub effects: Vec<Effect>,
}

impl View for KvStore {
    type V = Map<Seq<char>, Seq<char>>;

    open spec fn view(&self) -> Map<Seq<char>, Seq<char>> {
        self.model@
    }
}

impl KvStore {
    /// The invariants of the in-memory state: segment ids strictly
    /// increase, each segment encodes its ghost records, the index is an
    /// exact map whose entries point at live `Set` records, replaying all
    /// segments yields the model, and per segment, stale bytes plus live
    /// bytes account for the whole contents.
    pub open spec fn core_wf(self) -> bool {
        &&& self.stale@.len() == self.segments@.len()
        &&& forall|a: int, b: int|
            0 <= a < b < self.segments@.len() ==> (#[trigger] self.segments@[a]).id < (
            #[trigger] self.segments@[b]).id
        &&& forall|i: int| 0 <= i < self.segments@.len() ==> seg_wf(#[trigger] self.segments@[i])
        &&& self.index.wf()
        &&& self.index@.dom() == self.model@.dom()
        &&& forall|k: Seq<char>|
            #[trigger] self.index@.contains_key(k) ==> entry_ok(
                self.segments@,
                k,
                self.index@[k],
                self.model@[k],
            )
        &&& apply_seg_cmds(Map::empty(), seg_cmds(self.segments@)) == self.model@
        &&& forall|i: int|
            0 <= i < self.segments@.len() ==> (#[trigger] self.stale@[i]) + live_bytes(
                self.index.entries@,
                self.segments@[i].id,
            ) == self.segments@[i].data@.len()
    }

    /// The full invariant: the in-memory state is well formed, at least
    /// one segment (the active one) exists, and applying the pending
    /// effects to the on-disk shape yields the in-memory segments.
    pub open spec fn wf(self) -> bool {
        &&& self.core_wf()
        &&& self.segments@.len() >= 1
        &&& apply_effects(self.disk@, self.effects@) == seg_disk_model(self.segments@)
    }

    /// The sum of the stale-byte counters.
    pub open spec fn spec_total_stale(self) -> int {
        sum_stale(self.stale@)
    }

    /// A fresh store with a single empty active segment, as opening an
    /// empty directory creates it.
    pub fn new() -> (s: KvStore)
        ensures
            s.wf(),
            s@ == Map::<Seq<char>, Seq<char>>::empty(),
            s.disk@ == Seq::<(u64, Seq<char>)>::empty(),
            s.spec_total_stale() == 0,
            s.segments@.len() == 1,
            s.segments@[0].id == 0,
            s.segments@[0].data@ == Seq::<char>::empty(),
            s.effects@ == seq![Effect::Create { id: 0u64 }],
    {
        let mut segments: Vec<Segment> = Vec::new();
        segments.push(Segment { id: 0, data: Vec::new(), cmds: Ghost(Seq::empty()) });
        let mut stale: Vec<usize> = Vec::new();
        stale.push(0);
        let mut effects: Vec<Effect> = Vec::new();
        effects.push(Effect::Create { id: 0 });
        let s = KvStore {
            segments,
            stale,
            index: KeyIndex::new(),
            model: Ghost(Map::empty()),
            disk: Ghost(Seq::empty()),
            effects,
        };
        proof {
            assert(s.segments@.len() == 1);
            assert(s.segments@[0].cmds@.len() == 0);
            assert(seg_wf(s.segments@[0]));
            assert(seg_cmds(s.segments@).len() == 1);
            assert(seg_cmds(s.segments@)[0] == s.segments@[0].cmds@);
            assert(seg_cmds(s.segments@).drop_last() =~= Seq::<Seq<Req>>::empty());
            assert(apply_seg_cmds(Map::empty(), Seq::<Seq<Req>>::empty()) == Map::<
                Seq<char>,
                Seq<char>,
            >::empty());
            assert(apply_cmds(Map::<Seq<char>, Seq<char>>::empty(), s.segments@[0].cmds@)
                == Map::<Seq<char>, Seq<char>>::empty());
            assert(seg_cmds(s.segments@).last() == s.segments@[0].cmds@);
            assert(apply_seg_cmds(Map::empty(), seg_cmds(s.segments@)) =~= Map::<
                Seq<char>,
                Seq<char>,
            >::empty());
            assert(s.index@.dom() =~= s.model@.dom());
            assert(live_bytes(s.index.entries@, 0) == 0);
            assert(s.effects@.drop_last() =~= Seq::<Effect>::empty());
            assert(apply_effects(s.disk@, Seq::<Effect>::empty()) == s.disk@);
            assert(s.effects@.last() == (Effect::Create { id: 0u64 }));
            assert(apply_effect(s.disk@, Effect::Create { id: 0u64 }) == s.disk@.push((
                0u64,
                Seq::<char>::empty(),
            )));
            assert(apply_effects(s.disk@, s.effects@) =~= seg_disk_model(s.segments@));
            assert(s.effects@ =~= seq![Effect::Create { id: 0u64 }]);
            assert(s.stale@.drop_last() =~= Seq::<usize>::empty());
            assert(sum_stale(Seq::<usize>::empty()) == 0);
            assert(s.stale@.last() == 0);
            assert(sum_stale(s.stale@) == 0);
        }
        s
    }

    /// Open a store from the contents of a database directory: the
    /// segment files, as pairs of id and contents, in ascending id order.
    /// An empty directory yields a fresh store.  Replaying the files in
    /// order rebuilds the index; the call fails with
    /// [`Error::Corruption`] exactly when some file is not a well-formed
    /// record sequence (a record does not decode, a wire-only `Get` was
    /// persisted, a file ends mid-record, or a record is not in the
    /// canonical encoding this engine writes).
    pub fn open(files: Vec<(u64, Vec<char>)>) -> (r: Result<KvStore, Error>)
        requires
            forall|a: int, b: int|
                0 <= a < b < files@.len() ==> (#[trigger] files@[a]).0 < (#[trigger] files@[b]).0,
        ensures
            match r {
                Ok(s) => {
                    &&& s.wf()
                    &&& files_parse(files_model(files@))
                    &&& s@ == replay_of(files_model(files@))
                    &&& s.disk@ == files_model(files@)
                    &&& files@.len() == 0 ==> s.segments@.len() == 1 && s.segments@[0].id == 0
                    &&& files@.len() > 0 ==> s.segments@.len() == files@.len() && (forall|i: int|
                        0 <= i < files@.len() ==> (#[trigger] s.segments@[i]).id == files@[i].0)
                },
                Err(e) => !files_parse(files_model(files@)) && e is Corruption,
            },
    {
        let ghost fm = files_model(files@);
        let n = files.len();
        if n == 0 {
            let s = KvStore::new();
            proof {
                assert(fm =~= Seq::<(u64, Seq<char>)>::empty());
                assert(fm.map(|i: int, p: (u64, Seq<char>)| file_cmds(p.1)) =~= Seq::<
                    Seq<Req>,
                >::empty());
                assert(replay_of(fm) == Map::<Seq<char>, Seq<char>>::empty());
                assert(s.disk@ =~= fm);
            }
            return Ok(s);
        }
        let mut store = KvStore {
            segments: Vec::new(),
            stale: Vec::new(),
            index: KeyIndex::new(),
            model: Ghost(Map::empty()),
            disk: Ghost(fm),
            effects: Vec::new(),
        };
        proof {
            assert(seg_cmds(store.segments@) =~= Seq::<Seq<Req>>::empty());
            assert(apply_seg_cmds(Map::empty(), Seq::<Seq<Req>>::empty()) == Map::<
                Seq<char>,
                Seq<char>,
            >::empty());
            assert(store.index@.dom() =~= store.model@.dom());
            assert(store.core_wf());
        }
        let mut f: usize = 0;
        while f < n
            invariant
                n == files@.len(),
                forall|a: int, b: int|
                    0 <= a < b < files@.len() ==> (#[trigger] files@[a]).0 < (
                    #[trigger] files@[b]).0,
                fm == files_model(files@),
                f <= n,
                store.core_wf(),
                store.effects@.len() == 0,
                store.disk@ == fm,
                store.segments@.len() == f,
                forall|g: int| 0 <= g < f ==> (#[trigger] store.segments@[g]).id == files@[g].0,
                forall|g: int|
                    0 <= g < f ==> (#[trigger] store.segments@[g]).data@ == files@[g].1@,
            decreases n - f,
        {
            let id = files[f].0;
            let ghost pre = store;
            store.segments.push(Segment { id, data: Vec::new(), cmds: Ghost(Seq::empty()) });
            store.stale.push(0);
            proof {
                assert(forall|g: int| 0 <= g < f ==> (#[trigger] pre.segments@[g]).id < id);
                assert(store.segments@.drop_last() =~= pre.segments@);
                assert(forall|g: int|
                    0 <= g < f ==> #[trigger] store.segments@[g] == pre.segments@[g]);
                assert(concat_enc(Seq::<Req>::empty()) =~= Seq::<char>::empty());
                assert(seg_wf(store.segments@.last()));
                assert forall|k: Seq<char>| #[trigger] store.index@.contains_key(k) implies entry_ok(
                    store.segments@,
                    k,
                    store.index@[k],
                    store.model@[k],
                ) by {
                    let l = store.index@[k];
                    assert(entry_ok(pre.segments@, k, l, pre.model@[k]));
                    let si = seg_pos(pre.segments@, l.segment);
                    lemma_seg_pos_finds(pre.segments@, l.segment);
                    assert(pre.segments@[si].id == l.segment);
                    assert(l.segment < id);
                    assert(store.segments@.last().id != l.segment);
                    assert(seg_pos(store.segments@, l.segment) == seg_pos(
                        pre.segments@,
                        l.segment,
                    ));
                }
                assert(seg_cmds(store.segments@) =~= seg_cmds(pre.segments@).push(
                    Seq::<Req>::empty(),
                ));
                lemma_apply_segs_snoc(Map::empty(), seg_cmds(pre.segments@), Seq::<Req>::empty());
                assert(apply_cmds(pre.model@, Seq::<Req>::empty()) == pre.model@);
                assert forall|j: int| 0 <= j < store.index.entries@.len() implies (
                #[trigger] store.index.entries@[j].1).segment != id by {
                    lemma_entries_map_has(store.index.entries@, j);
                    let l = store.index.entries@[j].1;
                    assert(entry_ok(pre.segments@, store.index.entries@[j].0@, l, pre.model@[
                        store.index.entries@[j].0@
                    ]));
                    let si = seg_pos(pre.segments@, l.segment);
                    lemma_seg_pos_finds(pre.segments@, l.segment);
                    assert(pre.segments@[si].id == l.segment);
                    assert(l.segment < id);
                }
                lemma_live_bytes_absent(store.index.entries@, id);
                assert(store.core_wf());
            }
            let flen = files[f].1.len();
            let ghost dataview = files@[f as int].1@;
            let mut pos: usize = 0;
            let ghost mut done: Seq<Req> = Seq::empty();
            proof {
                assert(dataview.take(0) =~= Seq::<char>::empty());
                assert(concat_enc(done) =~= Seq::<char>::empty());
            }
            while pos < flen
                invariant
                    n == files@.len(),
                    f < n,
                    fm == files_model(files@),
                    dataview == files@[f as int].1@,
                    flen == dataview.len(),
                    pos <= flen,
                    store.core_wf(),
                    store.segments@.len() == f + 1,
                    store.effects@.len() == 0,
                    store.disk@ == fm,
                    forall|g: int| 0 <= g < f ==> (#[trigger] store.segments@[g]).id == files@[g].0,
                    forall|g: int|
                        0 <= g < f ==> (#[trigger] store.segments@[g]).data@ == files@[g].1@,
                    store.segments@.last().id == files@[f as int].0,
                    store.segments@.last().data@ == dataview.take(pos as int),
                    store.segments@.last().cmds@ == done,
                    dataview.take(pos as int) == concat_enc(done),
                decreases flen - pos,
            {
                let ghost old_done = done;
                match decode_request_at(&files[f].1, pos) {
                    crate::decode::Decoded::Incomplete => {
                        proof {
                            assert forall|cs: Seq<Req>| !is_record_seq(dataview, cs) by {
                                if is_record_seq(dataview, cs) {
                                    lemma_parse_mid(dataview, cs, done, pos as int);
                                    assert(false);
                                }
                            }
                            if files_parse(fm) {
                                assert(fm[f as int].1 == dataview);
                                assert(file_parses(dataview));
                                let cs = choose|cs: Seq<Req>| is_record_seq(dataview, cs);
                                assert(false);
                            }
                        }
                        return Err(Error::Corruption);
                    }
                    crate::decode::Decoded::Invalid => {
                        proof {
                            assert forall|cs: Seq<Req>| !is_record_seq(dataview, cs) by {
                                if is_record_seq(dataview, cs) {
                                    lemma_parse_mid(dataview, cs, done, pos as int);
                                    assert(false);
                                }
                            }
                            if files_parse(fm) {
                                assert(fm[f as int].1 == dataview);
                                assert(file_parses(dataview));
                                let cs = choose|cs: Seq<Req>| is_record_seq(dataview, cs);
                                assert(false);
                            }
                        }
                        return Err(Error::Corruption);
                    }
                    crate::decode::Decoded::Done { value, used } => {
                        match value {
                            Requests::Get { key } => {
                                proof {
                                    assert forall|cs: Seq<Req>| !is_record_seq(dataview, cs) by {
                                        if is_record_seq(dataview, cs) {
                                            lemma_parse_mid(dataview, cs, done, pos as int);
                                            assert(cs[done.len() as int] is Get);
                                            assert(false);
                                        }
                                    }
                                    if files_parse(fm) {
                                        assert(fm[f as int].1 == dataview);
                                        assert(file_parses(dataview));
                                        let cs = choose|cs: Seq<Req>| is_record_seq(dataview, cs);
                                        assert(false);
                                    }
                                }
                                return Err(Error::Corruption);
                            }
                            Requests::Put { key, value: v } => {
                                let rec = encode_put_record(key.as_str(), v.as_str());
                                let ghost pcmd = Req::Put { key: key@, value: v@ };
                                if !chars_eq_range(&rec, &files[f].1, pos, used) {
                                    proof {
                                        assert forall|cs: Seq<Req>| !is_record_seq(dataview, cs) by {
                                            if is_record_seq(dataview, cs) {
                                                lemma_parse_mid(dataview, cs, done, pos as int);
                                                assert(cs[done.len() as int] == pcmd);
                                                assert(rec@ == dataview.subrange(
                                                    pos as int,
                                                    pos + used,
                                                ));
                                                assert(false);
                                            }
                                        }
                                        if files_parse(fm) {
                                            assert(fm[f as int].1 == dataview);
                                            assert(file_parses(dataview));
                                            let cs = choose|cs: Seq<Req>| is_record_seq(
                                                dataview,
                                                cs,
                                            );
                                            assert(false);
                                        }
                                    }
                                    return Err(Error::Corruption);
                                }
                                proof {
                                    assert(rec@ == dataview.subrange(pos as int, pos + used));
                                }
                                store.do_put(key, v, rec);
                                proof {
                                    done = done.push(pcmd);
                                    lemma_concat_enc_snoc(old_done, pcmd);
                                    assert(dataview.take(pos + used) =~= dataview.take(pos as int)
                                        + dataview.subrange(pos as int, pos + used));
                                    assert(store.segments@.last().data@ == dataview.take(
                                        pos + used,
                                    ));
                                }
                                pos = pos + used;
                            }
                            Requests::Remove { key } => {
                                let rec = encode_remove_record(key.as_str());
                                let ghost pcmd = Req::Remove { key: key@ };
                                if !chars_eq_range(&rec, &files[f].1, pos, used) {
                                    proof {
                                        assert forall|cs: Seq<Req>| !is_record_seq(dataview, cs) by {
                                            if is_record_seq(dataview, cs) {
                                                lemma_parse_mid(dataview, cs, done, pos as int);
                                                assert(cs[done.len() as int] == pcmd);
                                                assert(rec@ == dataview.subrange(
                                                    pos as int,
                                                    pos + used,
                                                ));
                                                assert(false);
                                            }
                                        }
                                        if files_parse(fm) {
                                            assert(fm[f as int].1 == dataview);
                                            assert(file_parses(dataview));
                                            let cs = choose|cs: Seq<Req>| is_record_seq(
                                                dataview,
                                                cs,
                                            );
                                            assert(false);
                                        }
                                    }
                                    return Err(Error::Corruption);
                                }
                                proof {
                                    assert(rec@ == dataview.subrange(pos as int, pos + used));
                                }
                                store.do_remove(&key, rec);
                                proof {
                                    done = done.push(pcmd);
                                    lemma_concat_enc_snoc(old_done, pcmd);
                                    assert(dataview.take(pos + used) =~= dataview.take(pos as int)
                                        + dataview.subrange(pos as int, pos + used));
                                    assert(store.segments@.last().data@ == dataview.take(
                                        pos + used,
                                    ));
                                }
                                pos = pos + used;
                            }
                        }
                    }
                }
            }
            proof {
                assert(dataview.take(flen as int) =~= dataview);
            }
            f = f + 1;
        }
        proof {
            assert(seg_disk_model(store.segments@) =~= fm);
            assert(store.effects@ =~= Seq::<Effect>::empty());
            assert(apply_effects(store.disk@, store.effects@) == store.disk@);
            assert(store.wf());
            assert forall|g: int| 0 <= g < fm.len() implies file_parses(
                (#[trigger] fm[g]).1,
            ) by {
                assert(0 <= g < store.segments@.len());
                assert(seg_wf(store.segments@[g]));
                assert(fm[g] == (files@[g].0, files@[g].1@));
                assert(fm[g].1 == store.segments@[g].data@);
                let w = store.segments@[g].cmds@;
                assert(store.segments@[g].data@ == concat_enc(w));
                assert(forall|j: int| 0 <= j < w.len() ==> !(#[trigger] w[j] is Get));
                assert(is_record_seq(fm[g].1, w));
                assert(file_parses(fm[g].1));
            }
            assert(files_parse(fm));
            let mcs = fm.map(|i: int, p: (u64, Seq<char>)| file_cmds(p.1));
            assert forall|g: int| 0 <= g < fm.len() implies #[trigger] mcs[g] == seg_cmds(
                store.segments@,
            )[g] by {
                assert(seg_wf(store.segments@[g]));
                assert(is_record_seq(fm[g].1, store.segments@[g].cmds@));
                assert(is_record_seq(fm[g].1, file_cmds(fm[g].1)));
                lemma_record_seq_unique(fm[g].1, file_cmds(fm[g].1), store.segments@[g].cmds@);
            }
            assert(mcs =~= seg_cmds(store.segments@));
            assert(replay_of(fm) == store.model@);
        }
        Ok(store)
    }

    /// Append an encoded `Set` record for `key` to the active segment and
    /// point the index at it; book the superseded record, if any, as
    /// stale.  Shared by `set` and by replay.
    fn do_put(&mut self, key: String, value: String, rec: Vec<char>)
        requires
            old(self).core_wf(),
            old(self).segments@.len() >= 1,
            rec@ == enc_req(Req::Put { key: key@, value: value@ }),
        ensures
            final(self).core_wf(),
            final(self).segments@.len() == old(self).segments@.len(),
            final(self).model@ == old(self).model@.insert(key@, value@),
            forall|i: int|
                0 <= i < old(self).segments@.len() ==> (#[trigger] final(self).segments@[i]).id
                    == old(self).segments@[i].id,
            forall|i: int|
                0 <= i < old(self).segments@.len() - 1 ==> #[trigger] final(self).segments@[i]
                    == old(self).segments@[i],
            final(self).segments@.last().data@ == old(self).segments@.last().data@ + rec@,
            final(self).segments@.last().cmds@ == old(self).segments@.last().cmds@.push(
                Req::Put { key: key@, value: value@ },
            ),
            final(self).effects@ == old(self).effects@,
            final(self).disk@ == old(self).disk@,
            put_appended(*old(self), *final(self), key@, value@),
    {
        let ghost kview = key@;
        let ghost vview = value@;
        let ghost gkey = key;
        let ghost pcmd = Req::Put { key: key@, value: value@ };
        let ghost old0 = *self;

        let mut seg = self.segments.pop().unwrap();
        let ghost oldseg = seg;
        let off = seg.data.len();
        append_chars(&mut seg.data, &rec);
        proof {
            assert(seg.cmds@ == oldseg.cmds@);
        }
        seg.cmds = Ghost(seg.cmds@.push(pcmd));
        let seg_id = seg.id;
        let ghost jnew = oldseg.cmds@.len() as int;
        self.segments.push(seg);
        proof {
            assert(self.segments@ =~= old0.segments@.update(
                old0.segments@.len() - 1,
                self.segments@.last(),
            ));
            lemma_concat_enc_snoc(oldseg.cmds@, pcmd);
            assert(seg_wf(self.segments@.last()));
        }
        let loc = Location { segment: seg_id, offset: off, length: rec.len(), cmd_idx: Ghost(jnew) };
        let prev = self.index.insert(key, loc);
        let ghost mid = *self;
        match prev {
            Some(p) => {
                proof {
                    // the previous record's segment is still present
                    assert(old0.index@.contains_key(kview));
                    assert(entry_ok(old0.segments@, kview, p, old0.model@[kview]));
                    lemma_seg_pos_same_ids(old0.segments@, self.segments@, p.segment);
                }
                match find_seg(&self.segments, p.segment) {
                    Some(pj) => {
                        let t = self.stale[pj];
                        proof {
                            // stale + length of the superseded record still
                            // fits in the segment's size
                            let i = choose|i: int|
                                0 <= i < old0.index.entries@.len() && #[trigger] old0.index.entries@[i].0@
                                    == kview && old0.index.entries@[i].1 == p
                                    && mid.index.entries@ == old0.index.entries@.update(
                                    i,
                                    (gkey, loc),
                                );
                            lemma_live_bytes_at_least(old0.index.entries@, i);
                            let si = seg_pos(old0.segments@, p.segment);
                            lemma_seg_pos_finds(old0.segments@, p.segment);
                            assert(0 <= si < old0.segments@.len());
                            assert(old0.segments@[si].id == p.segment);
                            assert(pj as int == si);
                            assert(old0.stale@[si] + live_bytes(
                                old0.index.entries@,
                                old0.segments@[si].id,
                            ) == old0.segments@[si].data@.len());
                            assert(self.stale@ == old0.stale@);
                            assert(live_bytes(old0.index.entries@, p.segment) >= p.length as int);
                            if si == old0.segments@.len() - 1 {
                                assert(self.segments@[si].data@.len() == old0.segments@[si].data@.len()
                                    + rec@.len());
                            } else {
                                assert(self.segments@[si] == old0.segments@[si]);
                            }
                            assert(t + p.length <= self.segments@[si].data@.len());
                            assert(self.segments@[si].data.len() == self.segments@[si].data@.len());
                        }
                        self.stale[pj] = t + p.length;
                    }
                    None => {
                        proof {
                            lemma_seg_pos_finds(self.segments@, p.segment);
                            let si = seg_pos(old0.segments@, p.segment);
                            assert(false);
                        }
                    }
                }
            }
            None => {}
        }
        self.model = Ghost(self.model@.insert(kview, vview));
        proof {
            let newv = *self;
            let n = old0.segments@.len();
            // sorted ids and segment well-formedness
            assert(forall|i: int|
                0 <= i < n ==> (#[trigger] newv.segments@[i]).id == old0.segments@[i].id);
            assert(forall|i: int|
                0 <= i < n - 1 ==> #[trigger] newv.segments@[i] == old0.segments@[i]);
            assert(forall|i: int| 0 <= i < n ==> seg_wf(#[trigger] newv.segments@[i]));
            // the new entry is valid
            assert(newv.index@ == old0.index@.insert(kview, loc));
            assert(newv.model@ == old0.model@.insert(kview, vview));
            assert(newv.index@.dom() =~= newv.model@.dom());
            lemma_seg_pos_unique(newv.segments@, n - 1);
            assert(seg_pos(newv.segments@, seg_id) == n - 1);
            lemma_enc_offset_push(oldseg.cmds@, pcmd, jnew);
            assert(oldseg.cmds@.take(jnew) =~= oldseg.cmds@);
            assert(entry_ok(newv.segments@, kview, loc, vview));
            // other entries stay valid
            assert forall|k: Seq<char>| #[trigger] newv.index@.contains_key(k) && k != kview
                implies entry_ok(newv.segments@, k, newv.index@[k], newv.model@[k]) by {
                let l = newv.index@[k];
                assert(old0.index@.contains_key(k));
                assert(l == old0.index@[k]);
                assert(entry_ok(old0.segments@, k, l, old0.model@[k]));
                lemma_seg_pos_same_ids(old0.segments@, newv.segments@, l.segment);
                let si = seg_pos(old0.segments@, l.segment);
                if si == n - 1 {
                    let oc = oldseg.cmds@;
                    assert(newv.segments@[si].cmds@ == oc.push(pcmd));
                    assert(newv.segments@[si].cmds@[l.cmd_idx@] == oc[l.cmd_idx@]);
                    lemma_enc_offset_push(oc, pcmd, l.cmd_idx@);
                } else {
                    assert(newv.segments@[si] == old0.segments@[si]);
                }
            }
            // replay equals the model
            assert(seg_cmds(newv.segments@) =~= seg_cmds(old0.segments@).update(
                n - 1,
                seg_cmds(old0.segments@).last().push(pcmd),
            ));
            lemma_apply_segs_extend_last(Map::empty(), seg_cmds(old0.segments@), pcmd);
            assert(apply_seg_cmds(Map::empty(), seg_cmds(newv.segments@)) == newv.model@);
            // stale plus live accounts for each segment's size
            assert forall|i: int| 0 <= i < n implies (#[trigger] newv.stale@[i]) + live_bytes(
                newv.index.entries@,
                newv.segments@[i].id,
            ) == newv.segments@[i].data@.len() by {
                let id = newv.segments@[i].id;
                assert(id == old0.segments@[i].id);
                assert(old0.stale@[i] + live_bytes(old0.index.entries@, id)
                    == old0.segments@[i].data@.len());
                // whether this segment is the active one
                if id == seg_id && i != n - 1 {
                    assert(old0.segments@[n - 1].id == seg_id);
                    assert(false);
                }
                match prev {
                    Some(p) => {
                        let w = choose|w: int|
                            0 <= w < old0.index.entries@.len() && #[trigger] old0.index.entries@[w].0@
                                == kview && old0.index.entries@[w].1 == p
                                && mid.index.entries@ == old0.index.entries@.update(
                                w,
                                (gkey, loc),
                            );
                        lemma_live_bytes_update(old0.index.entries@, w, (gkey, loc), id);
                        assert(newv.index.entries@ == mid.index.entries@);
                        let pj = seg_pos(old0.segments@, p.segment);
                        lemma_seg_pos_finds(old0.segments@, p.segment);
                        // this segment holds the superseded record iff it is
                        // segment pj
                        if id == p.segment && i != pj {
                            assert(old0.segments@[pj].id == p.segment);
                            assert(false);
                        }
                        assert(newv.stale@ == old0.stale@.update(
                            pj,
                            (old0.stale@[pj] + p.length) as usize,
                        ));
                        if i == pj {
                            assert(newv.stale@[i] == old0.stale@[i] + p.length);
                            assert(id == p.segment);
                        } else {
                            assert(newv.stale@[i] == old0.stale@[i]);
                            assert(id != p.segment);
                        }
                        if i == n - 1 {
                            assert(id == seg_id);
                            assert(newv.segments@[i].data@.len() == old0.segments@[i].data@.len()
                                + rec@.len());
                            assert(rec@.len() == loc.length);
                        } else {
                            assert(id != seg_id);
                            assert(newv.segments@[i].data@.len()
                                == old0.segments@[i].data@.len());
                        }
                    }
                    None => {
                        assert(mid.index.entries@ == old0.index.entries@.push((gkey, loc)));
                        assert(newv.index.entries@ == mid.index.entries@);
                        lemma_live_bytes_push(old0.index.entries@, (gkey, loc), id);
                        assert(newv.stale@ == old0.stale@);
                        if i == n - 1 {
                            assert(id == seg_id);
                            assert(newv.segments@[i].data@.len() == old0.segments@[i].data@.len()
                                + rec@.len());
                            assert(rec@.len() == loc.length);
                        } else {
                            assert(id != seg_id);
                            assert(newv.segments@[i].data@.len()
                                == old0.segments@[i].data@.len());
                        }
                    }
                }
            }
            assert(newv.core_wf());
            // the record-level outcome
            match prev {
                Some(p) => {
                    assert(old0.index@.contains_key(kview));
                    assert(old0.index@[kview] == p);
                    let pjq = seg_pos(old0.segments@, p.segment);
                    assert(newv.stale@ == old0.stale@.update(
                        pjq,
                        (old0.stale@[pjq] + p.length) as usize,
                    ));
                }
                None => {
                    assert(!old0.index@.contains_key(kview));
                    assert(newv.stale@ == old0.stale@);
                }
            }
            assert(put_appended(old0, newv, kview, vview));
        }
    }

    /// Set the value of a key.  The prior record for the key, if any,
    /// becomes stale; compaction runs if the stale bytes now exceed
    /// [`COMPACTION_THRESHOLD`].
    pub fn set(&mut self, key: String, value: String) -> (r: Result<(), Error>)
        requires
            old(self).wf(),
        ensures
            final(self).wf(),
            r is Ok,
            final(self)@ == old(self)@.insert(key@, value@),
            final(self).disk@ == old(self).disk@,
            final(self).spec_total_stale() <= COMPACTION_THRESHOLD as int
                || final(self).segments@.last().id + 2 > u64::MAX,
            put_appended(*old(self), *final(self), key@, value@)
                || final(self).spec_total_stale() == 0,
    {
        let ghost old0 = *self;
        let ghost kv2 = key@;
        let ghost vv2 = value@;
        let rec = encode_put_record(key.as_str(), value.as_str());
        let mut rec2: Vec<char> = Vec::new();
        append_chars(&mut rec2, &rec);
        proof {
            assert(rec2@ =~= rec@);
        }
        let active_id = self.segments[self.segments.len() - 1].id;
        self.do_put(key, value, rec);
        self.effects.push(Effect::Append { id: active_id, data: rec2 });
        proof {
            let e = self.effects@.last();
            lemma_apply_effects_snoc(old0.disk@, old0.effects@, e);
            assert(self.effects@ =~= old0.effects@.push(e));
            assert(apply_effect(seg_disk_model(old0.segments@), e) =~= seg_disk_model(
                self.segments@,
            ));
        }
        proof {
            assert(put_appended(old0, *self, kv2, vv2));
        }
        self.maybe_compact();
        Ok(())
    }

    /// Append an encoded `Remove` record (a tombstone) for `key` to the
    /// active segment and erase the key from the index.  The tombstone and
    /// the superseded record, if any, are booked as stale.  Shared by
    /// `remove` and by replay, where a tombstone may name an absent key.
    fn do_remove(&mut self, key: &String, rec: Vec<char>)
        requires
            old(self).core_wf(),
            old(self).segments@.len() >= 1,
            rec@ == enc_req(Req::Remove { key: key@ }),
        ensures
            final(self).core_wf(),
            final(self).segments@.len() == old(self).segments@.len(),
            final(self).model@ == old(self).model@.remove(key@),
            forall|i: int|
                0 <= i < old(self).segments@.len() ==> (#[trigger] final(self).segments@[i]).id
                    == old(self).segments@[i].id,
            forall|i: int|
                0 <= i < old(self).segments@.len() - 1 ==> #[trigger] final(self).segments@[i]
                    == old(self).segments@[i],
            final(self).segments@.last().data@ == old(self).segments@.last().data@ + rec@,
            final(self).segments@.last().cmds@ == old(self).segments@.last().cmds@.push(
                Req::Remove { key: key@ },
            ),
            final(self).effects@ == old(self).effects@,
            final(self).disk@ == old(self).disk@,
            old(self).index@.contains_key(key@) ==> remove_appended(
                *old(self),
                *final(self),
                key@,
            ),
    {
        let ghost kview = key@;
        let ghost pcmd = Req::Remove { key: key@ };
        let ghost old0 = *self;

        let mut seg = self.segments.pop().unwrap();
        let ghost oldseg = seg;
        append_chars(&mut seg.data, &rec);
        seg.cmds = Ghost(seg.cmds@.push(pcmd));
        let seg_id = seg.id;
        self.segments.push(seg);
        proof {
            assert(self.segments@ =~= old0.segments@.update(
                old0.segments@.len() - 1,
                self.segments@.last(),
            ));
            lemma_concat_enc_snoc(oldseg.cmds@, pcmd);
            assert(seg_wf(self.segments@.last()));
        }
        // the tombstone itself is stale from the start
        let ai = self.segments.len() - 1;
        let t0 = self.stale[ai];
        proof {
            lemma_live_bytes_nonneg(old0.index.entries@, seg_id);
            assert(old0.stale@[ai as int] + live_bytes(old0.index.entries@, seg_id)
                == old0.segments@[ai as int].data@.len());
            assert(self.segments@[ai as int].data@.len() == old0.segments@[ai as int].data@.len()
                + rec@.len());
            assert(self.segments@[ai as int].data.len() == self.segments@[ai as int].data@.len());
            assert(t0 + rec@.len() <= self.segments@[ai as int].data@.len());
        }
        self.stale[ai] = t0 + rec.len();
        let ghost stale1 = self.stale@;
        let prev = self.index.remove(key);
        let ghost mid = *self;
        match prev {
            Some(p) => {
                proof {
                    assert(old0.index@.contains_key(kview));
                    assert(entry_ok(old0.segments@, kview, p, old0.model@[kview]));
                    lemma_seg_pos_same_ids(old0.segments@, self.segments@, p.segment);
                }
                match find_seg(&self.segments, p.segment) {
                    Some(pj) => {
                        let t = self.stale[pj];
                        proof {
                            let w = choose|w: int|
                                0 <= w < old0.index.entries@.len() && #[trigger] old0.index.entries@[w].0@
                                    == kview && old0.index.entries@[w].1 == p
                                    && mid.index.entries@ == old0.index.entries@.remove(w);
                            lemma_live_bytes_at_least(old0.index.entries@, w);
                            let si = seg_pos(old0.segments@, p.segment);
                            lemma_seg_pos_finds(old0.segments@, p.segment);
                            assert(0 <= si < old0.segments@.len());
                            assert(old0.segments@[si].id == p.segment);
                            assert(pj as int == si);
                            assert(old0.stale@[si] + live_bytes(
                                old0.index.entries@,
                                old0.segments@[si].id,
                            ) == old0.segments@[si].data@.len());
                            assert(live_bytes(old0.index.entries@, p.segment) >= p.length as int);
                            assert(self.stale@ == stale1);
                            if si == old0.segments@.len() - 1 {
                                assert(stale1[si] == old0.stale@[si] + rec@.len());
                                assert(self.segments@[si].data@.len()
                                    == old0.segments@[si].data@.len() + rec@.len());
                            } else {
                                assert(stale1[si] == old0.stale@[si]);
                                assert(self.segments@[si] == old0.segments@[si]);
                            }
                            assert(t + p.length <= self.segments@[si].data@.len());
                            assert(self.segments@[si].data.len() == self.segments@[si].data@.len());
                        }
                        self.stale[pj] = t + p.length;
                    }
                    None => {
                        proof {
                            lemma_seg_pos_finds(self.segments@, p.segment);
                            let si = seg_pos(old0.segments@, p.segment);
                            assert(false);
                        }
                    }
                }
            }
            None => {}
        }
        self.model = Ghost(self.model@.remove(kview));
        proof {
            let newv = *self;
            let n = old0.segments@.len();
            assert(forall|i: int|
                0 <= i < n ==> (#[trigger] newv.segments@[i]).id == old0.segments@[i].id);
            assert(forall|i: int|
                0 <= i < n - 1 ==> #[trigger] newv.segments@[i] == old0.segments@[i]);
            assert(forall|i: int| 0 <= i < n ==> seg_wf(#[trigger] newv.segments@[i]));
            assert(newv.index@ == old0.index@.remove(kview));
            assert(newv.model@ == old0.model@.remove(kview));
            assert(newv.index@.dom() =~= newv.model@.dom());
            // entries other than the removed one stay valid
            assert forall|k: Seq<char>| #[trigger] newv.index@.contains_key(k) implies entry_ok(
                newv.segments@,
                k,
                newv.index@[k],
                newv.model@[k],
            ) by {
                let l = newv.index@[k];
                assert(k != kview);
                assert(old0.index@.contains_key(k));
                assert(l == old0.index@[k]);
                assert(entry_ok(old0.segments@, k, l, old0.model@[k]));
                lemma_seg_pos_same_ids(old0.segments@, newv.segments@, l.segment);
                let si = seg_pos(old0.segments@, l.segment);
                if si == n - 1 {
                    let oc = oldseg.cmds@;
                    assert(newv.segments@[si].cmds@ == oc.push(pcmd));
                    assert(newv.segments@[si].cmds@[l.cmd_idx@] == oc[l.cmd_idx@]);
                    lemma_enc_offset_push(oc, pcmd, l.cmd_idx@);
                } else {
                    assert(newv.segments@[si] == old0.segments@[si]);
                }
            }
            // replay equals the model
            assert(seg_cmds(newv.segments@) =~= seg_cmds(old0.segments@).update(
                n - 1,
                seg_cmds(old0.segments@).last().push(pcmd),
            ));
            lemma_apply_segs_extend_last(Map::empty(), seg_cmds(old0.segments@), pcmd);
            assert(apply_seg_cmds(Map::empty(), seg_cmds(newv.segments@)) == newv.model@);
            // stale plus live still accounts for each segment's size
            assert forall|i: int| 0 <= i < n implies (#[trigger] newv.stale@[i]) + live_bytes(
                newv.index.entries@,
                newv.segments@[i].id,
            ) == newv.segments@[i].data@.len() by {
                let id = newv.segments@[i].id;
                assert(id == old0.segments@[i].id);
                assert(old0.stale@[i] + live_bytes(old0.index.entries@, id)
                    == old0.segments@[i].data@.len());
                if id == seg_id && i != n - 1 {
                    assert(old0.segments@[n - 1].id == seg_id);
                    assert(false);
                }
                assert(stale1 == old0.stale@.update(
                    n - 1,
                    (old0.stale@[n - 1] + rec@.len()) as usize,
                ));
                match prev {
                    Some(p) => {
                        let w = choose|w: int|
                            0 <= w < old0.index.entries@.len() && #[trigger] old0.index.entries@[w].0@
                                == kview && old0.index.entries@[w].1 == p
                                && mid.index.entries@ == old0.index.entries@.remove(w);
                        lemma_live_bytes_remove(old0.index.entries@, w, id);
                        assert(newv.index.entries@ == mid.index.entries@);
                        let pj = seg_pos(old0.segments@, p.segment);
                        lemma_seg_pos_finds(old0.segments@, p.segment);
                        if id == p.segment && i != pj {
                            assert(old0.segments@[pj].id == p.segment);
                            assert(false);
                        }
                        assert(newv.stale@ == stale1.update(
                            pj,
                            (stale1[pj] + p.length) as usize,
                        ));
                        if i == pj {
                            assert(id == p.segment);
                        } else {
                            assert(id != p.segment);
                        }
                        if i == n - 1 {
                            assert(id == seg_id);
                            assert(newv.segments@[i].data@.len() == old0.segments@[i].data@.len()
                                + rec@.len());
                        } else {
                            assert(id != seg_id);
                            assert(newv.segments@[i].data@.len()
                                == old0.segments@[i].data@.len());
                        }
                    }
                    None => {
                        assert(newv.index.entries@ == old0.index.entries@);
                        assert(newv.stale@ == stale1);
                        if i == n - 1 {
                            assert(id == seg_id);
                            assert(newv.segments@[i].data@.len() == old0.segments@[i].data@.len()
                                + rec@.len());
                        } else {
                            assert(id != seg_id);
                            assert(newv.segments@[i].data@.len()
                                == old0.segments@[i].data@.len());
                        }
                    }
                }
            }
            assert(newv.core_wf());
            // the record-level outcome for a live key
            match prev {
                Some(p) => {
                    assert(old0.index@.contains_key(kview));
                    assert(old0.index@[kview] == p);
                    let pjq = seg_pos(old0.segments@, p.segment);
                    assert(stale1 == old0.stale@.update(
                        n - 1,
                        (old0.stale@[n - 1] + rec@.len()) as usize,
                    ));
                    assert(newv.stale@ == stale1.update(
                        pjq,
                        (stale1[pjq] + p.length) as usize,
                    ));
                    assert(remove_appended(old0, newv, kview));
                }
                None => {
                    assert(!old0.index@.contains_key(kview));
                }
            }
        }
    }

    /// Remove a key.  Fails with [`Error::KeyNotFound`], leaving the store
    /// untouched, exactly when the key has no mapping; otherwise appends a
    /// tombstone and erases the key.
    pub fn remove(&mut self, key: String) -> (r: Result<(), Error>)
        requires
            old(self).wf(),
        ensures
            final(self).wf(),
            final(self).disk@ == old(self).disk@,
            final(self).spec_total_stale() <= COMPACTION_THRESHOLD as int
                || final(self).segments@.last().id + 2 > u64::MAX
                || !old(self)@.contains_key(key@),
            old(self)@.contains_key(key@) ==> r is Ok && final(self)@ == old(self)@.remove(key@),
            old(self)@.contains_key(key@) ==> remove_appended(*old(self), *final(self), key@)
                || final(self).spec_total_stale() == 0,
            !old(self)@.contains_key(key@) ==> (r matches Err(Error::KeyNotFound)) && *final(self)
                == *old(self),
    {
        let ghost old0 = *self;
        match self.index.get(&key) {
            None => Err(Error::KeyNotFound),
            Some(_) => {
                let rec = encode_remove_record(key.as_str());
                let mut rec2: Vec<char> = Vec::new();
                append_chars(&mut rec2, &rec);
                proof {
                    assert(rec2@ =~= rec@);
                }
                let active_id = self.segments[self.segments.len() - 1].id;
                self.do_remove(&key, rec);
                self.effects.push(Effect::Append { id: active_id, data: rec2 });
                proof {
                    let e = self.effects@.last();
                    lemma_apply_effects_snoc(old0.disk@, old0.effects@, e);
                    assert(self.effects@ =~= old0.effects@.push(e));
                    assert(apply_effect(seg_disk_model(old0.segments@), e) =~= seg_disk_model(
                        self.segments@,
                    ));
                }
                proof {
                    assert(old0.index@.contains_key(key@));
                    assert(remove_appended(old0, *self, key@));
                }
                self.maybe_compact();
                Ok(())
            }
        }
    }

    /// Whether the stale bytes across all segments exceed the compaction
    /// threshold.
    fn stale_exceeds(&self) -> (r: bool)
        ensures
            r == (self.spec_total_stale() > COMPACTION_THRESHOLD as int),
    {
        let n = self.stale.len();
        let mut acc: u64 = 0;
        let mut j: usize = 0;
        proof {
            assert(self.stale@.take(0) =~= Seq::<usize>::empty());
        }
        while j < n
            invariant
                n == self.stale@.len(),
                j <= n,
                acc == sum_stale(self.stale@.take(j as int)),
                acc <= COMPACTION_THRESHOLD,
            decreases n - j,
        {
            let x = self.stale[j] as u64;
            proof {
                assert(self.stale@.take(j + 1 as int) =~= self.stale@.take(j as int).push(
                    self.stale@[j as int],
                ));
                assert(self.stale@.take(j as int).push(self.stale@[j as int]).drop_last()
                    =~= self.stale@.take(j as int));
                assert(sum_stale(self.stale@.take(j + 1 as int)) == acc + self.stale@[j as int]);
            }
            if x > COMPACTION_THRESHOLD - acc {
                proof {
                    lemma_sum_stale_prefix(self.stale@, j + 1 as int);
                }
                return true;
            }
            acc = acc + x;
            j = j + 1;
        }
        proof {
            assert(self.stale@.take(n as int) =~= self.stale@);
        }
        false
    }

    /// Rewrite every live record into a fresh segment, retire all older
    /// segments, and open a second fresh segment as the new active one.
    /// The key-value contents are unchanged and no stale bytes remain.
    fn compact(&mut self)
        requires
            old(self).wf(),
            old(self).segments@.last().id + 2 <= u64::MAX,
        ensures
            final(self).wf(),
            final(self)@ == old(self)@,
            final(self).disk@ == old(self).disk@,
            final(self).spec_total_stale() == 0,
    {
        let ghost old0 = *self;
        let n_entries = self.index.num_entries();
        let active_id = self.segments[self.segments.len() - 1].id;
        let cid = active_id + 1;
        let nid = active_id + 2;
        let mut ndata: Vec<char> = Vec::new();
        let mut nindex = KeyIndex::new();
        let ghost mut ncmds: Seq<Req> = Seq::empty();
        let ghost mut built: Map<Seq<char>, Seq<char>> = Map::empty();
        let mut i: usize = 0;
        proof {
            assert(forall|a: int|
                0 <= a < old0.segments@.len() ==> (#[trigger] old0.segments@[a]).id <= active_id);
        }
        while i < n_entries
            invariant
                *self == old0,
                old0.wf(),
                n_entries == old0.index.entries@.len(),
                i <= n_entries,
                cid == old0.segments@.last().id + 1,
                active_id == old0.segments@.last().id,
                nid == old0.segments@.last().id + 2,
                nindex.wf(),
                ndata@ == concat_enc(ncmds),
                ncmds.len() == i,
                nindex.entries@.len() == i,
                forall|j: int|
                    0 <= j < i ==> #[trigger] ncmds[j] == (Req::Put {
                        key: old0.index.entries@[j].0@,
                        value: old0.model@[old0.index.entries@[j].0@],
                    }),
                forall|j: int|
                    0 <= j < i ==> (#[trigger] nindex.entries@[j]).0@ == old0.index.entries@[j].0@,
                forall|j: int|
                    0 <= j < i ==> {
                        let l = (#[trigger] nindex.entries@[j]).1;
                        l.segment == cid && l.cmd_idx@ == j && l.offset as int == enc_offset(
                            ncmds,
                            j,
                        ) && l.length as int == enc_req(ncmds[j]).len()
                    },
                built == apply_cmds(Map::<Seq<char>, Seq<char>>::empty(), ncmds),
                nindex@.dom() == built.dom(),
                forall|k: Seq<char>| #[trigger] built.contains_key(k) ==> built[k] == old0.model@[k],
                forall|k: Seq<char>|
                    #[trigger] built.contains_key(k) <==> exists|j: int|
                        0 <= j < i && (#[trigger] old0.index.entries@[j]).0@ == k,
                live_bytes(nindex.entries@, cid) == ndata@.len(),
            decreases n_entries - i,
        {
            let (k, loc) = self.index.entry_at(i);
            let ghost kv = k@;
            proof {
                lemma_entries_map_has(self.index.entries@, i as int);
                assert(self.index@.contains_key(kv));
                assert(self.index@[kv] == loc);
                assert(entry_ok(self.segments@, kv, loc, self.model@[kv]));
            }
            let ghost vv = self.model@[kv];
            let ghost pcmd = Req::Put { key: kv, value: vv };
            match find_seg(&self.segments, loc.segment) {
                None => {
                    proof {
                        lemma_seg_pos_finds(self.segments@, loc.segment);
                        assert(false);
                    }
                }
                Some(si) => {
                    proof {
                        lemma_record_at(self.segments@[si as int].cmds@, loc.cmd_idx@);
                        assert(self.segments@[si as int].data.len() == self.segments@[si as int].data@.len());
                    }
                    let off = ndata.len();
                    let seg = &self.segments[si];
                    let slice = copy_range(&seg.data, loc.offset, loc.length);
                    proof {
                        assert(slice@ == enc_req(pcmd));
                    }
                    append_chars(&mut ndata, &slice);
                    let ghost old_ncmds = ncmds;
                    let ghost old_built = built;
                    proof {
                        ncmds = ncmds.push(pcmd);
                        built = built.insert(kv, vv);
                        lemma_concat_enc_snoc(old_ncmds, pcmd);
                        assert(ndata@ == concat_enc(ncmds));
                        lemma_apply_cmds_snoc(Map::<Seq<char>, Seq<char>>::empty(), old_ncmds, pcmd);
                        assert(built == apply_cmds(Map::<Seq<char>, Seq<char>>::empty(), ncmds));
                        assert(old_ncmds.take(i as int) =~= old_ncmds);
                        assert(off as int == enc_offset(ncmds, i as int)) by {
                            lemma_enc_offset_push(old_ncmds, pcmd, i as int);
                        }
                    }
                    let newloc = Location {
                        segment: cid,
                        offset: off,
                        length: loc.length,
                        cmd_idx: Ghost(i as int),
                    };
                    proof {
                        // this key was not seen yet: entries of the old index
                        // carry distinct keys
                        if built.remove(kv).contains_key(kv) {
                            assert(false);
                        }
                        if old_built.contains_key(kv) {
                            let j = choose|j: int|
                                0 <= j < i && (#[trigger] old0.index.entries@[j]).0@ == kv;
                            assert(false);
                        }
                        assert(!nindex@.contains_key(kv));
                    }
                    let ghost old_entries = nindex.entries@;
                    let prev = nindex.insert(k, newloc);
                    proof {
                        assert(prev is None);
                        assert(nindex.entries@ == old_entries.push((
                            nindex.entries@[i as int].0,
                            newloc,
                        )));
                        lemma_live_bytes_push(
                            old_entries,
                            nindex.entries@[i as int],
                            cid,
                        );
                        // the location facts of earlier entries are stable
                        assert forall|j: int| 0 <= j < i implies enc_offset(ncmds, j) == enc_offset(
                            old_ncmds,
                            j,
                        ) by {
                            lemma_enc_offset_push(old_ncmds, pcmd, j);
                        }
                        assert(nindex@.dom() =~= built.dom());
                    }
                    i = i + 1;
                }
            }
        }
        // the rebuilt map is exactly the store's contents
        proof {
            assert forall|k: Seq<char>| #[trigger] old0.model@.contains_key(k) implies built.contains_key(
                k,
            ) by {
                assert(old0.index@.contains_key(k));
                lemma_entries_map_covered(old0.index.entries@, k);
            }
            assert forall|k: Seq<char>| #[trigger] built.contains_key(k) implies old0.model@.contains_key(
                k,
            ) by {
                let j = choose|j: int|
                    0 <= j < n_entries && (#[trigger] old0.index.entries@[j]).0@ == k;
                lemma_entries_map_has(old0.index.entries@, j);
                assert(old0.index@.contains_key(k));
            }
            assert(built =~= old0.model@);
        }
        // assemble the new segments and queue the persistence effects
        let mut ndata2: Vec<char> = Vec::new();
        append_chars(&mut ndata2, &ndata);
        let ghost ndata_view = ndata@;
        let mut nsegs: Vec<Segment> = Vec::new();
        nsegs.push(Segment { id: cid, data: ndata, cmds: Ghost(ncmds) });
        nsegs.push(Segment { id: nid, data: Vec::new(), cmds: Ghost(Seq::empty()) });
        let mut nstale: Vec<usize> = Vec::new();
        nstale.push(0);
        nstale.push(0);
        let ghost d0 = seg_disk_model(old0.segments@);
        self.effects.push(Effect::Create { id: cid });
        proof {
            lemma_apply_effects_snoc(old0.disk@, old0.effects@, self.effects@.last());
            assert(self.effects@ =~= old0.effects@.push(self.effects@.last()));
            assert(apply_effects(self.disk@, self.effects@) == d0.push((cid, Seq::empty())));
        }
        let ghost effs1 = self.effects@;
        self.effects.push(Effect::Append { id: cid, data: ndata2 });
        proof {
            let e = self.effects@.last();
            lemma_apply_effects_snoc(old0.disk@, effs1, e);
            assert(self.effects@ =~= effs1.push(e));
            assert(apply_effect(d0.push((cid, Seq::empty())), e) =~= d0.push((cid, ndata_view)));
        }
        let ghost effs2 = self.effects@;
        self.effects.push(Effect::Create { id: nid });
        proof {
            let e = self.effects@.last();
            lemma_apply_effects_snoc(old0.disk@, effs2, e);
            assert(self.effects@ =~= effs2.push(e));
            assert(apply_effects(self.disk@, self.effects@) == d0.push((cid, ndata_view)).push((
                nid,
                Seq::empty(),
            )));
        }
        let ghost two_new: Seq<(u64, Seq<char>)> = seq![
            (cid, ndata_view),
            (nid, Seq::<char>::empty()),
        ];
        proof {
            assert(d0.push((cid, ndata_view)).push((nid, Seq::empty())) =~= d0 + two_new);
        }
        let m = self.segments.len();
        let mut d: usize = 0;
        while d < m
            invariant
                m == old0.segments@.len(),
                d <= m,
                self.segments@ == old0.segments@,
                self.stale@ == old0.stale@,
                self.index == old0.index,
                self.model == old0.model,
                self.disk == old0.disk,
                old0.wf(),
                cid == old0.segments@.last().id + 1,
                nid == old0.segments@.last().id + 2,
                two_new == seq![(cid, ndata_view), (nid, Seq::<char>::empty())],
                d0 == seg_disk_model(old0.segments@),
                apply_effects(self.disk@, self.effects@) == d0.skip(d as int) + two_new,
            decreases m - d,
        {
            let idd = self.segments[d].id;
            let ghost effs_pre = self.effects@;
            let ghost cur = d0.skip(d as int) + two_new;
            self.effects.push(Effect::Delete { id: idd });
            proof {
                let e = self.effects@.last();
                lemma_apply_effects_snoc(old0.disk@, effs_pre, e);
                assert(self.effects@ =~= effs_pre.push(e));
                // exactly the first element of the remaining old shape
                // carries this id
                assert(cur[0].0 == idd);
                assert forall|q: int| 0 <= q < cur.len() && q != 0 implies (#[trigger] cur[q]).0
                    != idd by {
                    if q < d0.skip(d as int).len() {
                        assert(cur[q].0 == old0.segments@[d + q].id);
                        assert(old0.segments@[d as int].id < old0.segments@[d + q].id);
                    } else {
                        assert(old0.segments@[d as int].id <= old0.segments@.last().id);
                    }
                }
                lemma_disk_remove_one(cur, 0, idd);
                assert(cur.remove(0) =~= d0.skip(d + 1) + two_new);
            }
            d = d + 1;
        }
        proof {
            assert(d0.skip(m as int) =~= Seq::<(u64, Seq<char>)>::empty());
        }
        self.segments = nsegs;
        self.stale = nstale;
        self.index = nindex;
        proof {
            let newv = *self;
            assert(newv.segments@.len() == 2);
            assert(newv.segments@[0].id == cid && newv.segments@[1].id == nid);
            assert(seg_wf(newv.segments@[0]));
            assert(newv.segments@[1].cmds@.len() == 0);
            assert(concat_enc(Seq::<Req>::empty()) =~= Seq::<char>::empty());
            assert(seg_wf(newv.segments@[1]));
            // the index view equals the model's domain
            assert(newv.index@.dom() == built.dom());
            assert(newv.model@ == old0.model@);
            assert(newv.index@.dom() == newv.model@.dom());
            // every entry is valid in the new segments
            assert(newv.segments@.last().id == nid);
            assert(cid != nid);
            let dl = newv.segments@.drop_last();
            assert(dl.len() == 1);
            assert(dl.last() == newv.segments@[0]);
            assert(dl.last().id == cid);
            assert(seg_pos(dl, cid) == 0);
            assert(seg_pos(newv.segments@, cid) == 0);
            assert forall|k: Seq<char>| #[trigger] newv.index@.contains_key(k) implies entry_ok(
                newv.segments@,
                k,
                newv.index@[k],
                newv.model@[k],
            ) by {
                lemma_entries_map_covered(newv.index.entries@, k);
                let j = choose|j: int|
                    0 <= j < newv.index.entries@.len() && (#[trigger] newv.index.entries@[j]).0@
                        == k;
                lemma_entries_map_has(newv.index.entries@, j);
                assert(newv.index@[k] == newv.index.entries@[j].1);
                assert(ncmds[j] == (Req::Put {
                    key: old0.index.entries@[j].0@,
                    value: old0.model@[old0.index.entries@[j].0@],
                }));
                assert(old0.index.entries@[j].0@ == k);
                assert(built.contains_key(k));
                assert(newv.model@[k] == old0.model@[k]);
            }
            // replaying the two new segments rebuilds the model
            let sc = seg_cmds(newv.segments@);
            assert(sc.len() == 2);
            assert(sc[0] == ncmds);
            assert(sc[1] =~= Seq::<Req>::empty());
            assert(sc.last() =~= Seq::<Req>::empty());
            assert(sc.drop_last() =~= seq![ncmds]);
            assert(apply_seg_cmds(Map::<Seq<char>, Seq<char>>::empty(), sc) == apply_cmds(
                apply_seg_cmds(Map::<Seq<char>, Seq<char>>::empty(), seq![ncmds]),
                Seq::<Req>::empty(),
            ));
            assert(seq![ncmds].drop_last() =~= Seq::<Seq<Req>>::empty());
            assert(seq![ncmds].last() == ncmds);
            assert(apply_seg_cmds(Map::<Seq<char>, Seq<char>>::empty(), seq![ncmds])
                == apply_cmds(
                apply_seg_cmds(Map::<Seq<char>, Seq<char>>::empty(), Seq::<Seq<Req>>::empty()),
                ncmds,
            ));
            assert(apply_seg_cmds(
                Map::<Seq<char>, Seq<char>>::empty(),
                Seq::<Seq<Req>>::empty(),
            ) == Map::<Seq<char>, Seq<char>>::empty());
            assert(apply_seg_cmds(Map::<Seq<char>, Seq<char>>::empty(), seq![ncmds]) == built);
            assert(apply_cmds(built, Seq::<Req>::empty()) == built);
            assert(apply_seg_cmds(Map::empty(), sc) == built);
            // stale accounting: the fresh segments hold no stale bytes
            assert forall|i2: int| 0 <= i2 < 2 implies (#[trigger] newv.stale@[i2]) + live_bytes(
                newv.index.entries@,
                newv.segments@[i2].id,
            ) == newv.segments@[i2].data@.len() by {
                if i2 == 0 {
                    assert(live_bytes(newv.index.entries@, cid) == ndata_view.len());
                } else {
                    assert(forall|j: int|
                        0 <= j < newv.index.entries@.len() ==> (#[trigger] newv.index.entries@[j].1).segment
                            != nid);
                    lemma_live_bytes_absent(newv.index.entries@, nid);
                }
            }
            // the queued effects leave exactly the two new files
            assert(apply_effects(newv.disk@, newv.effects@) =~= seg_disk_model(newv.segments@));
            // no stale bytes remain
            assert(newv.stale@.drop_last() =~= seq![0usize]);
            assert(seq![0usize].drop_last() =~= Seq::<usize>::empty());
            assert(sum_stale(Seq::<usize>::empty()) == 0);
            assert(sum_stale(seq![0usize]) == 0 + seq![0usize].last());
            assert(sum_stale(newv.stale@) == sum_stale(seq![0usize]) + newv.stale@.last());
            assert(sum_stale(newv.stale@) == 0);
            assert(newv.core_wf());
        }
    }

    /// Run compaction if the stale bytes exceed the threshold and fresh
    /// segment ids are still available.
    fn maybe_compact(&mut self)
        requires
            old(self).wf(),
        ensures
            final(self).wf(),
            final(self)@ == old(self)@,
            final(self).disk@ == old(self).disk@,
            final(self).spec_total_stale() <= COMPACTION_THRESHOLD as int
                || final(self).segments@.last().id + 2 > u64::MAX,
            *final(self) == *old(self) || final(self).spec_total_stale() == 0,
    {
        if self.stale_exceeds() {
            let aid = self.segments[self.segments.len() - 1].id;
            if aid <= u64::MAX - 2 {
                self.compact();
            }
        }
    }

    /// Drain the queue of pending persistence effects.  The caller is
    /// expected to apply them, in order, to the real database directory;
    /// the on-disk shape then matches the in-memory segments again.
    pub fn take_effects(&mut self) -> (effs: Vec<Effect>)
        requires
            old(self).wf(),
        ensures
            final(self).wf(),
            final(self)@ == old(self)@,
            effs@ == old(self).effects@,
            final(self).effects@.len() == 0,
            final(self).segments@ == old(self).segments@,
            final(self).disk@ == seg_disk_model(final(self).segments@),
            final(self).spec_total_stale() == old(self).spec_total_stale(),
    {
        let mut out: Vec<Effect> = Vec::new();
        core::mem::swap(&mut out, &mut self.effects);
        self.disk = Ghost(seg_disk_model(self.segments@));
        proof {
            assert(self.effects@ =~= Seq::<Effect>::empty());
            assert(apply_effects(self.disk@, self.effects@) == self.disk@);
        }
        out
    }

    /// Get the value of a key, or `None` if the key has no mapping.
    pub fn get(&self, key: String) -> (r: Result<Option<String>, Error>)
        requires
            self.wf(),
        ensures
            match r {
                Ok(Some(v)) => self@.contains_key(key@) && v@ == self@[key@],
                Ok(None) => !self@.contains_key(key@),
                Err(_) => false,
            },
    {
        match self.index.get(&key) {
            None => Ok(None),
            Some(loc) => {
                proof {
                    assert(entry_ok(self.segments@, key@, loc, self.model@[key@]));
                }
                match find_seg(&self.segments, loc.segment) {
                    None => {
                        proof {
                            lemma_seg_pos_finds(self.segments@, loc.segment);
                            let si = seg_pos(self.segments@, loc.segment);
                            assert(false);
                        }
                        Err(Error::Corruption)
                    }
                    Some(si) => {
                        proof {
                            lemma_record_at(self.segments@[si as int].cmds@, loc.cmd_idx@);
                        }
                        let seg = &self.segments[si];
                        let rec = copy_range(&seg.data, loc.offset, loc.length);
                        proof {
                            let cmds = self.segments@[si as int].cmds@;
                            let j = loc.cmd_idx@;
                            assert(rec@ == enc_req(cmds[j]));
                            lemma_parse_req_of_enc(cmds[j], Seq::empty());
                            assert(enc_req(cmds[j]) + Seq::<char>::empty() =~= enc_req(cmds[j]));
                            assert(rec@.skip(0) =~= rec@);
                        }
                        match decode_request_at(&rec, 0) {
                            crate::decode::Decoded::Done { value, used } => {
                                match value {
                                    crate::codec::Requests::Put { key: k2, value: v } => {
                                        Ok(Some(v))
                                    }
                                    _ => {
                                        proof {
                                            assert(false);
                                        }
                                        Err(Error::Corruption)
                                    }
                                }
                            }
                            _ => {
                                proof {
                                    assert(false);
                                }
                                Err(Error::Corruption)
                            }
                        }
                    }
                }
            }
        }
    }
}

impl Default for KvStore {
    /// A fresh store, as [`KvStore::new`] creates it.
    fn default() -> (s: KvStore)
        ensures
            s.wf(),
            s@ == Map::<Seq<char>, Seq<char>>::empty(),
    {
        KvStore::new()
    }
}

} // verus!
