//! The storage engine core.
//!
//! The store holds the image of its database directory as plain values:
//! a sequence of segments (each a numeric file name plus the file's
//! bytes), the count of bytes in the active segment, and the in-memory
//! key index.  Every operation runs on that image; a mutating operation
//! additionally returns the `FileOp` instructions that, applied in
//! order to the real directory, keep it equal to the image.  The caller
//! that owns the directory performs the file system work.

use vstd::prelude::*;

use crate::KvsError;
use crate::codec::RecModel;
use crate::codec::Record;
use crate::codec::decode_of;
use crate::codec::decode_record_prefix;
use crate::codec::encode_of;
use crate::codec::encode_record;
use crate::codec::rec_parses;
use crate::index::KeyIndex;
use crate::index::LocModel;
use crate::index::Location;
use crate::index::lemma_entries_map_at;
use crate::index::lemma_entries_map_contains;

verus! {

/// The capabilities a key type offers in this monomorphic build:
/// cloneable, comparable, hashable, round-trippable through the codec.
/// The bounds themselves live at the serialization boundary.
pub trait Key {

}

/// The capabilities a stored value needs: cloneable and round-trippable
/// through the codec.
pub trait Value {

}

impl Key for String {

}

impl Value for String {

}

/// One segment held by the store: its numeric file name, the file's
/// full contents, and (ghost) the records those bytes encode.
pub struct Segment {
    pub name: u64,
    pub bytes: Vec<u8>,
    pub recs: Ghost<Seq<RecModel>>,
}

/// One segment file as the caller read it from the directory, named
/// `<name>.kvs` there.
pub struct SegmentFile {
    pub name: u64,
    pub bytes: Vec<u8>,
}

/// One file system instruction for the caller that owns the directory:
/// create the empty file `<name>.kvs`, append bytes to it, or unlink it.
pub enum FileOp {
    Create { name: u64 },
    Append { name: u64, bytes: Vec<u8> },
    Remove { name: u64 },
}

/// The bytes a record sequence occupies: the records' encodings back to
/// back, in order.
pub open spec fn seg_bytes_of(recs: Seq<RecModel>) -> Seq<u8>
    decreases recs.len(),
{
    if recs.len() == 0 {
        Seq::empty()
    } else {
        seg_bytes_of(recs.drop_last()) + recs.last().enc()
    }
}

/// Every record in the sequence parses back from its encoding.
pub open spec fn decodable(recs: Seq<RecModel>) -> bool {
    forall|j: int| 0 <= j < recs.len() ==> rec_parses(#[trigger] recs[j])
}

impl Segment {
    /// The bytes are exactly the records' encodings, and each record
    /// parses back.
    pub open spec fn wf(self) -> bool {
        &&& self.bytes@ == seg_bytes_of(self.recs@)
        &&& decodable(self.recs@)
    }
}

/// The records of one segment, each paired with its location: the
/// segment's name, the record's byte offset and byte length.
pub open spec fn located(name: u64, recs: Seq<RecModel>) -> Seq<LocModel>
    decreases recs.len(),
{
    if recs.len() == 0 {
        Seq::empty()
    } else {
        located(name, recs.drop_last()).push(
            LocModel {
                segment: name,
                offset: seg_bytes_of(recs.drop_last()).len(),
                len: recs.last().enc().len(),
                rec: recs.last(),
            },
        )
    }
}

/// All records of all segments with their locations, in replay order:
/// segments in sequence order, records in file order.
pub open spec fn all_located(segs: Seq<Segment>) -> Seq<LocModel>
    decreases segs.len(),
{
    if segs.len() == 0 {
        Seq::empty()
    } else {
        all_located(segs.drop_last()) + located(segs.last().name, segs.last().recs@)
    }
}

/// Replaying located records in order: the map sends each key to the
/// last record that mentions it, with that record's location.
pub open spec fn replay(locs: Seq<LocModel>) -> Map<Seq<char>, LocModel>
    decreases locs.len(),
{
    if locs.len() == 0 {
        Map::empty()
    } else {
        replay(locs.drop_last()).insert(locs.last().rec.key, locs.last())
    }
}

/// The live image of a replayed map: keys whose newest record is a
/// `Put`, each sent to that record's value.
pub open spec fn live_of(m: Map<Seq<char>, LocModel>) -> Map<Seq<char>, Seq<char>> {
    Map::new(
        |k: Seq<char>| m.contains_key(k) && m[k].rec.val is Some,
        |k: Seq<char>| m[k].rec.val->Some_0,
    )
}

/// The directory image the store's segments denote: file name to file
/// contents.
pub open spec fn files_of(segs: Seq<Segment>) -> Map<u64, Seq<u8>>
    decreases segs.len(),
{
    if segs.len() == 0 {
        Map::empty()
    } else {
        files_of(segs.drop_last()).insert(segs.last().name, segs.last().bytes@)
    }
}

/// The directory image a sequence of read files denotes.
pub open spec fn file_map(files: Seq<SegmentFile>) -> Map<u64, Seq<u8>>
    decreases files.len(),
{
    if files.len() == 0 {
        Map::empty()
    } else {
        file_map(files.drop_last()).insert(files.last().name, files.last().bytes@)
    }
}

/// One instruction applied to a directory image.
pub open spec fn apply_op(files: Map<u64, Seq<u8>>, op: FileOp) -> Map<u64, Seq<u8>> {
    match op {
        FileOp::Create { name } => files.insert(name, Seq::empty()),
        FileOp::Append { name, bytes } => files.insert(
            name,
            if files.contains_key(name) {
                files[name] + bytes@
            } else {
                bytes@
            },
        ),
        FileOp::Remove { name } => files.remove(name),
    }
}

/// A sequence of instructions applied in order.
pub open spec fn apply_ops(files: Map<u64, Seq<u8>>, ops: Seq<FileOp>) -> Map<u64, Seq<u8>>
    decreases ops.len(),
{
    if ops.len() == 0 {
        files
    } else {
        apply_op(apply_ops(files, ops.drop_last()), ops.last())
    }
}

/// Applying a concatenation applies the parts in order.
pub proof fn lemma_apply_ops_concat(files: Map<u64, Seq<u8>>, a: Seq<FileOp>, b: Seq<FileOp>)
    ensures
        apply_ops(files, a + b) == apply_ops(apply_ops(files, a), b),
    decreases b.len(),
{
    if b.len() == 0 {
        assert(a + b =~= a);
    } else {
        lemma_apply_ops_concat(files, a, b.drop_last());
        assert((a + b).drop_last() =~= a + b.drop_last());
        assert((a + b).last() == b.last());
    }
}

/// Applying a single instruction.
pub proof fn lemma_apply_ops_one(files: Map<u64, Seq<u8>>, op: FileOp)
    ensures
        apply_ops(files, seq![op]) == apply_op(files, op),
{
    assert(seq![op].drop_last() =~= Seq::<FileOp>::empty());
    assert(apply_ops(files, Seq::<FileOp>::empty()) == files);
    assert(seq![op].last() == op);
}

/// Appending one record to a record sequence appends its encoding to
/// the sequence's bytes, and one located record to its located form.
pub proof fn lemma_seg_push(name: u64, recs: Seq<RecModel>, r: RecModel)
    ensures
        seg_bytes_of(recs.push(r)) == seg_bytes_of(recs) + r.enc(),
        located(name, recs.push(r)) == located(name, recs).push(
            LocModel {
                segment: name,
                offset: seg_bytes_of(recs).len(),
                len: r.enc().len(),
                rec: r,
            },
        ),
{
    assert(recs.push(r).drop_last() =~= recs);
    assert(recs.push(r).last() == r);
}

/// Replay of one more record updates the map at that record's key.
pub proof fn lemma_replay_push(locs: Seq<LocModel>, l: LocModel)
    ensures
        replay(locs.push(l)) == replay(locs).insert(l.rec.key, l),
{
    assert(locs.push(l).drop_last() =~= locs);
    assert(locs.push(l).last() == l);
}

/// A replayed map's entry for `k` is a record whose key is `k`, drawn
/// from the located sequence.
pub proof fn lemma_replay_entry(locs: Seq<LocModel>, k: Seq<char>)
    requires
        replay(locs).contains_key(k),
    ensures
        replay(locs)[k].rec.key == k,
        exists|j: int| 0 <= j < locs.len() && locs[j] == replay(locs)[k],
    decreases locs.len(),
{
    let last = locs.last();
    if locs.len() > 0 && last.rec.key != k {
        lemma_replay_entry(locs.drop_last(), k);
        let j = choose|j: int|
            0 <= j < locs.drop_last().len() && locs.drop_last()[j] == replay(locs.drop_last())[k];
        assert(locs[j] == replay(locs)[k]);
    } else if locs.len() > 0 {
        assert(locs[locs.len() - 1] == replay(locs)[k]);
    }
}

/// Every record's key is present in the replay of its sequence.
pub proof fn lemma_replay_covers(locs: Seq<LocModel>, j: int)
    requires
        0 <= j < locs.len(),
    ensures
        replay(locs).contains_key(locs[j].rec.key),
    decreases locs.len(),
{
    if j < locs.len() - 1 {
        lemma_replay_covers(locs.drop_last(), j);
        assert(locs.drop_last()[j] == locs[j]);
    }
}

/// The record sequence a compaction writes: one `Put` per live key,
/// carrying that key's live value, with no key repeated and no live key
/// missing.
pub open spec fn is_live_image(recs: Seq<RecModel>, live: Map<Seq<char>, Seq<char>>) -> bool {
    &&& forall|j: int|
        0 <= j < recs.len() ==> {
            &&& (#[trigger] recs[j]).val is Some
            &&& live.contains_key(recs[j].key)
            &&& recs[j].val->Some_0 == live[recs[j].key]
        }
    &&& forall|a: int, b: int|
        0 <= a < b < recs.len() ==> (#[trigger] recs[a]).key != (#[trigger] recs[b]).key
    &&& forall|k: Seq<char>|
        #[trigger] live.contains_key(k) ==> exists|j: int|
            0 <= j < recs.len() && (#[trigger] recs[j]).key == k
}

/// One compaction step: appending the live record for the `i`-th index
/// entry keeps the written sequence a faithful, duplicate-free image of
/// the live map over the entries seen so far.
proof fn lemma_compact_step(
    entries: Seq<(String, Location)>,
    live: Map<Seq<char>, Seq<char>>,
    pre: Seq<RecModel>,
    r: RecModel,
    i: int,
)
    requires
        0 <= i < entries.len(),
        crate::index::distinct_keys(entries),
        r.key == entries[i].0@,
        r.val is Some,
        live.contains_key(r.key),
        r.val->Some_0 == live[r.key],
        forall|j: int|
            0 <= j < pre.len() ==> {
                &&& (#[trigger] pre[j]).val is Some
                &&& live.contains_key(pre[j].key)
                &&& pre[j].val->Some_0 == live[pre[j].key]
            },
        forall|a: int, b: int|
            0 <= a < b < pre.len() ==> (#[trigger] pre[a]).key != (#[trigger] pre[b]).key,
        forall|j: int|
            0 <= j < pre.len() ==> exists|t: int|
                0 <= t < i && (#[trigger] entries[t]).0@ == (#[trigger] pre[j]).key,
        forall|t: int|
            0 <= t < i ==> (live.contains_key((#[trigger] entries[t]).0@) ==> exists|j: int|
                0 <= j < pre.len() && (#[trigger] pre[j]).key == entries[t].0@),
    ensures
        forall|j: int|
            0 <= j < pre.push(r).len() ==> {
                &&& (#[trigger] pre.push(r)[j]).val is Some
                &&& live.contains_key(pre.push(r)[j].key)
                &&& pre.push(r)[j].val->Some_0 == live[pre.push(r)[j].key]
            },
        forall|a: int, b: int|
            0 <= a < b < pre.push(r).len() ==> (#[trigger] pre.push(r)[a]).key != (
            #[trigger] pre.push(r)[b]).key,
        forall|j: int|
            0 <= j < pre.push(r).len() ==> exists|t: int|
                0 <= t < i + 1 && (#[trigger] entries[t]).0@ == (#[trigger] pre.push(r)[j]).key,
        forall|t: int|
            0 <= t < i + 1 ==> (live.contains_key((#[trigger] entries[t]).0@) ==> exists|j: int|
                0 <= j < pre.push(r).len() && (#[trigger] pre.push(r)[j]).key == entries[t].0@),
{
    let cur = pre.push(r);
    assert(forall|j: int| 0 <= j < pre.len() ==> #[trigger] cur[j] == pre[j]);
    assert(cur[cur.len() - 1] == r);
    // the key is fresh among the records written so far
    assert(forall|a: int| 0 <= a < pre.len() ==> (#[trigger] pre[a]).key != r.key) by {
        if exists|a: int| 0 <= a < pre.len() && (#[trigger] pre[a]).key == r.key {
            let a = choose|a: int| 0 <= a < pre.len() && (#[trigger] pre[a]).key == r.key;
            let t = choose|t: int|
                0 <= t < i && (#[trigger] entries[t]).0@ == (#[trigger] pre[a]).key;
            assert(entries[t].0@ == entries[i].0@);
        }
    }
    assert forall|j: int| 0 <= j < cur.len() implies exists|t: int|
        0 <= t < i + 1 && (#[trigger] entries[t]).0@ == (#[trigger] cur[j]).key by {
        if j < pre.len() {
            let t = choose|t: int|
                0 <= t < i && (#[trigger] entries[t]).0@ == (#[trigger] pre[j]).key;
            assert(0 <= t < i + 1 && entries[t].0@ == cur[j].key);
        } else {
            assert(entries[i].0@ == cur[j].key);
        }
    }
    assert forall|t: int|
        0 <= t < i + 1 && live.contains_key((#[trigger] entries[t]).0@) implies exists|j: int|
        0 <= j < cur.len() && (#[trigger] cur[j]).key == entries[t].0@ by {
        if t < i {
            let j = choose|j: int|
                0 <= j < pre.len() && (#[trigger] pre[j]).key == entries[t].0@;
            assert(cur[j].key == entries[t].0@);
        } else {
            assert(cur[cur.len() - 1].key == entries[t].0@);
        }
    }
}

/// Each located record of a segment names the segment, spans bytes
/// that lie inside the segment, and those bytes are its encoding.
pub proof fn lemma_located_at(name: u64, recs: Seq<RecModel>, j: int)
    requires
        0 <= j < located(name, recs).len(),
    ensures
        located(name, recs).len() == recs.len(),
        located(name, recs)[j].segment == name,
        located(name, recs)[j].rec == recs[j],
        located(name, recs)[j].len == recs[j].enc().len(),
        located(name, recs)[j].offset + located(name, recs)[j].len <= seg_bytes_of(recs).len(),
        seg_bytes_of(recs).subrange(
            located(name, recs)[j].offset as int,
            located(name, recs)[j].offset + located(name, recs)[j].len as int,
        ) == recs[j].enc(),
    decreases recs.len(),
{
    lemma_located_len(name, recs);
    let l = located(name, recs)[j];
    let bytes = seg_bytes_of(recs);
    if j == recs.len() - 1 {
        assert(bytes == seg_bytes_of(recs.drop_last()) + recs.last().enc());
        assert(bytes.subrange(l.offset as int, l.offset + l.len as int) =~= recs[j].enc());
    } else {
        lemma_located_len(name, recs.drop_last());
        assert(located(name, recs)[j] == located(name, recs.drop_last())[j]);
        lemma_located_at(name, recs.drop_last(), j);
        assert(bytes == seg_bytes_of(recs.drop_last()) + recs.last().enc());
        assert(bytes.subrange(l.offset as int, l.offset + l.len as int) =~= seg_bytes_of(
            recs.drop_last(),
        ).subrange(l.offset as int, l.offset + l.len as int));
    }
}

/// A segment's located form has one entry per record.
pub proof fn lemma_located_len(name: u64, recs: Seq<RecModel>)
    ensures
        located(name, recs).len() == recs.len(),
    decreases recs.len(),
{
    if recs.len() > 0 {
        lemma_located_len(name, recs.drop_last());
    }
}

/// Every located record of a well-formed segment sequence lies inside
/// the segment it names: its byte span is within that segment's bytes
/// and holds exactly its encoding, and the record parses back.
pub proof fn lemma_entry_in_segment(segs: Seq<Segment>, j: int)
    requires
        0 <= j < all_located(segs).len(),
        forall|i: int| 0 <= i < segs.len() ==> (#[trigger] segs[i]).wf(),
    ensures
        exists|i: int|
            {
                &&& 0 <= i < segs.len()
                &&& (#[trigger] segs[i]).name == all_located(segs)[j].segment
                &&& all_located(segs)[j].offset + all_located(segs)[j].len <= segs[i].bytes@.len()
                &&& segs[i].bytes@.subrange(
                    all_located(segs)[j].offset as int,
                    all_located(segs)[j].offset + all_located(segs)[j].len as int,
                ) == all_located(segs)[j].rec.enc()
                &&& all_located(segs)[j].len == all_located(segs)[j].rec.enc().len()
                &&& rec_parses(all_located(segs)[j].rec)
            },
    decreases segs.len(),
{
    let l = all_located(segs)[j];
    let last = segs.last();
    let front = all_located(segs.drop_last());
    if segs.len() > 0 && j < front.len() {
        assert(forall|i: int|
            0 <= i < segs.drop_last().len() ==> (#[trigger] segs.drop_last()[i]).wf());
        assert(all_located(segs)[j] == front[j]);
        lemma_entry_in_segment(segs.drop_last(), j);
        let i = choose|i: int|
            {
                &&& 0 <= i < segs.drop_last().len()
                &&& (#[trigger] segs.drop_last()[i]).name == front[j].segment
                &&& front[j].offset + front[j].len <= segs.drop_last()[i].bytes@.len()
                &&& segs.drop_last()[i].bytes@.subrange(
                    front[j].offset as int,
                    front[j].offset + front[j].len as int,
                ) == front[j].rec.enc()
                &&& front[j].len == front[j].rec.enc().len()
                &&& rec_parses(front[j].rec)
            };
        assert(segs[i] == segs.drop_last()[i]);
    } else if segs.len() > 0 {
        let jj = j - front.len();
        assert(all_located(segs)[j] == located(last.name, last.recs@)[jj]);
        lemma_located_at(last.name, last.recs@, jj);
        assert(last.wf());
        assert(last.bytes@ == seg_bytes_of(last.recs@));
        assert(rec_parses(last.recs@[jj]));
        assert(segs[segs.len() - 1] == last);
    }
}

/// The directory image contains exactly the segments' names.
pub proof fn lemma_files_of_contains(segs: Seq<Segment>, k: u64)
    ensures
        files_of(segs).contains_key(k) <==> exists|i: int|
            0 <= i < segs.len() && (#[trigger] segs[i]).name == k,
    decreases segs.len(),
{
    if segs.len() > 0 {
        lemma_files_of_contains(segs.drop_last(), k);
        if segs.last().name == k {
            assert(segs[segs.len() - 1].name == k);
        }
        if exists|i: int| 0 <= i < segs.len() && (#[trigger] segs[i]).name == k {
            let i = choose|i: int| 0 <= i < segs.len() && (#[trigger] segs[i]).name == k;
            if i < segs.len() - 1 {
                assert(segs.drop_last()[i].name == k);
            }
        }
        if exists|i: int|
            0 <= i < segs.drop_last().len() && (#[trigger] segs.drop_last()[i]).name == k {
            let i = choose|i: int|
                0 <= i < segs.drop_last().len() && (#[trigger] segs.drop_last()[i]).name == k;
            assert(segs[i].name == k);
        }
    }
}

/// With distinct names, the directory image sends a segment's name to
/// that segment's bytes.
pub proof fn lemma_files_of_at(segs: Seq<Segment>, i: int)
    requires
        forall|a: int, b: int|
            0 <= a < b < segs.len() ==> (#[trigger] segs[a]).name != (#[trigger] segs[b]).name,
        0 <= i < segs.len(),
    ensures
        files_of(segs).contains_key(segs[i].name),
        files_of(segs)[segs[i].name] == segs[i].bytes@,
    decreases segs.len(),
{
    lemma_files_of_contains(segs, segs[i].name);
    if i < segs.len() - 1 {
        assert(segs.drop_last()[i] == segs[i]);
        lemma_files_of_at(segs.drop_last(), i);
        assert(segs[i].name != segs.last().name);
    }
}

/// Replacing the last segment by one with the same name overwrites its
/// entry in the directory image.
pub proof fn lemma_files_of_update_last(segs: Seq<Segment>, seg2: Segment)
    requires
        segs.len() >= 1,
        seg2.name == segs.last().name,
    ensures
        files_of(segs.update(segs.len() - 1, seg2)) == files_of(segs).insert(
            seg2.name,
            seg2.bytes@,
        ),
{
    let upd = segs.update(segs.len() - 1, seg2);
    assert(upd.drop_last() =~= segs.drop_last());
    assert(upd.last() == seg2);
    assert(files_of(segs.drop_last()).insert(seg2.name, seg2.bytes@) =~= files_of(
        segs,
    ).insert(seg2.name, seg2.bytes@));
}

/// The read files' image contains exactly their names.
pub proof fn lemma_file_map_contains(files: Seq<SegmentFile>, k: u64)
    ensures
        file_map(files).contains_key(k) <==> exists|i: int|
            0 <= i < files.len() && (#[trigger] files[i]).name == k,
    decreases files.len(),
{
    if files.len() > 0 {
        lemma_file_map_contains(files.drop_last(), k);
        if files.last().name == k {
            assert(files[files.len() - 1].name == k);
        }
        if exists|i: int| 0 <= i < files.len() && (#[trigger] files[i]).name == k {
            let i = choose|i: int| 0 <= i < files.len() && (#[trigger] files[i]).name == k;
            if i < files.len() - 1 {
                assert(files.drop_last()[i].name == k);
            }
        }
        if exists|i: int|
            0 <= i < files.drop_last().len() && (#[trigger] files.drop_last()[i]).name == k {
            let i = choose|i: int|
                0 <= i < files.drop_last().len() && (#[trigger] files.drop_last()[i]).name == k;
            assert(files[i].name == k);
        }
    }
}

/// Inserting a file with a fresh name anywhere in the sequence inserts
/// its entry into the image.
pub proof fn lemma_file_map_insert(files: Seq<SegmentFile>, pos: int, f: SegmentFile)
    requires
        0 <= pos <= files.len(),
        forall|i: int| 0 <= i < files.len() ==> (#[trigger] files[i]).name != f.name,
    ensures
        file_map(files.insert(pos, f)) == file_map(files).insert(f.name, f.bytes@),
    decreases files.len(),
{
    let ins = files.insert(pos, f);
    if pos == files.len() {
        assert(ins =~= files.push(f));
        assert(ins.drop_last() =~= files);
    } else {
        assert(ins.last() == files.last());
        assert(ins.drop_last() =~= files.drop_last().insert(pos, f));
        assert(forall|i: int|
            0 <= i < files.drop_last().len() ==> (#[trigger] files.drop_last()[i]).name
                != f.name);
        lemma_file_map_insert(files.drop_last(), pos, f);
        assert(files.last().name != f.name);
        assert(file_map(files.drop_last()).insert(f.name, f.bytes@).insert(
            files.last().name,
            files.last().bytes@,
        ) =~= file_map(files).insert(f.name, f.bytes@));
    }
}

/// Append `src` to `dst`.
fn push_bytes(dst: &mut Vec<u8>, src: &[u8])
    ensures
        final(dst)@ == old(dst)@ + src@,
{
    let n = src.len();
    let mut i: usize = 0;
    proof {
        assert(old(dst)@ + src@.take(0) =~= old(dst)@);
    }
    while i < n
        invariant
            n == src@.len(),
            i <= n,
            dst@ == old(dst)@ + src@.take(i as int),
        decreases n - i,
    {
        dst.push(src[i]);
        proof {
            assert(old(dst)@ + src@.take(i + 1) =~= (old(dst)@ + src@.take(i as int)).push(
                src@[i as int],
            ));
        }
        i += 1;
    }
    proof {
        assert(src@.take(n as int) =~= src@);
    }
}

/// A fresh copy of the bytes.
fn clone_bytes(src: &Vec<u8>) -> (r: Vec<u8>)
    ensures
        r@ == src@,
{
    let mut out: Vec<u8> = Vec::new();
    push_bytes(&mut out, src.as_slice());
    proof {
        assert(Seq::<u8>::empty() + src@ =~= src@);
    }
    out
}

/// Whether two byte slices hold the same bytes.
fn bytes_eq(a: &[u8], b: &[u8]) -> (r: bool)
    ensures
        r == (a@ == b@),
{
    if a.len() != b.len() {
        return false;
    }
    let n = a.len();
    let mut i: usize = 0;
    while i < n
        invariant
            n == a@.len(),
            n == b@.len(),
            i <= n,
            forall|j: int| 0 <= j < i ==> a@[j] == b@[j],
        decreases n - i,
    {
        if a[i] != b[i] {
            return false;
        }
        i += 1;
    }
    proof {
        assert(a@ =~= b@);
    }
    true
}

/// The position of the segment named `name`, if one exists.
fn find_segment(segments: &Vec<Segment>, name: u64) -> (r: Option<usize>)
    ensures
        match r {
            Some(i) => i < segments@.len() && segments@[i as int].name == name,
            None => forall|i: int|
                0 <= i < segments@.len() ==> (#[trigger] segments@[i]).name != name,
        },
{
    let n = segments.len();
    let mut i: usize = 0;
    while i < n
        invariant
            n == segments@.len(),
            i <= n,
            forall|j: int| 0 <= j < i ==> (#[trigger] segments@[j]).name != name,
        decreases n - i,
    {
        if segments[i].name == name {
            return Some(i);
        }
        i += 1;
    }
    None
}

/// Sort the read files by name ascending (replay order).  The names
/// are pairwise distinct, so the sorted sequence denotes the same
/// directory image.
fn sort_files(files: Vec<SegmentFile>) -> (r: Vec<SegmentFile>)
    requires
        forall|i: int, j: int|
            0 <= i < j < files@.len() ==> (#[trigger] files@[i]).name != (
            #[trigger] files@[j]).name,
    ensures
        forall|i: int, j: int|
            0 <= i < j < r@.len() ==> (#[trigger] r@[i]).name < (#[trigger] r@[j]).name,
        file_map(r@) == file_map(files@),
        r@.len() == files@.len(),
{
    let ghost orig = files@;
    let mut input = files;
    let mut out: Vec<SegmentFile> = Vec::new();
    proof {
        assert(file_map(out@) =~= Map::<u64, Seq<u8>>::empty());
        assert(file_map(input@).union_prefer_right(file_map(out@)) =~= file_map(orig));
    }
    while input.len() > 0
        invariant
            forall|i: int, j: int|
                0 <= i < j < input@.len() ==> (#[trigger] input@[i]).name != (
                #[trigger] input@[j]).name,
            forall|i: int, j: int|
                0 <= i < j < out@.len() ==> (#[trigger] out@[i]).name < (#[trigger] out@[j]).name,
            forall|k: u64|
                !(file_map(input@).contains_key(k) && #[trigger] file_map(out@).contains_key(k)),
            file_map(input@).union_prefer_right(file_map(out@)) == file_map(orig),
            input@.len() + out@.len() == orig.len(),
        decreases input@.len(),
    {
        let ghost pre_in = input@;
        let ghost pre_out = out@;
        let f = input.pop().unwrap();
        proof {
            assert(pre_in.drop_last() =~= input@);
            assert(f == pre_in.last());
            lemma_file_map_contains(pre_in, f.name);
            assert(pre_in[pre_in.len() - 1].name == f.name);
            assert(file_map(pre_in).contains_key(f.name));
            // the popped name is in neither remainder
            lemma_file_map_contains(input@, f.name);
            assert(!file_map(input@).contains_key(f.name)) by {
                if exists|i: int|
                    0 <= i < input@.len() && (#[trigger] input@[i]).name == f.name {
                    let i = choose|i: int|
                        0 <= i < input@.len() && (#[trigger] input@[i]).name == f.name;
                    assert(pre_in[i].name == pre_in[pre_in.len() - 1].name);
                }
            }
            assert(!file_map(pre_out).contains_key(f.name));
            lemma_file_map_contains(pre_out, f.name);
        }
        let mut pos: usize = 0;
        let olen = out.len();
        while pos < olen && out[pos].name < f.name
            invariant
                olen == out@.len(),
                out@ == pre_out,
                pos <= olen,
                forall|j: int| 0 <= j < pos ==> (#[trigger] out@[j]).name < f.name,
            decreases olen - pos,
        {
            pos += 1;
        }
        proof {
            lemma_file_map_insert(pre_out, pos as int, f);
            pre_out.insert_ensures(pos as int, f);
        }
        out.insert(pos, f);
        proof {
            // order: everything before the slot is smaller, everything
            // after is larger (distinct, so strictly)
            assert(forall|j: int|
                pos < j < out@.len() ==> (#[trigger] out@[j]).name > f.name) by {
                assert(forall|j: int|
                    pos <= j < pre_out.len() ==> (#[trigger] pre_out[j]).name >= f.name
                        && pre_out[j].name != f.name);
            }
            assert(forall|i: int, j: int|
                0 <= i < j < out@.len() ==> (#[trigger] out@[i]).name < (
                #[trigger] out@[j]).name) by {
                assert(forall|j: int| 0 <= j < pos ==> (#[trigger] out@[j]).name == pre_out[j].name
                    && out@[j].name < f.name);
                assert(out@[pos as int].name == f.name);
                assert(forall|j: int|
                    pos < j < out@.len() ==> (#[trigger] out@[j]).name == pre_out[j - 1].name);
            }
            // the image is preserved and stays partitioned
            assert(file_map(out@) == file_map(pre_out).insert(f.name, f.bytes@));
            assert(file_map(pre_in) == file_map(input@).insert(f.name, f.bytes@));
            assert(forall|k: u64|
                !(file_map(input@).contains_key(k) && #[trigger] file_map(
                    out@,
                ).contains_key(k)));
            assert(file_map(input@).union_prefer_right(file_map(out@)) =~= file_map(
                pre_in,
            ).union_prefer_right(file_map(pre_out)));
        }
    }
    proof {
        assert(file_map(input@) =~= Map::<u64, Seq<u8>>::empty());
        assert(file_map(out@) =~= file_map(input@).union_prefer_right(file_map(out@)));
    }
    out
}

/// Parse one segment file: decode record after record, check each one
/// re-encodes to exactly the consumed bytes (the store only ever
/// writes canonical encodings, so anything else is treated as a
/// corrupt file), and point the index at every record as replay
/// prescribes.
fn load_segment(file: &SegmentFile, index: &mut KeyIndex, Ghost(prior): Ghost<Seq<LocModel>>) -> (r:
    Result<Segment, KvsError>)
    requires
        old(index).wf(),
        old(index)@ == replay(prior),
    ensures
        final(index).wf(),
        r matches Ok(seg) ==> {
            &&& seg.wf()
            &&& seg.name == file.name
            &&& seg.bytes@ == file.bytes@
            &&& final(index)@ == replay(prior + located(seg.name, seg.recs@))
        },
        r matches Err(e) ==> e matches KvsError::SerializationError(_),
{
    let name = file.name;
    let blen = file.bytes.len();
    let mut pos: usize = 0;
    let ghost mut recs = Seq::<RecModel>::empty();
    proof {
        assert(seg_bytes_of(recs) =~= file.bytes@.take(0));
        assert(located(name, recs) =~= Seq::<LocModel>::empty());
        assert(prior + located(name, recs) =~= prior);
    }
    while pos < blen
        invariant
            blen == file.bytes@.len(),
            pos <= blen,
            seg_bytes_of(recs) == file.bytes@.take(pos as int),
            decodable(recs),
            index.wf(),
            index@ == replay(prior + located(name, recs)),
        decreases blen - pos,
    {
        let slice = vstd::slice::slice_subrange(file.bytes.as_slice(), pos, blen);
        let (record, n) = match decode_record_prefix(slice) {
            Ok(t) => t,
            Err(err) => {
                return Err(err);
            },
        };
        let e2 = match encode_record(&record) {
            Ok(e2) => e2,
            Err(err) => {
                return Err(err);
            },
        };
        if n != e2.len() {
            return Err(KvsError::SerializationError("record is not canonically encoded".to_owned()));
        }
        let consumed = vstd::slice::slice_subrange(slice, 0, n);
        if !bytes_eq(consumed, e2.as_slice()) {
            return Err(KvsError::SerializationError("record is not canonically encoded".to_owned()));
        }
        let key = match &record {
            Record::Put(k, _) => k.clone(),
            Record::Rm(k) => k.clone(),
        };
        let loc = Location { segment: name, offset: pos, len: n, rec: Ghost(record@) };
        let ghost pre_recs = recs;
        proof {
            assert(consumed@ == record@.enc());
            assert(rec_parses(record@)) by {
                assert(e2@ == record@.enc());
            }
            lemma_seg_push(name, pre_recs, record@);
            lemma_replay_push(
                prior + located(name, pre_recs),
                LocModel {
                    segment: name,
                    offset: seg_bytes_of(pre_recs).len(),
                    len: record@.enc().len(),
                    rec: record@,
                },
            );
        }
        index.upsert(key, loc);
        proof {
            recs = pre_recs.push(record@);
            assert(prior + located(name, recs) =~= (prior + located(name, pre_recs)).push(
                LocModel {
                    segment: name,
                    offset: seg_bytes_of(pre_recs).len(),
                    len: record@.enc().len(),
                    rec: record@,
                },
            ));
            assert(file.bytes@.take(pos + n) =~= file.bytes@.take(pos as int) + file.bytes@.subrange(
                pos as int,
                pos + n,
            ));
            assert(consumed@ == file.bytes@.subrange(pos as int, pos + n));
            assert(seg_bytes_of(recs) == file.bytes@.take(pos + n));
        }
        pos = pos + n;
    }
    proof {
        assert(file.bytes@.take(blen as int) =~= file.bytes@);
    }
    let bytes = clone_bytes(&file.bytes);
    Ok(Segment { name, bytes, recs: Ghost(recs) })
}

/// The store: the directory image, the index, the name counter, and
/// the two thresholds of the rotation policy.
pub struct KvStore {
    /// All segments, names strictly ascending; the last one is active.
    pub segments: Vec<Segment>,
    /// Size of the active segment, kept alongside the image.
    pub bytes_in_active: usize,
    /// Key to location of the newest record mentioning it.
    pub index: KeyIndex,
    /// Strictly greater than every segment name; the next file name.
    /// Fresh segments are named by this counter rather than by the
    /// wall clock: replay only relies on ascending name order being
    /// creation order, which the counter provides and the proofs
    /// cover, while the clock would be one more unverifiable input.
    /// `open` seeds it above every name found in the directory, so
    /// names stay ascending across restarts too.
    pub next_name: u64,
    /// Rotate once the active segment grows beyond this many bytes.
    pub rotation_threshold: usize,
    /// Compact instead once this many inactive segments exist.
    pub compaction_threshold: usize,
}

impl View for KvStore {
    type V = Map<Seq<char>, Seq<char>>;

    /// The store's meaning: the live key/value map.
    open spec fn view(&self) -> Map<Seq<char>, Seq<char>> {
        live_of(self.index@)
    }
}

/// The active segment has outgrown the rotation threshold.
pub open spec fn rotation_due(s: KvStore) -> bool {
    s.bytes_in_active > s.rotation_threshold
}

/// The rotation policy, evaluated after an append that brought the
/// active segment to `grown` bytes: below the threshold nothing
/// happens; above it a fresh active segment is started, unless the
/// inactive segments have reached the compaction budget, in which case
/// everything is folded into one segment instead.  (The name-counter
/// guard is vacuous in practice: it fails only after 2^64 - 1 names.)
pub open spec fn rotation_outcome(pre: KvStore, post: KvStore, grown: nat) -> bool {
    &&& (grown <= pre.rotation_threshold ==> post.segments@.len() == pre.segments@.len()
        && post.bytes_in_active == grown)
    &&& (grown > pre.rotation_threshold && pre.segments@.len() - 1 < pre.compaction_threshold
        && pre.next_name < u64::MAX ==> post.segments@.len() == pre.segments@.len() + 1
        && post.bytes_in_active == 0)
    &&& (grown > pre.rotation_threshold && pre.segments@.len() - 1 >= pre.compaction_threshold
        && pre.next_name < u64::MAX ==> post.segments@.len() == 1)
}

/// Rotation is due and the inactive segments have reached the
/// compaction budget, so compaction runs instead.
pub open spec fn compaction_due(s: KvStore) -> bool {
    rotation_due(s) && s.segments@.len() - 1 >= s.compaction_threshold
}

impl KvStore {
    /// The store's invariant.
    pub open spec fn wf(self) -> bool {
        &&& self.segments@.len() >= 1
        &&& forall|i: int| 0 <= i < self.segments@.len() ==> (#[trigger] self.segments@[i]).wf()
        &&& forall|i: int, j: int|
            0 <= i < j < self.segments@.len() ==> (#[trigger] self.segments@[i]).name < (
            #[trigger] self.segments@[j]).name
        &&& forall|i: int|
            0 <= i < self.segments@.len() ==> (#[trigger] self.segments@[i]).name < self.next_name
        &&& self.bytes_in_active == self.segments@.last().bytes@.len()
        &&& self.index.wf()
        &&& self.index@ == replay(all_located(self.segments@))
    }

    /// Read back the record a live index entry points at.
    fn read_at(&self, loc: Location) -> (r: Record)
        requires
            self.wf(),
            self.index@.contains_key(loc@.rec.key),
            self.index@[loc@.rec.key] == loc@,
        ensures
            r@ == loc@.rec,
    {
        proof {
            lemma_replay_entry(all_located(self.segments@), loc@.rec.key);
            let j = choose|j: int|
                0 <= j < all_located(self.segments@).len() && all_located(self.segments@)[j]
                    == loc@;
            lemma_entry_in_segment(self.segments@, j);
        }
        let found = find_segment(&self.segments, loc.segment);
        let i = match found {
            Some(i) => i,
            None => {
                proof {
                    let w = choose|i: int|
                        0 <= i < self.segments@.len() && (#[trigger] self.segments@[i]).name
                            == loc@.segment;
                    assert(false);
                }
                return Record::Rm(String::new());
            },
        };
        proof {
            let w = choose|w: int|
                {
                    &&& 0 <= w < self.segments@.len()
                    &&& (#[trigger] self.segments@[w]).name == loc@.segment
                    &&& loc@.offset + loc@.len <= self.segments@[w].bytes@.len()
                    &&& self.segments@[w].bytes@.subrange(
                        loc@.offset as int,
                        loc@.offset + loc@.len as int,
                    ) == loc@.rec.enc()
                    &&& loc@.len == loc@.rec.enc().len()
                    &&& rec_parses(loc@.rec)
                };
            assert(w == i as int);
        }
        let seg = &self.segments[i];
        let blen = seg.bytes.len();
        let end = loc.offset + loc.len;
        let slice = vstd::slice::slice_subrange(seg.bytes.as_slice(), loc.offset, end);
        match decode_record_prefix(slice) {
            Ok((record, n)) => {
                proof {
                    assert(loc@.rec.enc() + Seq::<u8>::empty() =~= loc@.rec.enc());
                    assert(decode_of(slice@) == Some((loc@.rec.key, loc@.rec.val, loc@.len)));
                    assert(record@.key == loc@.rec.key && record@.val == loc@.rec.val);
                }
                record
            },
            Err(_) => {
                proof {
                    assert(loc@.rec.enc() + Seq::<u8>::empty() =~= loc@.rec.enc());
                    assert(false);
                }
                Record::Rm(String::new())
            },
        }
    }

    /// Retire the active segment and start a fresh, empty one.
    fn rotate(&mut self) -> (r: FileOp)
        requires
            old(self).wf(),
            old(self).next_name < u64::MAX,
        ensures
            final(self).wf(),
            final(self)@ == old(self)@,
            final(self).segments@.len() == old(self).segments@.len() + 1,
            final(self).bytes_in_active == 0,
            final(self).rotation_threshold == old(self).rotation_threshold,
            final(self).compaction_threshold == old(self).compaction_threshold,
            files_of(final(self).segments@) == apply_op(files_of(old(self).segments@), r),
            r == (FileOp::Create { name: old(self).next_name }),
    {
        let name = self.next_name;
        let ghost old_segs = self.segments@;
        self.segments.push(Segment { name, bytes: Vec::new(), recs: Ghost(Seq::empty()) });
        self.next_name = name + 1;
        self.bytes_in_active = 0;
        proof {
            let segs = self.segments@;
            assert(segs.drop_last() =~= old_segs);
            assert(all_located(segs) =~= all_located(old_segs));
            assert(forall|i: int, j: int|
                0 <= i < j < segs.len() ==> (#[trigger] segs[i]).name < (#[trigger] segs[j]).name)
                by {
                assert(forall|i: int|
                    0 <= i < old_segs.len() ==> (#[trigger] segs[i]).name == old_segs[i].name);
            }
            assert(files_of(segs) == files_of(old_segs).insert(name, Seq::<u8>::empty()));
        }
        FileOp::Create { name }
    }

    /// Rotate or compact once the active segment has outgrown the
    /// rotation threshold; otherwise do nothing.  With the name space
    /// exhausted (the name counter at its maximum) the oversized active
    /// segment stays in place.
    fn alloc_new_file_if_needed(&mut self) -> (r: Vec<FileOp>)
        requires
            old(self).wf(),
        ensures
            final(self).wf(),
            final(self)@ == old(self)@,
            final(self).rotation_threshold == old(self).rotation_threshold,
            final(self).compaction_threshold == old(self).compaction_threshold,
            files_of(final(self).segments@) == apply_ops(files_of(old(self).segments@), r@),
            !rotation_due(*old(self)) ==> *final(self) == *old(self) && r@.len() == 0,
            rotation_due(*old(self)) && !compaction_due(*old(self)) && old(self).next_name
                < u64::MAX ==> final(self).segments@.len() == old(self).segments@.len() + 1
                && final(self).bytes_in_active == 0,
            compaction_due(*old(self)) && old(self).next_name < u64::MAX
                ==> final(self).segments@.len() == 1,
    {
        if self.bytes_in_active > self.rotation_threshold {
            if self.segments.len() - 1 >= self.compaction_threshold {
                if self.next_name < u64::MAX {
                    // fold everything into one fresh segment
                    return self.compact_core();
                }
                let ops: Vec<FileOp> = Vec::new();
                return ops;
            } else if self.next_name < u64::MAX {
                let op = self.rotate();
                let mut ops: Vec<FileOp> = Vec::new();
                ops.push(op);
                proof {
                    assert(ops@ =~= seq![op]);
                    lemma_apply_ops_one(files_of(old(self).segments@), op);
                }
                return ops;
            } else {
                let ops: Vec<FileOp> = Vec::new();
                return ops;
            }
        }
        let ops: Vec<FileOp> = Vec::new();
        ops
    }

    /// Fold every live key's newest record into one fresh segment and
    /// retire all others.  The records' bytes are copied as they stand
    /// on disk, so the fold cannot fail.  The instructions create and
    /// fill the new segment first; the old segments are unlinked only
    /// after it, so a crash mid-apply never loses an acknowledged
    /// write.
    #[verifier::rlimit(100)]
    fn compact_core(&mut self) -> (r: Vec<FileOp>)
        requires
            old(self).wf(),
            old(self).next_name < u64::MAX,
        ensures
            final(self).wf(),
            final(self).rotation_threshold == old(self).rotation_threshold,
            final(self).compaction_threshold == old(self).compaction_threshold,
            final(self)@ == old(self)@,
            final(self).segments@.len() == 1,
            is_live_image(final(self).segments@[0].recs@, old(self)@),
            files_of(final(self).segments@) == apply_ops(files_of(old(self).segments@), r@),
            r@.len() == old(self).segments@.len() + 2,
            r@[0] == (FileOp::Create { name: final(self).segments@[0].name }),
            r@[1] is Append,
            forall|q: int| 2 <= q < r@.len() ==> (#[trigger] r@[q]) is Remove,
    {
        let new_name = self.next_name;
        let mut new_bytes: Vec<u8> = Vec::new();
        let ghost mut new_recs = Seq::<RecModel>::empty();
        let mut new_index = KeyIndex::new();
        let n = self.index.count();
        let ghost entries = self.index.entries@;
        let ghost live = live_of(self.index@);
        let mut i: usize = 0;
        while i < n
            invariant
                *self == *old(self),
                self.wf(),
                old(self).next_name < u64::MAX,
                new_name == self.next_name,
                entries == self.index.entries@,
                live == live_of(self.index@),
                n == entries.len(),
                i <= n,
                new_index.wf(),
                new_bytes@ == seg_bytes_of(new_recs),
                decodable(new_recs),
                new_index@ == replay(located(new_name, new_recs)),
                forall|j: int|
                    0 <= j < new_recs.len() ==> {
                        &&& (#[trigger] new_recs[j]).val is Some
                        &&& live.contains_key(new_recs[j].key)
                        &&& new_recs[j].val->Some_0 == live[new_recs[j].key]
                    },
                forall|a: int, b: int|
                    0 <= a < b < new_recs.len() ==> (#[trigger] new_recs[a]).key != (
                    #[trigger] new_recs[b]).key,
                forall|j: int|
                    0 <= j < new_recs.len() ==> exists|t: int|
                        0 <= t < i && (#[trigger] entries[t]).0@ == (#[trigger] new_recs[j]).key,
                forall|t: int|
                    0 <= t < i ==> (live.contains_key((#[trigger] entries[t]).0@) ==> exists|
                        j: int,
                    | 0 <= j < new_recs.len() && (#[trigger] new_recs[j]).key == entries[t].0@),
            decreases n - i,
        {
            let entry_key = self.index.entries[i].0.clone();
            let loc = self.index.entries[i].1;
            proof {
                lemma_entries_map_at(entries, i as int);
                lemma_replay_entry(all_located(self.segments@), entry_key@);
            }
            let record = self.read_at(loc);
            let ghost pre_recs = new_recs;
            match record {
                Record::Put(_, _) => {
                    // copy the record's bytes out of the segment that
                    // holds them: they are its encoding already
                    proof {
                        let j = choose|j: int|
                            0 <= j < all_located(self.segments@).len() && all_located(
                                self.segments@,
                            )[j] == loc@;
                        lemma_entry_in_segment(self.segments@, j);
                    }
                    let found = find_segment(&self.segments, loc.segment);
                    let src_idx = match found {
                        Some(si) => si,
                        None => {
                            proof {
                                let w = choose|w: int|
                                    0 <= w < self.segments@.len() && (
                                    #[trigger] self.segments@[w]).name == loc@.segment;
                                assert(false);
                            }
                            let dead: Vec<FileOp> = Vec::new();
                            return dead;
                        },
                    };
                    proof {
                        let w = choose|w: int|
                            {
                                &&& 0 <= w < self.segments@.len()
                                &&& (#[trigger] self.segments@[w]).name == loc@.segment
                                &&& loc@.offset + loc@.len <= self.segments@[w].bytes@.len()
                                &&& self.segments@[w].bytes@.subrange(
                                    loc@.offset as int,
                                    loc@.offset + loc@.len as int,
                                ) == loc@.rec.enc()
                                &&& loc@.len == loc@.rec.enc().len()
                                &&& rec_parses(loc@.rec)
                            };
                        assert(w == src_idx as int);
                    }
                    let seg = &self.segments[src_idx];
                    let blen = seg.bytes.len();
                    let end = loc.offset + loc.len;
                    let slice = vstd::slice::slice_subrange(seg.bytes.as_slice(), loc.offset, end);
                    let offset = new_bytes.len();
                    push_bytes(&mut new_bytes, slice);
                    let loc2 = Location {
                        segment: new_name,
                        offset,
                        len: loc.len,
                        rec: Ghost(loc@.rec),
                    };
                    proof {
                        assert(slice@ == loc@.rec.enc());
                        lemma_seg_push(new_name, pre_recs, loc@.rec);
                        lemma_replay_push(
                            located(new_name, pre_recs),
                            LocModel {
                                segment: new_name,
                                offset: seg_bytes_of(pre_recs).len(),
                                len: loc@.rec.enc().len(),
                                rec: loc@.rec,
                            },
                        );
                    }
                    new_index.upsert(entry_key, loc2);
                    proof {
                        lemma_compact_step(entries, live, pre_recs, loc@.rec, i as int);
                        new_recs = pre_recs.push(loc@.rec);
                    }
                },
                Record::Rm(_) => {
                    proof {
                        // a tombstone's key is not live, so nothing is written
                        assert(!live.contains_key(entry_key@));
                        assert(forall|t: int|
                            0 <= t < i + 1 ==> (live.contains_key((#[trigger] entries[t]).0@)
                                ==> exists|j: int|
                                0 <= j < new_recs.len() && (#[trigger] new_recs[j]).key
                                    == entries[t].0@));
                    }
                },
            }
            i += 1;
        }
        // emit the instructions: create and fill the new segment, then
        // unlink every old one
        let mut ops: Vec<FileOp> = Vec::new();
        ops.push(FileOp::Create { name: new_name });
        let bytes_copy = clone_bytes(&new_bytes);
        ops.push(FileOp::Append { name: new_name, bytes: bytes_copy });
        let ghost old_segs = self.segments@;
        let ghost base = files_of(old_segs);
        proof {
            assert(ops@.drop_last() =~= seq![ops@[0]]);
            lemma_apply_ops_one(base, ops@[0]);
            assert(Seq::<u8>::empty() + new_bytes@ =~= new_bytes@);
            assert(apply_ops(base, ops@) == base.insert(new_name, new_bytes@));
            assert(old_segs.take(old_segs.len() as int) =~= old_segs);
        }
        let m = self.segments.len();
        let mut t = m;
        while t > 0
            invariant
                *self == *old(self),
                self.wf(),
                old_segs == self.segments@,
                base == files_of(old_segs),
                new_name == self.next_name,
                m == old_segs.len(),
                t <= m,
                apply_ops(base, ops@) == files_of(old_segs.take(t as int)).insert(
                    new_name,
                    new_bytes@,
                ),
                ops@.len() == 2 + (m - t),
                ops@[0] == (FileOp::Create { name: new_name }),
                ops@[1] is Append,
                forall|q: int| 2 <= q < ops@.len() ==> (#[trigger] ops@[q]) is Remove,
            decreases t,
        {
            t -= 1;
            let name_t = self.segments[t].name;
            let ghost pre_ops = ops@;
            ops.push(FileOp::Remove { name: name_t });
            proof {
                assert(ops@.drop_last() =~= pre_ops);
                assert(forall|q: int| 0 <= q < pre_ops.len() ==> #[trigger] ops@[q] == pre_ops[q]);
                assert(ops@.last() == (FileOp::Remove { name: name_t }));
                assert(old_segs.take(t + 1).drop_last() =~= old_segs.take(t as int));
                assert(old_segs.take(t + 1).last() == old_segs[t as int]);
                assert(files_of(old_segs.take(t + 1)) == files_of(old_segs.take(t as int)).insert(
                    name_t,
                    old_segs[t as int].bytes@,
                ));
                lemma_files_of_contains(old_segs.take(t as int), name_t);
                assert(!files_of(old_segs.take(t as int)).contains_key(name_t)) by {
                    if exists|a: int|
                        0 <= a < old_segs.take(t as int).len() && (#[trigger] old_segs.take(
                            t as int,
                        )[a]).name == name_t {
                        let a = choose|a: int|
                            0 <= a < old_segs.take(t as int).len() && (#[trigger] old_segs.take(
                                t as int,
                            )[a]).name == name_t;
                        assert(old_segs[a].name == old_segs[t as int].name);
                    }
                }
                assert(name_t < new_name);
                assert(files_of(old_segs.take(t + 1)).insert(new_name, new_bytes@).remove(name_t)
                    =~= files_of(old_segs.take(t as int)).insert(new_name, new_bytes@));
            }
        }
        proof {
            assert(old_segs.take(0) =~= Seq::<Segment>::empty());
            assert(apply_ops(base, ops@) == Map::<u64, Seq<u8>>::empty().insert(
                new_name,
                new_bytes@,
            ));
        }
        // commit the new state
        let blen = new_bytes.len();
        let mut segs: Vec<Segment> = Vec::new();
        segs.push(Segment { name: new_name, bytes: new_bytes, recs: Ghost(new_recs) });
        self.segments = segs;
        self.index = new_index;
        self.bytes_in_active = blen;
        self.next_name = new_name + 1;
        proof {
            let seg = self.segments@[0];
            assert(self.segments@.drop_last() =~= Seq::<Segment>::empty());
            assert(seg == self.segments@.last());
            assert(seg.name == new_name && seg.recs@ == new_recs);
            assert(all_located(self.segments@) == all_located(self.segments@.drop_last())
                + located(new_name, new_recs));
            assert(all_located(Seq::<Segment>::empty()) == Seq::<LocModel>::empty());
            assert(all_located(self.segments@) =~= located(new_name, new_recs));
            assert(files_of(self.segments@) =~= Map::<u64, Seq<u8>>::empty().insert(
                new_name,
                new_bytes@,
            ));
            let r_map = replay(located(new_name, new_recs));
            lemma_located_len(new_name, new_recs);
            // every live key keeps its value in the new segment's replay
            assert forall|k: Seq<char>| #[trigger] live.contains_key(k) implies r_map.contains_key(
                k,
            ) && r_map[k].rec.val is Some && r_map[k].rec.val->Some_0 == live[k] by {
                lemma_entries_map_contains(entries, k);
                let t = choose|t: int|
                    0 <= t < entries.len() && (#[trigger] entries[t]).0@ == k;
                let j = choose|j: int|
                    0 <= j < new_recs.len() && (#[trigger] new_recs[j]).key == k;
                lemma_located_at(new_name, new_recs, j);
                lemma_replay_covers(located(new_name, new_recs), j);
                lemma_replay_entry(located(new_name, new_recs), k);
                let jj = choose|jj: int|
                    0 <= jj < located(new_name, new_recs).len() && located(new_name, new_recs)[jj]
                        == r_map[k];
                lemma_located_at(new_name, new_recs, jj);
                assert(r_map[k].rec == new_recs[jj]);
                assert(new_recs[jj].key == k);
            }
            // and the new replay mentions no key beyond the live ones
            assert forall|k: Seq<char>| #[trigger] r_map.contains_key(k) implies live.contains_key(
                k,
            ) by {
                lemma_replay_entry(located(new_name, new_recs), k);
                let jj = choose|jj: int|
                    0 <= jj < located(new_name, new_recs).len() && located(new_name, new_recs)[jj]
                        == r_map[k];
                lemma_located_at(new_name, new_recs, jj);
                assert(r_map[k].rec == new_recs[jj]);
                assert(new_recs[jj].key == k);
            }
            assert(live_of(r_map) =~= live);
            assert forall|k: Seq<char>| #[trigger] live.contains_key(k) implies exists|j: int|
                0 <= j < new_recs.len() && (#[trigger] new_recs[j]).key == k by {
                lemma_entries_map_contains(entries, k);
                let t = choose|t: int|
                    0 <= t < entries.len() && (#[trigger] entries[t]).0@ == k;
            }
            assert(old(self)@ == live);
            assert(is_live_image(new_recs, live));
        }
        ops
    }

    /// Open a store over the segment files read from a database
    /// directory, in any order.  The files are sorted by numeric name
    /// ascending and replayed oldest first; the newest becomes the
    /// active segment.  An empty directory gets one fresh segment,
    /// reported as a `Create` instruction; its name starts a counter
    /// seeded above every existing name (see `next_name`).  A file
    /// whose bytes are not a catenation of canonical record encodings
    /// fails the open.
    pub fn open(files: Vec<SegmentFile>) -> (r: Result<(KvStore, Vec<FileOp>), KvsError>)
        requires
            forall|i: int, j: int|
                0 <= i < j < files@.len() ==> (#[trigger] files@[i]).name != (
                #[trigger] files@[j]).name,
            forall|i: int| 0 <= i < files@.len() ==> (#[trigger] files@[i]).name < u64::MAX,
        ensures
            files@.len() == 0 ==> r is Ok,
            r matches Ok(t) ==> {
                &&& t.0.wf()
                &&& t.0.rotation_threshold == 1000000
                &&& t.0.compaction_threshold == 10
                &&& files_of(t.0.segments@) == apply_ops(file_map(files@), t.1@)
                &&& (files@.len() > 0 ==> t.1@.len() == 0)
                &&& (files@.len() == 0 ==> {
                    &&& t.0@ == Map::<Seq<char>, Seq<char>>::empty()
                    &&& t.0.segments@.len() == 1
                    &&& t.0.bytes_in_active == 0
                    &&& t.1@.len() == 1
                    &&& t.1@[0] is Create
                })
            },
            r matches Err(e) ==> e matches KvsError::SerializationError(_),
    {
        let ghost input0 = files@;
        let sorted = sort_files(files);
        if sorted.len() == 0 {
            let mut segs: Vec<Segment> = Vec::new();
            segs.push(Segment { name: 1, bytes: Vec::new(), recs: Ghost(Seq::empty()) });
            let store = KvStore {
                segments: segs,
                bytes_in_active: 0,
                index: KeyIndex::new(),
                next_name: 2,
                rotation_threshold: 1000000,
                compaction_threshold: 10,
            };
            let mut ops: Vec<FileOp> = Vec::new();
            ops.push(FileOp::Create { name: 1 });
            proof {
                assert(store.segments@.drop_last() =~= Seq::<Segment>::empty());
                assert(located(1u64, Seq::<RecModel>::empty()) =~= Seq::<LocModel>::empty());
                assert(all_located(store.segments@) == all_located(store.segments@.drop_last())
                    + located(store.segments@.last().name, store.segments@.last().recs@));
                assert(all_located(Seq::<Segment>::empty()) == Seq::<LocModel>::empty());
                assert(store.segments@.last().name == 1u64);
                assert(store.segments@.last().recs@ =~= Seq::<RecModel>::empty());
                assert(all_located(store.segments@) =~= Seq::<LocModel>::empty());
                assert(seg_bytes_of(Seq::<RecModel>::empty()) =~= Seq::<u8>::empty());
                assert(store.wf());
                assert(ops@ =~= seq![ops@[0]]);
                lemma_apply_ops_one(file_map(sorted@), ops@[0]);
                assert(files_of(store.segments@) == files_of(store.segments@.drop_last()).insert(
                    store.segments@.last().name,
                    store.segments@.last().bytes@,
                ));
                assert(files_of(Seq::<Segment>::empty()) == Map::<u64, Seq<u8>>::empty());
                assert(store.segments@.last().bytes@ =~= Seq::<u8>::empty());
                assert(files_of(store.segments@) =~= Map::<u64, Seq<u8>>::empty().insert(
                    1u64,
                    Seq::<u8>::empty(),
                ));
                assert(store@ =~= Map::<Seq<char>, Seq<char>>::empty());
            }
            return Ok((store, ops));
        }
        let mut index = KeyIndex::new();
        let mut segs: Vec<Segment> = Vec::new();
        let n = sorted.len();
        let mut i: usize = 0;
        proof {
            assert(all_located(segs@) =~= Seq::<LocModel>::empty());
            assert(files_of(segs@) =~= file_map(sorted@.take(0)));
        }
        while i < n
            invariant
                n == sorted@.len(),
                n == input0.len(),
                input0 == files@,
                n >= 1,
                forall|a: int, b: int|
                    0 <= a < b < sorted@.len() ==> (#[trigger] sorted@[a]).name < (
                    #[trigger] sorted@[b]).name,
                i <= n,
                segs@.len() == i,
                forall|j: int|
                    0 <= j < i ==> {
                        &&& (#[trigger] segs@[j]).wf()
                        &&& segs@[j].name == sorted@[j].name
                        &&& segs@[j].bytes@ == sorted@[j].bytes@
                    },
                index.wf(),
                index@ == replay(all_located(segs@)),
                files_of(segs@) == file_map(sorted@.take(i as int)),
            decreases n - i,
        {
            let ghost prior = all_located(segs@);
            let ghost pre_segs = segs@;
            let seg = match load_segment(&sorted[i], &mut index, Ghost(prior)) {
                Ok(s) => s,
                Err(e) => {
                    return Err(e);
                },
            };
            segs.push(seg);
            proof {
                assert(segs@.drop_last() =~= pre_segs);
                assert(all_located(segs@) == prior + located(
                    segs@.last().name,
                    segs@.last().recs@,
                ));
                assert(sorted@.take(i + 1).drop_last() =~= sorted@.take(i as int));
                assert(sorted@.take(i + 1).last() == sorted@[i as int]);
                assert(files_of(segs@) == file_map(sorted@.take(i + 1)));
            }
            i += 1;
        }
        let last_idx = segs.len() - 1;
        let active_len = segs[last_idx].bytes.len();
        let last_name = segs[last_idx].name;
        proof {
            // the last name came from some input file, so it is below the cap
            assert(sorted@.take(n as int) =~= sorted@);
            lemma_file_map_contains(sorted@, last_name);
            assert(file_map(sorted@).contains_key(last_name)) by {
                assert(sorted@[n - 1].name == last_name);
            }
            lemma_file_map_contains(input0, last_name);
        }
        let store = KvStore {
            segments: segs,
            bytes_in_active: active_len,
            index,
            next_name: last_name + 1,
            rotation_threshold: 1000000,
            compaction_threshold: 10,
        };
        proof {
            assert(forall|j: int|
                0 <= j < store.segments@.len() ==> (#[trigger] store.segments@[j]).name
                    <= last_name);
            assert(store.wf());
            assert(files_of(store.segments@) == file_map(sorted@));
        }
        Ok((store, Vec::new()))
    }

    /// Replace all segments by one that holds exactly the live keys
    /// with their newest records.  Fails with `Other` exactly when the
    /// name space is exhausted, leaving the store unchanged.  The
    /// instructions write the replacement segment before any old one
    /// is unlinked.
    pub fn compact(&mut self) -> (r: Result<Vec<FileOp>, KvsError>)
        requires
            old(self).wf(),
        ensures
            final(self).wf(),
            final(self).rotation_threshold == old(self).rotation_threshold,
            final(self).compaction_threshold == old(self).compaction_threshold,
            old(self).next_name < u64::MAX ==> r is Ok,
            old(self).next_name == u64::MAX ==> r matches Err(KvsError::Other),
            r matches Ok(ops) ==> {
                &&& final(self)@ == old(self)@
                &&& final(self).segments@.len() == 1
                &&& is_live_image(final(self).segments@[0].recs@, old(self)@)
                &&& files_of(final(self).segments@) == apply_ops(
                    files_of(old(self).segments@),
                    ops@,
                )
                &&& ops@.len() == old(self).segments@.len() + 2
                &&& ops@[0] == (FileOp::Create { name: final(self).segments@[0].name })
                &&& ops@[1] is Append
                &&& forall|q: int| 2 <= q < ops@.len() ==> (#[trigger] ops@[q]) is Remove
            },
            r is Err ==> *final(self) == *old(self),
    {
        if self.next_name == u64::MAX {
            return Err(KvsError::Other);
        }
        Ok(self.compact_core())
    }

    /// Encode one record, append it to the active segment, point the
    /// index at it, then consider rotation.
    fn append_record(&mut self, rec: Record, key: String) -> (r: Result<Vec<FileOp>, KvsError>)
        requires
            old(self).wf(),
            rec@.key == key@,
        ensures
            final(self).wf(),
            final(self).rotation_threshold == old(self).rotation_threshold,
            final(self).compaction_threshold == old(self).compaction_threshold,
            r matches Ok(ops) ==> {
                &&& final(self)@ == (if rec@.val is Some {
                    old(self)@.insert(rec@.key, rec@.val->Some_0)
                } else {
                    old(self)@.remove(rec@.key)
                })
                &&& files_of(final(self).segments@) == apply_ops(
                    files_of(old(self).segments@),
                    ops@,
                )
                &&& rotation_outcome(
                    *old(self),
                    *final(self),
                    (old(self).bytes_in_active + rec@.enc().len()) as nat,
                )
            },
            r matches Err(e) ==> e matches KvsError::SerializationError(_) && *final(self)
                == *old(self),
            !rec@.fits() ==> r is Err,
    {
        let encoded = encode_record(&rec);
        let e = match encoded {
            Ok(e) => e,
            Err(err) => {
                return Err(err);
            },
        };
        let elen = e.len();
        let ghost old_segs = self.segments@;
        let ghost old_index_map = self.index@;
        let mut active = self.segments.pop().unwrap();
        let offset = active.bytes.len();
        let ghost old_recs = active.recs@;
        push_bytes(&mut active.bytes, e.as_slice());
        let new_len = active.bytes.len();
        let seg_name = active.name;
        active.recs = Ghost(old_recs.push(rec@));
        self.segments.push(active);
        self.bytes_in_active = new_len;
        let loc = Location { segment: seg_name, offset, len: elen, rec: Ghost(rec@) };
        self.index.upsert(key, loc);
        let mut ops: Vec<FileOp> = Vec::new();
        ops.push(FileOp::Append { name: seg_name, bytes: e });
        proof {
            let n = old_segs.len();
            let act0 = old_segs.last();
            let act1 = self.segments@.last();
            assert(act0.wf());
            assert(self.segments@ =~= old_segs.update(n - 1, act1));
            lemma_seg_push(seg_name, old_recs, rec@);
            assert(act1.bytes@ == seg_bytes_of(act1.recs@));
            assert(decodable(act1.recs@)) by {
                assert(forall|j: int|
                    0 <= j < old_recs.len() ==> #[trigger] act1.recs@[j] == old_recs[j]);
                assert(act1.recs@.last() == rec@);
            }
            assert(forall|i: int|
                0 <= i < n - 1 ==> #[trigger] self.segments@[i] == old_segs[i]);
            let lm = LocModel {
                segment: seg_name,
                offset: seg_bytes_of(old_recs).len(),
                len: rec@.enc().len(),
                rec: rec@,
            };
            assert(lm.offset == offset as nat);
            assert(all_located(self.segments@) == all_located(old_segs.drop_last()) + located(
                seg_name,
                act1.recs@,
            )) by {
                assert(self.segments@.drop_last() =~= old_segs.drop_last());
            }
            assert(all_located(self.segments@) =~= all_located(old_segs).push(lm));
            lemma_replay_push(all_located(old_segs), lm);
            assert(loc@ == lm);
            assert(self.index@ == replay(all_located(self.segments@)));
            // the live view shifts exactly at the record's key
            if rec@.val is Some {
                assert(live_of(self.index@) =~= live_of(old_index_map).insert(
                    rec@.key,
                    rec@.val->Some_0,
                ));
            } else {
                assert(live_of(self.index@) =~= live_of(old_index_map).remove(rec@.key));
            }
            // the one append op turns the old directory image into the new
            assert(forall|a: int, b: int|
                0 <= a < b < old_segs.len() ==> (#[trigger] old_segs[a]).name != (
                #[trigger] old_segs[b]).name);
            lemma_files_of_update_last(old_segs, act1);
            lemma_files_of_at(old_segs, n - 1);
            assert(ops@ =~= seq![ops@[0]]);
            lemma_apply_ops_one(files_of(old_segs), ops@[0]);
            assert(files_of(self.segments@) == apply_ops(files_of(old_segs), ops@));
        }
        let ghost ops_head = ops@;
        let ghost mid = *self;
        let mut extra = self.alloc_new_file_if_needed();
        let ghost extra_ops = extra@;
        ops.append(&mut extra);
        proof {
            lemma_apply_ops_concat(files_of(old_segs), ops_head, extra_ops);
            assert(ops@ == ops_head + extra_ops);
            // the rotation policy, restated over the pre-append state
            let grown = (old(self).bytes_in_active + rec@.enc().len()) as nat;
            assert(mid.bytes_in_active == grown);
            assert(mid.segments@.len() == old(self).segments@.len());
            assert(rotation_outcome(*old(self), *self, grown)) by {
                assert(rotation_due(mid) <==> grown > old(self).rotation_threshold);
                assert(compaction_due(mid) <==> (grown > old(self).rotation_threshold && old(
                    self,
                ).segments@.len() - 1 >= old(self).compaction_threshold));
            }
        }
        Ok(ops)
    }

    /// Record `key = value`: append a `Put`, repoint the index, then
    /// evaluate the rotation policy (`rotation_outcome`).
    pub fn set(&mut self, key: String, value: String) -> (r: Result<Vec<FileOp>, KvsError>)
        requires
            old(self).wf(),
        ensures
            final(self).wf(),
            final(self).rotation_threshold == old(self).rotation_threshold,
            final(self).compaction_threshold == old(self).compaction_threshold,
            r matches Ok(ops) ==> {
                &&& final(self)@ == old(self)@.insert(key@, value@)
                &&& files_of(final(self).segments@) == apply_ops(
                    files_of(old(self).segments@),
                    ops@,
                )
                &&& rotation_outcome(
                    *old(self),
                    *final(self),
                    (old(self).bytes_in_active + encode_of(key@, Some(value@)).len()) as nat,
                )
            },
            r matches Err(e) ==> e matches KvsError::SerializationError(_) && *final(self)
                == *old(self),
            !crate::codec::fits_str_len(key@) || !crate::codec::fits_str_len(value@) ==> r is Err,
    {
        let rec = Record::Put(key.clone(), value);
        self.append_record(rec, key)
    }

    /// Remove `key`: fail with `NonExistantKey` if it is absent, else
    /// append an `Rm` tombstone, repoint the index at it, then
    /// evaluate the rotation policy (`rotation_outcome`).
    pub fn remove(&mut self, key: String) -> (r: Result<Vec<FileOp>, KvsError>)
        requires
            old(self).wf(),
        ensures
            final(self).wf(),
            final(self).rotation_threshold == old(self).rotation_threshold,
            final(self).compaction_threshold == old(self).compaction_threshold,
            r matches Ok(ops) ==> {
                &&& old(self)@.contains_key(key@)
                &&& final(self)@ == old(self)@.remove(key@)
                &&& files_of(final(self).segments@) == apply_ops(
                    files_of(old(self).segments@),
                    ops@,
                )
                &&& rotation_outcome(
                    *old(self),
                    *final(self),
                    (old(self).bytes_in_active + encode_of(key@, None).len()) as nat,
                )
            },
            (r matches Err(e) && e matches KvsError::NonExistantKey) <==> !old(
                self,
            )@.contains_key(key@),
            r matches Err(e) ==> *final(self) == *old(self) && (e matches KvsError::NonExistantKey
                || e matches KvsError::SerializationError(_)),
            !crate::codec::fits_str_len(key@) ==> r is Err,
    {
        let present = match self.get(key.clone()) {
            Ok(Some(_)) => true,
            _ => false,
        };
        if !present {
            return Err(KvsError::NonExistantKey);
        }
        let rec = Record::Rm(key.clone());
        self.append_record(rec, key)
    }

    /// Look the key up and, on a hit, read its newest record: a `Put`
    /// yields the stored value, an `Rm` tombstone means absent.
    pub fn get(&self, key: String) -> (r: Result<Option<String>, KvsError>)
        requires
            self.wf(),
        ensures
            r is Ok,
            match r {
                Ok(v) => match v {
                    Some(s) => self@.contains_key(key@) && s@ == self@[key@],
                    None => !self@.contains_key(key@),
                },
                Err(_) => false,
            },
    {
        match self.index.lookup(&key) {
            None => Ok(None),
            Some(loc) => {
                proof {
                    lemma_replay_entry(all_located(self.segments@), key@);
                }
                let record = self.read_at(loc);
                match record {
                    Record::Put(_, v) => Ok(Some(v)),
                    Record::Rm(_) => Ok(None),
                }
            },
        }
    }
}

} // verus!
