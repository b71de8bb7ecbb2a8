//! The store's laws, stated over the spec vocabulary its contracts
//! use: the live map (`KvStore::view`), the directory image
//! (`files_of`) and the record sequences.

use vstd::prelude::*;

use crate::codec::RecModel;
use crate::codec::rec_parses;
use crate::store::KvStore;
use crate::store::Segment;
use crate::store::all_located;
use crate::store::decodable;
use crate::store::files_of;
use crate::store::is_live_image;
use crate::store::lemma_files_of_at;
use crate::store::lemma_files_of_contains;
use crate::store::located;
use crate::store::seg_bytes_of;

verus! {

/// A record sequence's bytes split at the first record's encoding.
proof fn lemma_seg_bytes_first(recs: Seq<RecModel>)
    requires
        recs.len() > 0,
    ensures
        seg_bytes_of(recs) == recs[0].enc() + seg_bytes_of(recs.drop_first()),
    decreases recs.len(),
{
    if recs.len() == 1 {
        assert(recs.drop_last() =~= Seq::<RecModel>::empty());
        assert(recs.drop_first() =~= Seq::<RecModel>::empty());
        assert(recs.last() == recs[0]);
        assert(Seq::<u8>::empty() + recs[0].enc() =~= recs[0].enc());
        assert(recs[0].enc() + Seq::<u8>::empty() =~= recs[0].enc());
    } else {
        lemma_seg_bytes_first(recs.drop_last());
        assert(recs.drop_last()[0] == recs[0]);
        assert(recs.drop_last().drop_first() =~= recs.drop_first().drop_last());
        assert(recs.drop_first().last() == recs.last());
        assert(seg_bytes_of(recs.drop_first()) == seg_bytes_of(recs.drop_first().drop_last())
            + recs.last().enc());
        assert((recs[0].enc() + seg_bytes_of(recs.drop_first().drop_last())) + recs.last().enc()
            =~= recs[0].enc() + seg_bytes_of(recs.drop_first()));
    }
}

/// The codec's records parse back unambiguously, so a byte string is
/// the image of at most one record sequence.
proof fn lemma_parse_unique(r1: Seq<RecModel>, r2: Seq<RecModel>)
    requires
        decodable(r1),
        decodable(r2),
        seg_bytes_of(r1) == seg_bytes_of(r2),
    ensures
        r1 == r2,
    decreases r1.len(),
{
    if r1.len() == 0 {
        if r2.len() > 0 {
            lemma_seg_bytes_first(r2);
            assert(rec_parses(r2[0]));
            assert(seg_bytes_of(r2).len() >= 1);
        }
        assert(r1 =~= r2);
    } else if r2.len() == 0 {
        lemma_seg_bytes_first(r1);
        assert(rec_parses(r1[0]));
        assert(seg_bytes_of(r1).len() >= 1);
        assert(r1 =~= r2);
    } else {
        lemma_seg_bytes_first(r1);
        lemma_seg_bytes_first(r2);
        let a = r1[0];
        let b = r2[0];
        let bytes = seg_bytes_of(r1);
        assert(rec_parses(a));
        assert(rec_parses(b));
        let ta = seg_bytes_of(r1.drop_first());
        let tb = seg_bytes_of(r2.drop_first());
        assert(crate::codec::decode_of(a.enc() + ta) == Some((a.key, a.val, a.enc().len())));
        assert(crate::codec::decode_of(b.enc() + tb) == Some((b.key, b.val, b.enc().len())));
        assert(a.enc() + ta == bytes && b.enc() + tb == bytes);
        assert(a.key == b.key && a.val == b.val);
        assert(a == b);
        assert(ta =~= tb) by {
            assert(a.enc().len() == b.enc().len());
            assert(forall|i: int|
                0 <= i < ta.len() ==> #[trigger] ta[i] == bytes[i + a.enc().len()]);
            assert(forall|i: int|
                0 <= i < tb.len() ==> #[trigger] tb[i] == bytes[i + b.enc().len()]);
        }
        assert(decodable(r1.drop_first())) by {
            assert(forall|j: int|
                0 <= j < r1.drop_first().len() ==> #[trigger] r1.drop_first()[j] == r1[j + 1]);
        }
        assert(decodable(r2.drop_first())) by {
            assert(forall|j: int|
                0 <= j < r2.drop_first().len() ==> #[trigger] r2.drop_first()[j] == r2[j + 1]);
        }
        lemma_parse_unique(r1.drop_first(), r2.drop_first());
        assert(r1 =~= r2) by {
            assert(forall|i: int|
                1 <= i < r1.len() ==> #[trigger] r1[i] == r1.drop_first()[i - 1]);
            assert(forall|i: int|
                1 <= i < r2.len() ==> #[trigger] r2[i] == r2.drop_first()[i - 1]);
        }
    }
}

/// Two name-sorted, well-formed segment sequences that denote the same
/// directory image agree segment by segment: same names, same bytes,
/// same records.
proof fn lemma_files_determine_segments(s1: Seq<Segment>, s2: Seq<Segment>)
    requires
        forall|i: int, j: int|
            0 <= i < j < s1.len() ==> (#[trigger] s1[i]).name < (#[trigger] s1[j]).name,
        forall|i: int, j: int|
            0 <= i < j < s2.len() ==> (#[trigger] s2[i]).name < (#[trigger] s2[j]).name,
        forall|i: int| 0 <= i < s1.len() ==> (#[trigger] s1[i]).wf(),
        forall|i: int| 0 <= i < s2.len() ==> (#[trigger] s2[i]).wf(),
        files_of(s1) == files_of(s2),
    ensures
        s1.len() == s2.len(),
        forall|i: int|
            0 <= i < s1.len() ==> {
                &&& (#[trigger] s1[i]).name == (#[trigger] s2[i]).name
                &&& s1[i].bytes@ == s2[i].bytes@
                &&& s1[i].recs@ == s2[i].recs@
            },
    decreases s1.len(),
{
    if s1.len() == 0 && s2.len() > 0 {
        lemma_files_of_contains(s1, s2.last().name);
        lemma_files_of_contains(s2, s2.last().name);
        assert(s2[s2.len() - 1].name == s2.last().name);
    } else if s2.len() == 0 && s1.len() > 0 {
        lemma_files_of_contains(s1, s1.last().name);
        lemma_files_of_contains(s2, s1.last().name);
        assert(s1[s1.len() - 1].name == s1.last().name);
    } else if s1.len() > 0 && s2.len() > 0 {
        let n1 = s1.last().name;
        let n2 = s2.last().name;
        lemma_files_of_contains(s1, n1);
        lemma_files_of_contains(s2, n1);
        lemma_files_of_contains(s1, n2);
        lemma_files_of_contains(s2, n2);
        assert(s1[s1.len() - 1].name == n1);
        assert(s2[s2.len() - 1].name == n2);
        assert(n1 == n2) by {
            let j = choose|j: int| 0 <= j < s2.len() && (#[trigger] s2[j]).name == n1;
            assert(s2[j].name <= n2);
            let i = choose|i: int| 0 <= i < s1.len() && (#[trigger] s1[i]).name == n2;
            assert(s1[i].name <= n1);
        }
        lemma_files_of_at(s1, s1.len() - 1);
        lemma_files_of_at(s2, s2.len() - 1);
        assert(s1.last().bytes@ == s2.last().bytes@);
        assert(s1.last().wf() && s2.last().wf());
        lemma_parse_unique(s1.last().recs@, s2.last().recs@);
        lemma_files_of_contains(s1.drop_last(), n1);
        lemma_files_of_contains(s2.drop_last(), n2);
        assert(!files_of(s1.drop_last()).contains_key(n1)) by {
            if exists|a: int|
                0 <= a < s1.drop_last().len() && (#[trigger] s1.drop_last()[a]).name == n1 {
                let a = choose|a: int|
                    0 <= a < s1.drop_last().len() && (#[trigger] s1.drop_last()[a]).name == n1;
                assert(s1[a].name == s1[s1.len() - 1].name);
            }
        }
        assert(!files_of(s2.drop_last()).contains_key(n2)) by {
            if exists|a: int|
                0 <= a < s2.drop_last().len() && (#[trigger] s2.drop_last()[a]).name == n2 {
                let a = choose|a: int|
                    0 <= a < s2.drop_last().len() && (#[trigger] s2.drop_last()[a]).name == n2;
                assert(s2[a].name == s2[s2.len() - 1].name);
            }
        }
        assert(files_of(s1.drop_last()) =~= files_of(s1).remove(n1));
        assert(files_of(s2.drop_last()) =~= files_of(s2).remove(n2));
        lemma_files_determine_segments(s1.drop_last(), s2.drop_last());
        assert(forall|i: int| 0 <= i < s1.len() - 1 ==> #[trigger] s1[i] == s1.drop_last()[i]);
        assert(forall|i: int| 0 <= i < s2.len() - 1 ==> #[trigger] s2[i] == s2.drop_last()[i]);
    }
}

/// The located records of a segment sequence depend only on each
/// segment's name and records.
proof fn lemma_all_located_congruent(s1: Seq<Segment>, s2: Seq<Segment>)
    requires
        s1.len() == s2.len(),
        forall|i: int|
            0 <= i < s1.len() ==> (#[trigger] s1[i]).name == (#[trigger] s2[i]).name && s1[i].recs@
                == s2[i].recs@,
    ensures
        all_located(s1) == all_located(s2),
    decreases s1.len(),
{
    if s1.len() > 0 {
        assert(forall|i: int|
            0 <= i < s1.drop_last().len() ==> #[trigger] s1.drop_last()[i] == s1[i]
                && #[trigger] s2.drop_last()[i] == s2[i]);
        lemma_all_located_congruent(s1.drop_last(), s2.drop_last());
        assert(s1[s1.len() - 1].name == s2[s2.len() - 1].name);
        assert(s1[s1.len() - 1].recs@ == s2[s2.len() - 1].recs@);
        assert(located(s1.last().name, s1.last().recs@) == located(
            s2.last().name,
            s2.last().recs@,
        ));
    }
}

/// Persistence: two well-formed stores over the same directory image
/// hold the same live map.  `KvStore::open` keeps the image it is
/// given and returns a well-formed store, so closing a store and
/// reopening it from the files it maintained yields identical `get`
/// results for every key.
pub proof fn lemma_same_files_same_view(s1: KvStore, s2: KvStore)
    requires
        s1.wf(),
        s2.wf(),
        files_of(s1.segments@) == files_of(s2.segments@),
    ensures
        s1@ == s2@,
{
    lemma_files_determine_segments(s1.segments@, s2.segments@);
    lemma_all_located_congruent(s1.segments@, s2.segments@);
}

/// Setting a key and then reading it yields the value just written:
/// a successful `set(k, v)` turns the live map into `insert(k, v)`,
/// and `get(k)` returns exactly what that map holds at `k`.
pub proof fn lemma_set_then_get(m: Map<Seq<char>, Seq<char>>, k: Seq<char>, v: Seq<char>)
    ensures
        m.insert(k, v).contains_key(k),
        m.insert(k, v)[k] == v,
{
}

/// Overwriting: after two `set`s on the same key, `get` returns the
/// second value.
pub proof fn lemma_set_twice(
    m: Map<Seq<char>, Seq<char>>,
    k: Seq<char>,
    v1: Seq<char>,
    v2: Seq<char>,
)
    ensures
        m.insert(k, v1).insert(k, v2).contains_key(k),
        m.insert(k, v1).insert(k, v2)[k] == v2,
{
}

/// Setting then removing a key leaves it absent: `get` reports "not
/// present" after a successful `remove`.
pub proof fn lemma_set_then_remove(m: Map<Seq<char>, Seq<char>>, k: Seq<char>, v: Seq<char>)
    ensures
        !m.insert(k, v).remove(k).contains_key(k),
{
}

/// Operations on distinct keys do not interfere: a `set` or `remove`
/// of `k1` leaves what `get(k2)` observes unchanged.  This is the
/// per-key independence behind the store's linearizable-per-key
/// guarantee; the arbitration itself lives with the caller that shares
/// the handle.
pub proof fn lemma_distinct_keys_independent(
    m: Map<Seq<char>, Seq<char>>,
    k1: Seq<char>,
    k2: Seq<char>,
    v: Seq<char>,
)
    requires
        k1 != k2,
    ensures
        m.insert(k1, v).contains_key(k2) == m.contains_key(k2),
        m.contains_key(k2) ==> m.insert(k1, v)[k2] == m[k2],
        m.remove(k1).contains_key(k2) == m.contains_key(k2),
        m.contains_key(k2) ==> m.remove(k1)[k2] == m[k2],
{
}

/// The total length of the records' encodings.
pub open spec fn total_enc_len(recs: Seq<RecModel>) -> nat
    decreases recs.len(),
{
    if recs.len() == 0 {
        0
    } else {
        total_enc_len(recs.drop_last()) + recs.last().enc().len()
    }
}

/// A segment's bytes are as long as its records' encodings together.
pub proof fn lemma_seg_bytes_len(recs: Seq<RecModel>)
    ensures
        seg_bytes_of(recs).len() == total_enc_len(recs),
    decreases recs.len(),
{
    if recs.len() > 0 {
        lemma_seg_bytes_len(recs.drop_last());
    }
}

/// Compaction is size-reducing: a compacted store's single segment
/// holds exactly one `Put` record per live key, so the bytes on disk
/// are exactly the sum, over the live keys, of those records' encoded
/// lengths - never more.
pub proof fn lemma_compaction_size(s: KvStore)
    requires
        s.wf(),
        s.segments@.len() == 1,
        is_live_image(s.segments@[0].recs@, s@),
    ensures
        s.segments@[0].bytes@.len() == total_enc_len(s.segments@[0].recs@),
        forall|j: int|
            0 <= j < s.segments@[0].recs@.len() ==> (#[trigger] s.segments@[0].recs@[j]).enc()
                == crate::codec::encode_of(
                s.segments@[0].recs@[j].key,
                Some(s@[s.segments@[0].recs@[j].key]),
            ),
{
    assert(s.segments@[0] == s.segments@.last());
    assert(s.segments@[0].wf());
    lemma_seg_bytes_len(s.segments@[0].recs@);
}

/// After a shutdown compaction the directory holds exactly one
/// segment file: the active one, with the segment's bytes.
pub proof fn lemma_single_segment_directory(s: KvStore)
    requires
        s.wf(),
        s.segments@.len() == 1,
    ensures
        files_of(s.segments@).dom() =~= set![s.segments@[0].name],
        files_of(s.segments@)[s.segments@[0].name] == s.segments@[0].bytes@,
{
    assert(s.segments@.drop_last() =~= Seq::<crate::store::Segment>::empty());
    assert(files_of(s.segments@) == files_of(s.segments@.drop_last()).insert(
        s.segments@.last().name,
        s.segments@.last().bytes@,
    ));
}

} // verus!
