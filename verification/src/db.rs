use vstd::prelude::*;
use crate::data::data_file::{DataFile, DataFileView};
use crate::data::log_record::{
    lemma_decode_bounds, lemma_decode_encode, lemma_decode_prefix, rec_encodable, spec_decode,
    spec_encode, spec_torn, torn_at, LogRecord, LogRecordPos, LogRecordType, LogRecordView,
};
use crate::errors::Errors;
use crate::index::{Indexer, Keydir};
use crate::bytes_ext::{bytes_from_vec, bytes_len, bytes_to_vec, bytes_view};
use bytes::Bytes;

verus! {

/// Configuration of an engine, fixed at `open`.
#[derive(Debug)]
pub struct Options {
    /// Directory in which the caller keeps the segment files.
    pub dir_path: String,
    /// Upper bound on the size of one segment; an append that would cross it
    /// rotates to a new segment first.
    pub data_file_size: u64,
    /// Whether every append is flushed before returning.
    pub sync_writes: bool,
}

/// Validates options: an empty directory path and a zero segment bound are
/// rejected, in that order.
pub fn check_options(opts: &Options) -> (r: Option<Errors>)
    ensures
        r == if opts.dir_path@.len() == 0 {
            Some(Errors::DirPathEmpty)
        } else if opts.data_file_size == 0 {
            Some(Errors::DataFileSizeIllegal)
        } else {
            None::<Errors>
        },
{
    if opts.dir_path.as_str().is_empty() {
        return Some(Errors::DirPathEmpty);
    }
    if opts.data_file_size == 0 {
        return Some(Errors::DataFileSizeIllegal);
    }
    None
}

/// The effect of one replayed record on the index: a live record points its
/// key at the record, a tombstone removes the key.
pub open spec fn apply_record(
    m: Map<Seq<u8>, LogRecordPos>,
    rv: LogRecordView,
    pos: LogRecordPos,
) -> Map<Seq<u8>, LogRecordPos> {
    if rv.rec_type == LogRecordType::NORMAL {
        m.insert(rv.key, pos)
    } else {
        m.remove(rv.key)
    }
}

/// Replays the records of segment `fid` from offset `off` on, folding each
/// into the index `m`; stops at the end or at the first byte that does not
/// open a valid record.
pub open spec fn replay_seg(
    m: Map<Seq<u8>, LogRecordPos>,
    fid: u32,
    s: Seq<u8>,
    off: int,
) -> Map<Seq<u8>, LogRecordPos>
    decreases s.len() - off,
    when 0 <= off <= s.len()
    via replay_seg_dec
{
    if off >= s.len() {
        m
    } else {
        match spec_decode(s.skip(off)) {
            None => m,
            Some((rv, n)) => replay_seg(
                apply_record(m, rv, LogRecordPos { file_id: fid, offset: off as u64 }),
                fid,
                s,
                off + n,
            ),
        }
    }
}

#[via_fn]
proof fn replay_seg_dec(m: Map<Seq<u8>, LogRecordPos>, fid: u32, s: Seq<u8>, off: int) {
    if 0 <= off < s.len() {
        match spec_decode(s.skip(off)) {
            None => {},
            Some((rv, n)) => {
                lemma_decode_bounds(s.skip(off), rv, n);
            },
        }
    }
}

/// Whether `s` from offset `off` on is exactly a concatenation of valid
/// records.
pub open spec fn wf_log(s: Seq<u8>, off: int) -> bool
    decreases s.len() - off,
    when 0 <= off <= s.len()
    via wf_log_dec
{
    if off == s.len() {
        true
    } else {
        match spec_decode(s.skip(off)) {
            None => false,
            Some((rv, n)) => wf_log(s, off + n),
        }
    }
}

#[via_fn]
proof fn wf_log_dec(s: Seq<u8>, off: int) {
    if 0 <= off < s.len() {
        match spec_decode(s.skip(off)) {
            None => {},
            Some((rv, n)) => {
                lemma_decode_bounds(s.skip(off), rv, n);
            },
        }
    }
}

/// Appending one whole record to a clean log keeps it clean, and replaying
/// the longer log applies that record, at the old tail, after everything the
/// shorter log replays.
pub proof fn lemma_log_extend(
    m: Map<Seq<u8>, LogRecordPos>,
    fid: u32,
    s: Seq<u8>,
    off: int,
    unit: Seq<u8>,
    rv: LogRecordView,
)
    requires
        0 <= off <= s.len(),
        wf_log(s, off),
        spec_decode(unit) == Some((rv, unit.len() as int)),
        s.len() + unit.len() <= u64::MAX,
    ensures
        wf_log(s + unit, off),
        replay_seg(m, fid, s + unit, off) == apply_record(
            replay_seg(m, fid, s, off),
            rv,
            LogRecordPos { file_id: fid, offset: s.len() as u64 },
        ),
    decreases s.len() - off,
{
    lemma_decode_bounds(unit, rv, unit.len() as int);
    let big = s + unit;
    if off == s.len() {
        assert(big.skip(off) =~= unit);
        assert(spec_decode(big.skip(off)) == Some((rv, unit.len() as int)));
        let pos = LogRecordPos { file_id: fid, offset: off as u64 };
        assert(replay_seg(m, fid, big, off) == replay_seg(
            apply_record(m, rv, pos),
            fid,
            big,
            off + unit.len(),
        ));
        assert(off + unit.len() == big.len());
        assert(replay_seg(apply_record(m, rv, pos), fid, big, off + unit.len()) == apply_record(
            m,
            rv,
            pos,
        ));
        assert(replay_seg(m, fid, s, off) == m);
        assert(wf_log(big, off + unit.len()));
        assert(wf_log(big, off));
    } else {
        let (rv0, n0) = spec_decode(s.skip(off))->Some_0;
        lemma_decode_bounds(s.skip(off), rv0, n0);
        assert((s + unit).skip(off).take(n0) =~= s.skip(off).take(n0));
        lemma_decode_prefix(s.skip(off), (s + unit).skip(off), rv0, n0);
        let m0 = apply_record(m, rv0, LogRecordPos { file_id: fid, offset: off as u64 });
        lemma_log_extend(m0, fid, s, off + n0, unit, rv);
        assert(replay_seg(m, fid, big, off) == replay_seg(m0, fid, big, off + n0));
        assert(replay_seg(m, fid, s, off) == replay_seg(m0, fid, s, off + n0));
    }
}

/// Whether segment ids strictly increase along the sequence.
pub open spec fn fids_sorted(segs: Seq<DataFileView>) -> bool {
    forall|i: int, j: int| 0 <= i < j < segs.len() ==> segs[i].file_id < segs[j].file_id
}

/// Whether every segment is exactly a concatenation of valid records.
pub open spec fn all_logs_wf(segs: Seq<DataFileView>) -> bool {
    forall|i: int| 0 <= i < segs.len() ==> wf_log(#[trigger] segs[i].data, 0)
}

/// What the record at position `p` of segment `sv` must look like for the
/// index entry `k -> p` to be right: a live record whose key is `k`.
pub open spec fn pos_decodes(sv: DataFileView, k: Seq<u8>, p: LogRecordPos) -> bool {
    &&& p.offset < sv.data.len()
    &&& match spec_decode(sv.data.skip(p.offset as int)) {
        Some((rv, n)) => rv.key == k && rv.rec_type == LogRecordType::NORMAL,
        None => false,
    }
}

/// An index entry `k -> p` is valid for `segs`: some segment carries `p`'s
/// file id, and every segment carrying it holds a live record for `k` there.
pub open spec fn pos_valid(segs: Seq<DataFileView>, k: Seq<u8>, p: LogRecordPos) -> bool {
    &&& exists|i: int| 0 <= i < segs.len() && #[trigger] segs[i].file_id == p.file_id
    &&& forall|i: int|
        0 <= i < segs.len() && #[trigger] segs[i].file_id == p.file_id ==> pos_decodes(
            segs[i],
            k,
            p,
        )
}

/// Every entry of the index `m` is valid for `segs`.
pub open spec fn positions_valid(segs: Seq<DataFileView>, m: Map<Seq<u8>, LogRecordPos>) -> bool {
    forall|k: Seq<u8>| #[trigger] m.contains_key(k) ==> pos_valid(segs, k, m[k])
}

/// The value of the record at position `p` of segment `sv`.
pub open spec fn value_at_seg(sv: DataFileView, p: LogRecordPos) -> Seq<u8> {
    match spec_decode(sv.data.skip(p.offset as int)) {
        Some((rv, n)) => rv.value,
        None => Seq::empty(),
    }
}

/// The value stored at position `p`: the record's value in the first segment
/// carrying `p`'s file id.
pub open spec fn value_at(segs: Seq<DataFileView>, p: LogRecordPos) -> Seq<u8>
    decreases segs.len(),
{
    if segs.len() == 0 {
        Seq::empty()
    } else if segs[0].file_id == p.file_id {
        value_at_seg(segs[0], p)
    } else {
        value_at(segs.drop_first(), p)
    }
}

/// Replays all segments in order, oldest first, over an empty index.
pub open spec fn replay_all(segs: Seq<DataFileView>) -> Map<Seq<u8>, LogRecordPos>
    decreases segs.len(),
{
    if segs.len() == 0 {
        Map::empty()
    } else {
        replay_seg(replay_all(segs.drop_last()), segs.last().file_id, segs.last().data, 0)
    }
}

/// The key/value mapping that the index `m` denotes over `segs`.
pub open spec fn kv_of(segs: Seq<DataFileView>, m: Map<Seq<u8>, LogRecordPos>) -> Map<
    Seq<u8>,
    Seq<u8>,
> {
    Map::new(|k: Seq<u8>| m.contains_key(k), |k: Seq<u8>| value_at(segs, m[k]))
}

/// Whether `sv2` is `sv1` itself or `sv1` grown at the tail, under the same
/// id.
pub open spec fn seg_extends(sv1: DataFileView, sv2: DataFileView) -> bool {
    &&& sv2.file_id == sv1.file_id
    &&& (sv2.data == sv1.data || (sv2.data.len() >= sv1.data.len() && sv2.data.take(
        sv1.data.len() as int,
    ) == sv1.data))
}

/// Whether `segs2` extends `segs1` segment-for-segment: each old segment
/// keeps its id and either keeps its bytes or grows at the tail.
pub open spec fn segs_frame(segs1: Seq<DataFileView>, segs2: Seq<DataFileView>) -> bool {
    &&& segs2.len() >= segs1.len()
    &&& forall|i: int| 0 <= i < segs1.len() ==> seg_extends(segs1[i], #[trigger] segs2[i])
}

/// When `p`'s file id sits only in the last segment, the value at `p` is read
/// there.
proof fn lemma_value_at_last(segs: Seq<DataFileView>, p: LogRecordPos)
    requires
        segs.len() > 0,
        forall|i: int| 0 <= i < segs.len() - 1 ==> #[trigger] segs[i].file_id != p.file_id,
        segs.last().file_id == p.file_id,
    ensures
        value_at(segs, p) == value_at_seg(segs.last(), p),
    decreases segs.len(),
{
    if segs.len() == 1 {
    } else {
        assert(segs[0].file_id != p.file_id);
        assert(forall|i: int|
            0 <= i < segs.drop_first().len() - 1 ==> #[trigger] segs.drop_first()[i].file_id
                != p.file_id) by {
            assert(forall|i: int|
                0 <= i < segs.drop_first().len() ==> segs.drop_first()[i] == segs[i + 1]);
        }
        assert(segs.drop_first().last() == segs.last());
        lemma_value_at_last(segs.drop_first(), p);
    }
}

/// A frame rule for positions: if every old segment keeps its id and either
/// keeps its bytes or grows at the tail, and every added segment carries a
/// different id, then a valid position stays valid and keeps its value.
proof fn lemma_pos_frame(
    segs1: Seq<DataFileView>,
    segs2: Seq<DataFileView>,
    k: Seq<u8>,
    p: LogRecordPos,
)
    requires
        pos_valid(segs1, k, p),
        segs_frame(segs1, segs2),
        forall|i: int|
            segs1.len() <= i < segs2.len() ==> #[trigger] segs2[i].file_id != p.file_id,
    ensures
        pos_valid(segs2, k, p),
        value_at(segs2, p) == value_at(segs1, p),
    decreases segs1.len(),
{
    let iw = choose|i: int| 0 <= i < segs1.len() && #[trigger] segs1[i].file_id == p.file_id;
    assert(segs2[iw].file_id == p.file_id);
    assert forall|i: int|
        0 <= i < segs2.len() && #[trigger] segs2[i].file_id == p.file_id implies pos_decodes(
        segs2[i],
        k,
        p,
    ) by {
        assert(i < segs1.len());
        assert(segs1[i].file_id == p.file_id);
        assert(pos_decodes(segs1[i], k, p));
        lemma_pos_decodes_extend(segs1[i], segs2[i], k, p);
    }
    lemma_value_at_frame(segs1, segs2, k, p);
}

/// `pos_decodes` survives growing a segment at the tail, and the record
/// there is unchanged.
proof fn lemma_pos_decodes_extend(sv1: DataFileView, sv2: DataFileView, k: Seq<u8>, p: LogRecordPos)
    requires
        pos_decodes(sv1, k, p),
        sv2.data == sv1.data || (sv2.data.len() >= sv1.data.len() && sv2.data.take(
            sv1.data.len() as int,
        ) == sv1.data),
    ensures
        pos_decodes(sv2, k, p),
        value_at_seg(sv2, p) == value_at_seg(sv1, p),
{
    if sv2.data == sv1.data {
    } else {
        let off = p.offset as int;
        let (rv, n) = spec_decode(sv1.data.skip(off))->Some_0;
        lemma_decode_bounds(sv1.data.skip(off), rv, n);
        assert(sv2.data.skip(off).take(n) =~= sv1.data.skip(off).take(n)) by {
            assert(forall|j: int|
                0 <= j < sv1.data.len() ==> #[trigger] sv2.data[j] == sv1.data.take(
                    sv1.data.len() as int,
                )[j]);
        }
        lemma_decode_prefix(sv1.data.skip(off), sv2.data.skip(off), rv, n);
    }
}

/// The value-reading part of the frame rule.
proof fn lemma_value_at_frame(
    segs1: Seq<DataFileView>,
    segs2: Seq<DataFileView>,
    k: Seq<u8>,
    p: LogRecordPos,
)
    requires
        pos_valid(segs1, k, p),
        segs_frame(segs1, segs2),
    ensures
        value_at(segs2, p) == value_at(segs1, p),
    decreases segs1.len(),
{
    let iw = choose|i: int| 0 <= i < segs1.len() && #[trigger] segs1[i].file_id == p.file_id;
    if segs1[0].file_id == p.file_id {
        assert(segs2[0].file_id == p.file_id);
        assert(pos_decodes(segs1[0], k, p));
        lemma_pos_decodes_extend(segs1[0], segs2[0], k, p);
    } else {
        assert(segs2[0].file_id != p.file_id);
        let t1 = segs1.drop_first();
        let t2 = segs2.drop_first();
        assert(forall|i: int| 0 <= i < t1.len() ==> t1[i] == segs1[i + 1] && #[trigger] t2[i]
            == segs2[i + 1]);
        assert(iw >= 1 && t1[iw - 1].file_id == p.file_id);
        assert forall|i: int| 0 <= i < t1.len() implies seg_extends(t1[i], #[trigger] t2[i]) by {
            assert(t1[i] == segs1[i + 1]);
            assert(t2[i] == segs2[i + 1]);
            assert(seg_extends(segs1[i + 1], segs2[i + 1]));
        }
        assert(segs_frame(t1, t2));
        assert(pos_valid(t1, k, p)) by {
            assert(forall|i: int|
                0 <= i < t1.len() && #[trigger] t1[i].file_id == p.file_id ==> pos_decodes(
                    t1[i],
                    k,
                    p,
                ));
        }
        lemma_value_at_frame(t1, t2, k, p);
    }
}

/// Whether an append would push the active segment past the bound, so that a
/// rotation is due; ids exhausted, the active segment grows instead.
pub open spec fn rotation_due(s1: Seq<DataFileView>, enc: Seq<u8>, bound: u64) -> bool {
    s1.last().data.len() + enc.len() > bound && s1.last().file_id < u32::MAX
}

/// Exactly how one append changes the segments: when a rotation is due, the
/// old segments are all kept unchanged and one new segment — id one higher,
/// holding exactly the encoded record — becomes active; otherwise only the
/// active segment changes, by exactly the encoded record at its tail. Frozen
/// segments are never modified either way.
pub open spec fn engine_step(
    s1: Seq<DataFileView>,
    s2: Seq<DataFileView>,
    enc: Seq<u8>,
    bound: u64,
) -> bool {
    let last = s1.last();
    if rotation_due(s1, enc, bound) {
        s2 == s1.push(DataFileView { file_id: (last.file_id + 1) as u32, data: enc })
    } else {
        s2 == s1.update(s1.len() - 1, DataFileView { file_id: last.file_id, data: last.data + enc })
    }
}

/// The position an append gets: offset zero of the next segment when a
/// rotation is due, else the active segment's tail.
pub open spec fn step_pos(s1: Seq<DataFileView>, enc: Seq<u8>, bound: u64) -> LogRecordPos {
    let last = s1.last();
    if rotation_due(s1, enc, bound) {
        LogRecordPos { file_id: (last.file_id + 1) as u32, offset: 0u64 }
    } else {
        LogRecordPos { file_id: last.file_id, offset: last.data.len() as u64 }
    }
}

/// The storage engine: configuration, one active segment, the frozen
/// segments in ascending id order, and the in-memory index.
#[derive(Debug)]
pub struct Engine {
    options: Options,
    active_file: DataFile,
    older_files: Vec<DataFile>,
    index: Keydir,
}

impl Engine {
    /// All segments, frozen ones first in ascending id order, the active one
    /// last.
    pub closed spec fn segs(&self) -> Seq<DataFileView> {
        self.older_files@.map_values(|f: DataFile| f@).push(self.active_file@)
    }

    /// The engine's configuration.
    pub closed spec fn spec_options(&self) -> Options {
        self.options
    }

    /// The index as a mapping.
    pub closed spec fn index_view(&self) -> Map<Seq<u8>, LogRecordPos> {
        self.index.index_view()
    }

    /// Structural well-formedness of the segments alone: ids strictly
    /// increase (so the active segment's id is the largest), the active id
    /// has headroom to rotate, the segment bound is positive, and every
    /// segment is a clean concatenation of records.
    pub closed spec fn files_wf(&self) -> bool {
        &&& self.options.data_file_size >= 1
        &&& fids_sorted(self.segs())
        &&& all_logs_wf(self.segs())
    }

    /// Full well-formedness: the files are well-formed, and the index is
    /// exactly what replaying every segment in id order produces, each entry
    /// naming a live record whose key is the entry's key.
    pub closed spec fn wf(&self) -> bool {
        &&& self.files_wf()
        &&& self.index.inv()
        &&& self.index.index_view() == replay_all(self.segs())
        &&& positions_valid(self.segs(), self.index.index_view())
    }

    /// The key/value mapping the engine holds.
    pub closed spec fn kv(&self) -> Map<Seq<u8>, Seq<u8>> {
        kv_of(self.segs(), self.index.index_view())
    }

    /// The id of the active segment.
    pub fn active_file_id(&self) -> (r: u32)
        ensures
            r == self.segs().last().file_id,
    {
        self.active_file.get_file_id()
    }

    /// The append offset of the active segment.
    pub fn active_write_off(&self) -> (r: u64)
        ensures
            r == self.segs().last().data.len(),
    {
        self.active_file.get_write_off()
    }

    /// Appends the encoded record to the active segment, rotating first if
    /// the append would push the segment past the configured bound, and
    /// returns the record's position.
    #[verifier::rlimit(100)]
    fn append_log_record(&mut self, record: &LogRecord) -> (r: Result<LogRecordPos, Errors>)
        requires
            old(self).files_wf(),
            rec_encodable(record@.key, record@.value),
        ensures
            final(self).files_wf(),
            final(self).options == old(self).options,
            final(self).index == old(self).index,
            r matches Ok(pos) && ({
                let enc = spec_encode(record@.key, record@.value, record@.rec_type);
                let bound = old(self).options.data_file_size;
                &&& engine_step(old(self).segs(), final(self).segs(), enc, bound)
                &&& pos == step_pos(old(self).segs(), enc, bound)
                &&& pos.file_id == final(self).segs().last().file_id
                &&& pos.offset + enc.len() == final(self).segs().last().data.len()
                &&& spec_decode(final(self).segs().last().data.skip(pos.offset as int)) == Some(
                    (record@, enc.len() as int),
                )
                &&& replay_all(final(self).segs()) == apply_record(
                    replay_all(old(self).segs()),
                    record@,
                    pos,
                )
                &&& segs_frame(old(self).segs(), final(self).segs())
                &&& forall|i: int|
                    old(self).segs().len() <= i < final(self).segs().len()
                        ==> final(self).segs()[i].file_id > old(self).segs().last().file_id
            }),
    {
        let ghost old_segs = self.segs();
        let enc_record = record.encode();
        let record_len = enc_record.len() as u64;
        let write_off_now = self.active_file.get_write_off();
        proof {
            lemma_decode_encode(record@.key, record@.value, record@.rec_type, Seq::empty());
            assert(spec_encode(record@.key, record@.value, record@.rec_type) + Seq::<u8>::empty()
                =~= spec_encode(record@.key, record@.value, record@.rec_type));
        }
        let current_fid = self.active_file.get_file_id();
        if (record_len > self.options.data_file_size || write_off_now
            > self.options.data_file_size - record_len) && current_fid < u32::MAX {
            // The record will not fit: freeze the active segment and open a
            // fresh one with the next id. With segment ids exhausted the
            // active segment keeps growing instead.
            match self.active_file.sync() {
                Ok(()) => (),
                Err(e) => {
                    return Err(e);
                },
            }
            let mut new_file = DataFile::new(current_fid + 1, Vec::new());
            core::mem::swap(&mut self.active_file, &mut new_file);
            self.older_files.push(new_file);
            proof {
                let segs2 = self.segs();
                assert(segs2.drop_last() =~= old_segs);
                assert(segs2 =~= old_segs.push(
                    DataFileView {
                        file_id: (old_segs.last().file_id + 1) as u32,
                        data: Seq::empty(),
                    },
                ));
                assert(forall|i: int| 0 <= i < old_segs.len() ==> #[trigger] segs2[i] == old_segs[i]);
                assert(segs2.last().data.len() == 0);
                assert(replay_all(segs2) == replay_all(old_segs));
                assert(segs_frame(old_segs, segs2));
                assert forall|i: int| 0 <= i < segs2.len() implies wf_log(
                    #[trigger] segs2[i].data,
                    0,
                ) by {
                    if i < old_segs.len() {
                        assert(segs2[i] == old_segs[i]);
                        assert(wf_log(old_segs[i].data, 0));
                    } else {
                        assert(segs2[i].data.len() == 0);
                        assert(wf_log(segs2[i].data, 0));
                    }
                }
                assert(all_logs_wf(segs2));
                assert forall|i: int, j: int| 0 <= i < j < segs2.len() implies segs2[i].file_id
                    < segs2[j].file_id by {
                    if j < old_segs.len() {
                        assert(old_segs[i].file_id < old_segs[j].file_id);
                    } else {
                        assert(old_segs[i].file_id <= old_segs.last().file_id);
                    }
                }
                assert(fids_sorted(segs2));
            }
        }
        let ghost mid_segs = self.segs();
        let write_off = self.active_file.get_write_off();
        match self.active_file.write(&enc_record) {
            Ok(_) => (),
            Err(e) => {
                return Err(e);
            },
        }
        let new_off = self.active_file.get_write_off();
        proof {
            let enc = spec_encode(record@.key, record@.value, record@.rec_type);
            let fid = self.active_file@.file_id;
            let segs2 = self.segs();
            let base = replay_all(mid_segs.drop_last());
            assert(self.active_file@.data.len() == new_off);
            lemma_log_extend(base, fid, mid_segs.last().data, 0, enc, record@);
            assert(segs2.drop_last() =~= mid_segs.drop_last());
            assert(segs2.last().data == mid_segs.last().data + enc);
            assert(forall|i: int|
                0 <= i < mid_segs.len() - 1 ==> #[trigger] segs2[i] == mid_segs[i]);
            assert(segs_frame(mid_segs, segs2)) by {
                assert(segs2.last().data.take(mid_segs.last().data.len() as int)
                    =~= mid_segs.last().data);
            }
            assert forall|i: int| 0 <= i < segs2.len() implies wf_log(
                #[trigger] segs2[i].data,
                0,
            ) by {
                if i < segs2.len() - 1 {
                    assert(segs2[i] == mid_segs[i]);
                    assert(wf_log(mid_segs[i].data, 0));
                } else {
                    assert(wf_log(mid_segs.last().data + enc, 0));
                }
            }
            assert(all_logs_wf(segs2));
            assert forall|i: int, j: int| 0 <= i < j < segs2.len() implies segs2[i].file_id
                < segs2[j].file_id by {
                assert(mid_segs[i].file_id < mid_segs[j].file_id);
                assert(segs2[i].file_id == mid_segs[i].file_id);
                assert(segs2[j].file_id == mid_segs[j].file_id);
            }
            assert(fids_sorted(segs2));
            assert(segs2.last().data.skip(write_off as int) =~= enc);
            assert(replay_all(segs2) == replay_seg(
                replay_all(segs2.drop_last()),
                segs2.last().file_id,
                segs2.last().data,
                0,
            ));
            assert(replay_all(segs2.drop_last()) == base);
            assert(replay_all(mid_segs) == replay_seg(base, fid, mid_segs.last().data, 0));
            assert(replay_all(segs2) == apply_record(
                replay_all(mid_segs),
                record@,
                LogRecordPos { file_id: fid, offset: write_off },
            ));
        }
        if self.options.sync_writes {
            match self.active_file.sync() {
                Ok(()) => (),
                Err(e) => {
                    return Err(e);
                },
            }
        }
        let fid = self.active_file.get_file_id();
        proof {
            let enc = spec_encode(record@.key, record@.value, record@.rec_type);
            let bound = old(self).options.data_file_size;
            assert(segs_frame(old_segs, self.segs()));
            if rotation_due(old_segs, enc, bound) {
                assert(mid_segs == old_segs.push(
                    DataFileView { file_id: (old_segs.last().file_id + 1) as u32, data: Seq::empty() },
                ));
                assert(self.segs() =~= old_segs.push(
                    DataFileView { file_id: (old_segs.last().file_id + 1) as u32, data: enc },
                )) by {
                    assert(Seq::<u8>::empty() + enc =~= enc);
                }
            } else {
                assert(mid_segs == old_segs);
                assert(self.segs() =~= old_segs.update(
                    old_segs.len() - 1,
                    DataFileView {
                        file_id: old_segs.last().file_id,
                        data: old_segs.last().data + enc,
                    },
                ));
            }
            assert(engine_step(old_segs, self.segs(), enc, bound));
            assert(LogRecordPos { file_id: fid, offset: write_off } == step_pos(
                old_segs,
                enc,
                bound,
            ));
        }
        Ok(LogRecordPos { file_id: fid, offset: write_off })
    }

    /// Stores `value` under `key`. An empty key is rejected; otherwise a live
    /// record is appended and the index points the key at it.
    pub fn put(&mut self, key: Bytes, value: Bytes) -> (r: Result<(), Errors>)
        requires
            old(self).wf(),
            rec_encodable(bytes_view(key), bytes_view(value)),
        ensures
            final(self).wf(),
            final(self).spec_options() == old(self).spec_options(),
            bytes_view(key).len() == 0 ==> r == Err::<(), Errors>(Errors::KeyIsEmpty)
                && *final(self) == *old(self),
            bytes_view(key).len() > 0 ==> r == Ok::<(), Errors>(())
                && final(self).kv() == old(self).kv().insert(bytes_view(key), bytes_view(value)),
            bytes_view(key).len() > 0 ==> ({
                let enc = spec_encode(bytes_view(key), bytes_view(value), LogRecordType::NORMAL);
                let bound = old(self).spec_options().data_file_size;
                &&& engine_step(old(self).segs(), final(self).segs(), enc, bound)
                &&& final(self).index_view() == old(self).index_view().insert(
                    bytes_view(key),
                    step_pos(old(self).segs(), enc, bound),
                )
            }),
    {
        if bytes_len(&key) == 0 {
            return Err(Errors::KeyIsEmpty);
        }
        let record = LogRecord {
            key: bytes_to_vec(&key),
            value: bytes_to_vec(&value),
            rec_type: LogRecordType::NORMAL,
        };
        let ghost old_segs = self.segs();
        let ghost old_iv = self.index.index_view();
        let log_record_pos = match self.append_log_record(&record) {
            Ok(p) => p,
            Err(e) => {
                return Err(e);
            },
        };
        let ok = self.index.put(bytes_to_vec(&key), log_record_pos);
        if !ok {
            return Err(Errors::IndexUpdateFailed);
        }
        proof {
            let k = bytes_view(key);
            let v = bytes_view(value);
            let iv = self.index.index_view();
            assert(iv == replay_all(self.segs()));
            assert(positions_valid(self.segs(), iv)) by {
                assert forall|k2: Seq<u8>| #[trigger] iv.contains_key(k2) implies pos_valid(
                    self.segs(),
                    k2,
                    iv[k2],
                ) by {
                    if k2 == k {
                        let last = self.segs().len() - 1;
                        assert(self.segs()[last].file_id == log_record_pos.file_id);
                        assert(forall|i: int|
                            0 <= i < last ==> #[trigger] self.segs()[i].file_id
                                != log_record_pos.file_id);
                        assert(pos_decodes(self.segs()[last], k, log_record_pos));
                    } else {
                        assert(old_iv.contains_key(k2) && iv[k2] == old_iv[k2]);
                        assert(pos_valid(old_segs, k2, old_iv[k2]));
                        lemma_pos_frame(old_segs, self.segs(), k2, old_iv[k2]);
                    }
                }
            }
            assert(final(self).kv() =~= old(self).kv().insert(k, v)) by {
                assert forall|k2: Seq<u8>| #[trigger] iv.contains_key(k2) implies kv_of(
                    self.segs(),
                    iv,
                )[k2] == old(self).kv().insert(k, v)[k2] by {
                    if k2 == k {
                        let last = self.segs().len() - 1;
                        assert(forall|i: int|
                            0 <= i < last ==> #[trigger] self.segs()[i].file_id
                                != log_record_pos.file_id);
                        lemma_value_at_last(self.segs(), log_record_pos);
                        assert(value_at_seg(self.segs().last(), log_record_pos) == v);
                    } else {
                        assert(pos_valid(old_segs, k2, old_iv[k2]));
                        lemma_pos_frame(old_segs, self.segs(), k2, old_iv[k2]);
                    }
                }
            }
        }
        Ok(())
    }
}

/// When the first segment carrying `p`'s file id is `segs[i]`, the value at
/// `p` is read there.
proof fn lemma_value_at_first(segs: Seq<DataFileView>, p: LogRecordPos, i: int)
    requires
        0 <= i < segs.len(),
        segs[i].file_id == p.file_id,
        forall|j: int| 0 <= j < i ==> #[trigger] segs[j].file_id != p.file_id,
    ensures
        value_at(segs, p) == value_at_seg(segs[i], p),
    decreases segs.len(),
{
    if i == 0 {
    } else {
        let t = segs.drop_first();
        assert(forall|j: int| 0 <= j < t.len() ==> #[trigger] t[j] == segs[j + 1]);
        lemma_value_at_first(t, p, i - 1);
    }
}

impl Engine {
    /// Reads the value stored under `key`. An empty key is rejected; a key
    /// with no live record reports `KeyNotFound`.
    pub fn get(&self, key: Bytes) -> (r: Result<Bytes, Errors>)
        requires
            self.wf(),
        ensures
            bytes_view(key).len() == 0 ==> r == Err::<Bytes, Errors>(Errors::KeyIsEmpty),
            bytes_view(key).len() > 0 && self.kv().contains_key(bytes_view(key)) ==> (r matches Ok(
                v,
            ) && bytes_view(v) == self.kv()[bytes_view(key)]),
            bytes_view(key).len() > 0 && !self.kv().contains_key(bytes_view(key)) ==> r == Err::<
                Bytes,
                Errors,
            >(Errors::KeyNotFound),
    {
        let ghost k = bytes_view(key);
        if bytes_len(&key) == 0 {
            return Err(Errors::KeyIsEmpty);
        }
        let pos = match self.index.get(bytes_to_vec(&key)) {
            None => {
                return Err(Errors::KeyNotFound);
            },
            Some(p) => p,
        };
        proof {
            assert(self.index.index_view().contains_key(k));
            assert(pos_valid(self.segs(), k, pos));
        }
        let log_record = if self.active_file.get_file_id() == pos.file_id {
            proof {
                let last = self.segs().len() - 1;
                assert(self.segs()[last].file_id == pos.file_id);
                assert(pos_decodes(self.segs()[last], k, pos));
                assert(forall|j: int|
                    0 <= j < last ==> #[trigger] self.segs()[j].file_id != pos.file_id);
                lemma_value_at_first(self.segs(), pos, last);
            }
            match self.active_file.read_log_record(pos.offset) {
                Ok((rec, _)) => rec,
                Err(e) => {
                    return Err(e);
                },
            }
        } else {
            let mut i: usize = 0;
            while i < self.older_files.len()
                invariant
                    self.wf(),
                    pos_valid(self.segs(), k, pos),
                    self.index.index_view().contains_key(k),
                    pos == self.index.index_view()[k],
                    k == bytes_view(key),
                    k.len() > 0,
                    self.segs().last().file_id != pos.file_id,
                    i <= self.older_files@.len(),
                    forall|j: int|
                        0 <= j < i ==> #[trigger] self.older_files@[j]@.file_id != pos.file_id,
                decreases self.older_files@.len() - i,
            {
                if self.older_files[i].get_file_id() == pos.file_id {
                    proof {
                        assert(self.segs()[i as int] == self.older_files@[i as int]@);
                        assert(pos_decodes(self.segs()[i as int], k, pos));
                        assert(forall|j: int|
                            0 <= j < i ==> #[trigger] self.segs()[j] == self.older_files@[j]@);
                        lemma_value_at_first(self.segs(), pos, i as int);
                    }
                    match self.older_files[i].read_log_record(pos.offset) {
                        Ok((rec, _)) => {
                            if rec.rec_type == LogRecordType::DELETED {
                                // Defensive: the index never points at a tombstone.
                                return Err(Errors::KeyNotFound);
                            }
                            return Ok(bytes_from_vec(rec.value));
                        },
                        Err(e) => {
                            return Err(e);
                        },
                    }
                }
                i = i + 1;
            }
            proof {
                let iw = choose|iw: int|
                    0 <= iw < self.segs().len() && #[trigger] self.segs()[iw].file_id
                        == pos.file_id;
                assert(iw < self.segs().len() - 1);
                assert(self.segs()[iw] == self.older_files@[iw]@);
                assert(false);
            }
            return Err(Errors::DataFileNotFound);
        };
        if log_record.rec_type == LogRecordType::DELETED {
            // Defensive: the index never points at a tombstone.
            return Err(Errors::KeyNotFound);
        }
        Ok(bytes_from_vec(log_record.value))
    }

    /// Removes `key`. An empty key is rejected; a key with no live record is
    /// already gone and the call succeeds without writing. Otherwise a
    /// tombstone is appended and the index entry removed.
    pub fn delete(&mut self, key: Bytes) -> (r: Result<(), Errors>)
        requires
            old(self).wf(),
            rec_encodable(bytes_view(key), Seq::empty()),
        ensures
            final(self).wf(),
            final(self).spec_options() == old(self).spec_options(),
            bytes_view(key).len() == 0 ==> r == Err::<(), Errors>(Errors::KeyIsEmpty)
                && *final(self) == *old(self),
            bytes_view(key).len() > 0 ==> r == Ok::<(), Errors>(())
                && final(self).kv() == old(self).kv().remove(bytes_view(key)),
            bytes_view(key).len() > 0 && !old(self).kv().contains_key(bytes_view(key))
                ==> *final(self) == *old(self),
            bytes_view(key).len() > 0 && old(self).kv().contains_key(bytes_view(key)) ==> ({
                let enc = spec_encode(bytes_view(key), Seq::empty(), LogRecordType::DELETED);
                let bound = old(self).spec_options().data_file_size;
                &&& engine_step(old(self).segs(), final(self).segs(), enc, bound)
                &&& final(self).index_view() == old(self).index_view().remove(bytes_view(key))
            }),
    {
        let ghost k = bytes_view(key);
        if bytes_len(&key) == 0 {
            return Err(Errors::KeyIsEmpty);
        }
        let pos = self.index.get(bytes_to_vec(&key));
        if pos.is_none() {
            proof {
                assert(self.kv().remove(k) =~= self.kv());
            }
            return Ok(());
        }
        let record = LogRecord {
            key: bytes_to_vec(&key),
            value: Vec::new(),
            rec_type: LogRecordType::DELETED,
        };
        let ghost old_segs = self.segs();
        let ghost old_iv = self.index.index_view();
        match self.append_log_record(&record) {
            Ok(p) => p,
            Err(e) => {
                return Err(e);
            },
        };
        let _present = self.index.delete(bytes_to_vec(&key));
        proof {
            let iv = self.index.index_view();
            assert(iv == replay_all(self.segs()));
            assert(positions_valid(self.segs(), iv)) by {
                assert forall|k2: Seq<u8>| #[trigger] iv.contains_key(k2) implies pos_valid(
                    self.segs(),
                    k2,
                    iv[k2],
                ) by {
                    assert(k2 != k);
                    assert(old_iv.contains_key(k2) && iv[k2] == old_iv[k2]);
                    assert(pos_valid(old_segs, k2, old_iv[k2]));
                    lemma_pos_frame(old_segs, self.segs(), k2, old_iv[k2]);
                }
            }
            assert(final(self).kv() =~= old(self).kv().remove(k)) by {
                assert forall|k2: Seq<u8>| #[trigger] iv.contains_key(k2) implies kv_of(
                    self.segs(),
                    iv,
                )[k2] == old(self).kv().remove(k)[k2] by {
                    assert(pos_valid(old_segs, k2, old_iv[k2]));
                    lemma_pos_frame(old_segs, self.segs(), k2, old_iv[k2]);
                }
            }
        }
        Ok(())
    }

    /// Flushes the active segment. The in-memory state is always current; a
    /// caller that mirrors segments to storage performs the durable flush.
    pub fn sync(&self) -> (r: Result<(), Errors>)
        ensures
            r == Ok::<(), Errors>(()),
    {
        self.active_file.sync()
    }

    /// Syncs and closes the engine, handing out every segment, frozen ones
    /// first in ascending id order and the active one last, so the caller can
    /// persist them or reopen from them.
    pub fn close(self) -> (r: Result<Vec<DataFile>, Errors>)
        requires
            self.wf(),
        ensures
            r matches Ok(files) && files@.map_values(|f: DataFile| f@) == self.segs(),
    {
        match self.active_file.sync() {
            Ok(()) => (),
            Err(e) => {
                return Err(e);
            },
        }
        let ghost me = self;
        let Engine { options, active_file, older_files, index } = self;
        let mut files = older_files;
        files.push(active_file);
        proof {
            assert(files@.map_values(|f: DataFile| f@) =~= me.segs());
        }
        Ok(files)
    }
}

/// Whether `v` is the view of one of the files in `s`.
pub open spec fn view_in(v: DataFileView, s: Seq<DataFile>) -> bool {
    exists|i: int| 0 <= i < s.len() && v == #[trigger] s[i]@
}

/// Sorts segments into ascending id order; ids must be pairwise distinct.
fn sort_data_files(files: Vec<DataFile>) -> (r: Vec<DataFile>)
    requires
        forall|i: int, j: int|
            0 <= i < j < files@.len() ==> files@[i]@.file_id != files@[j]@.file_id,
    ensures
        r@.len() == files@.len(),
        fids_sorted(r@.map_values(|f: DataFile| f@)),
        forall|i: int| 0 <= i < r@.len() ==> view_in(#[trigger] r@[i]@, files@),
        forall|j: int| 0 <= j < files@.len() ==> view_in(#[trigger] files@[j]@, r@),
        fids_sorted(files@.map_values(|f: DataFile| f@)) ==> r@ == files@,
{
    let ghost orig = files@;
    let mut rest = files;
    let mut r: Vec<DataFile> = Vec::new();
    while rest.len() > 0
        invariant
            rest@.len() + r@.len() == orig.len(),
            forall|j: int| 0 <= j < rest@.len() ==> rest@[j] == orig[j + r@.len()],
            forall|i: int, j: int| 0 <= i < j < orig.len() ==> orig[i]@.file_id != orig[j]@.file_id,
            forall|i: int, j: int|
                0 <= i < j < r@.len() ==> r@[i]@.file_id != r@[j]@.file_id,
            fids_sorted(r@.map_values(|f: DataFile| f@)),
            forall|i: int| 0 <= i < r@.len() ==> view_in(#[trigger] r@[i]@, orig.take(r@.len() as int)),
            forall|j: int| 0 <= j < r@.len() ==> view_in(#[trigger] orig[j]@, r@),
            fids_sorted(orig.map_values(|f: DataFile| f@)) ==> r@ == orig.take(r@.len() as int),
        decreases rest@.len(),
    {
        let ghost t = r@.len() as int;
        let f = rest.remove(0);
        assert(f == orig[t]);
        assert forall|i: int| 0 <= i < r@.len() implies r@[i]@.file_id != f@.file_id by {
            assert(view_in(r@[i]@, orig.take(t)));
            let j = choose|j: int| 0 <= j < orig.take(t).len() && r@[i]@ == orig.take(t)[j]@;
            assert(orig[j]@.file_id != orig[t]@.file_id);
        }
        let ghost old_r = r@;
        let mut p: usize = 0;
        while p < r.len() && r[p].get_file_id() < f.get_file_id()
            invariant
                r@ == old_r,
                p <= r@.len(),
                forall|q: int| 0 <= q < p ==> #[trigger] r@[q]@.file_id < f@.file_id,
            decreases r@.len() - p,
        {
            p = p + 1;
        }
        proof {
            old_r.insert_ensures(p as int, f);
        }
        r.insert(p, f);
        proof {
            let rv = r@.map_values(|g: DataFile| g@);
            assert forall|i: int, j: int| 0 <= i < j < rv.len() implies rv[i].file_id
                < rv[j].file_id by {
                let a = if i < p { old_r[i]@ } else if i == p { f@ } else { old_r[i - 1]@ };
                let b = if j < p { old_r[j]@ } else if j == p { f@ } else { old_r[j - 1]@ };
                assert(r@[i]@ == a && r@[j]@ == b);
                if j == p {
                    assert(old_r[i]@.file_id < f@.file_id);
                } else if i == p {
                    assert(p < old_r.len());
                    assert(old_r[p as int]@.file_id >= f@.file_id);
                    if j - 1 > p {
                        let orv = old_r.map_values(|g: DataFile| g@);
                        assert(orv[p as int].file_id < orv[j - 1].file_id);
                    }
                    assert(old_r[j - 1]@.file_id >= f@.file_id);
                    assert(old_r[j - 1]@.file_id != f@.file_id);
                } else if i < p && j > p {
                    let orv = old_r.map_values(|g: DataFile| g@);
                    assert(orv[i].file_id < orv[j - 1].file_id);
                } else {
                    let orv = old_r.map_values(|g: DataFile| g@);
                    if i < p {
                        assert(orv[i].file_id < orv[j].file_id);
                    } else {
                        assert(orv[i - 1].file_id < orv[j - 1].file_id);
                    }
                }
            }
            assert forall|i: int| 0 <= i < r@.len() implies view_in(
                #[trigger] r@[i]@,
                orig.take(r@.len() as int),
            ) by {
                let cut = orig.take(r@.len() as int);
                if i == p {
                    assert(r@[i]@ == cut[t]@);
                } else {
                    let i0 = if i < p {
                        i
                    } else {
                        i - 1
                    };
                    assert(r@[i] == old_r[i0]);
                    assert(view_in(old_r[i0]@, orig.take(t)));
                    let j = choose|j: int|
                        0 <= j < orig.take(t).len() && old_r[i0]@ == orig.take(t)[j]@;
                    assert(r@[i]@ == cut[j]@);
                }
            }
            if fids_sorted(orig.map_values(|g: DataFile| g@)) {
                let ov = orig.map_values(|g: DataFile| g@);
                assert(old_r == orig.take(t));
                assert(p == t) by {
                    if p < t {
                        assert(old_r[p as int] == orig[p as int]);
                        assert(ov[p as int].file_id < ov[t].file_id);
                        assert(old_r[p as int]@.file_id >= f@.file_id);
                        assert(false);
                    }
                }
                assert(r@ =~= orig.take(t + 1));
            }
            assert forall|j: int| 0 <= j < r@.len() implies view_in(#[trigger] orig[j]@, r@) by {
                if j == t {
                    assert(orig[j]@ == r@[p as int]@);
                } else {
                    assert(view_in(orig[j]@, old_r));
                    let i0 = choose|i: int| 0 <= i < old_r.len() && orig[j]@ == old_r[i]@;
                    let i1 = if i0 < p {
                        i0
                    } else {
                        i0 + 1
                    };
                    assert(r@[i1] == old_r[i0]);
                    assert(orig[j]@ == r@[i1]@);
                }
            }
        }
    }
    r
}

impl Engine {
    /// Replays one segment into the index, record by record from offset zero.
    /// Returns the offset of the first byte that does not open a valid
    /// record, or the segment's length if it reads cleanly.
    fn replay_file(index: &mut Keydir, f: &DataFile) -> (r: u64)
        requires
            old(index).inv(),
        ensures
            final(index).inv(),
            r <= f@.data.len(),
            wf_log(f@.data.take(r as int), 0),
            final(index).index_view() == replay_seg(
                old(index).index_view(),
                f@.file_id,
                f@.data.take(r as int),
                0,
            ),
            r == f@.data.len() || spec_decode(f@.data.skip(r as int)) is None,
            forall|k: Seq<u8>| #[trigger] final(index).index_view().contains_key(k) ==> ((old(
                index,
            ).index_view().contains_key(k) && final(index).index_view()[k] == old(
                index,
            ).index_view()[k]) || (final(index).index_view()[k].file_id == f@.file_id
                && pos_decodes(
                DataFileView { file_id: f@.file_id, data: f@.data.take(r as int) },
                k,
                final(index).index_view()[k],
            ))),
    {
        let ghost m0 = index.index_view();
        let ghost fid = f@.file_id;
        let mut off: u64 = 0;
        loop
            invariant
                index.inv(),
                m0 == old(index).index_view(),
                0 <= off <= f@.data.len(),
                wf_log(f@.data.take(off as int), 0),
                index.index_view() == replay_seg(m0, fid, f@.data.take(off as int), 0),
                fid == f@.file_id,
                forall|k: Seq<u8>| #[trigger] index.index_view().contains_key(k) ==> ((
                m0.contains_key(k) && index.index_view()[k] == m0[k]) || (
                index.index_view()[k].file_id == fid && pos_decodes(
                    DataFileView { file_id: fid, data: f@.data.take(off as int) },
                    k,
                    index.index_view()[k],
                ))),
            decreases f@.data.len() - off,
        {
            let write_off = f.get_write_off();
            if off == write_off {
                proof {
                    assert(f@.data.take(off as int) =~= f@.data);
                }
                return off;
            }
            let (rec, n) = match f.read_log_record(off) {
                Ok(x) => x,
                Err(e) => {
                    return off;
                },
            };
            let ghost prev = f@.data.take(off as int);
            let ghost unit = f@.data.subrange(off as int, off + n);
            let ghost iv = index.index_view();
            proof {
                assert(unit.take(n as int) =~= f@.data.skip(off as int).take(n as int));
                lemma_decode_prefix(f@.data.skip(off as int), unit, rec@, n as int);
                lemma_log_extend(m0, fid, prev, 0, unit, rec@);
                assert(prev + unit =~= f@.data.take(off + n));
                assert(replay_seg(m0, fid, f@.data.take(off + n), 0) == apply_record(
                    replay_seg(m0, fid, prev, 0),
                    rec@,
                    LogRecordPos { file_id: fid, offset: off },
                ));
            }
            let pos = LogRecordPos { file_id: f.get_file_id(), offset: off };
            let ghost recv = rec@;
            match rec.rec_type {
                LogRecordType::NORMAL => {
                    let ok = index.put(rec.key, pos);
                    if !ok {
                        proof {
                            assert(false);
                        }
                        return off;
                    }
                },
                LogRecordType::DELETED => {
                    index.delete(rec.key);
                },
            }
            proof {
                let cur = DataFileView { file_id: fid, data: f@.data.take(off + n) };
                let prev_view = DataFileView { file_id: fid, data: prev };
                assert(cur.data.skip(off as int) =~= unit);
                assert forall|k: Seq<u8>| #[trigger] index.index_view().contains_key(k) implies ((
                m0.contains_key(k) && index.index_view()[k] == m0[k]) || (
                index.index_view()[k].file_id == fid && pos_decodes(
                    cur,
                    k,
                    index.index_view()[k],
                ))) by {
                    if k == recv.key && recv.rec_type == LogRecordType::NORMAL {
                        assert(pos_decodes(cur, k, pos));
                    } else {
                        assert(iv.contains_key(k) && index.index_view()[k] == iv[k]);
                        if !(m0.contains_key(k) && iv[k] == m0[k]) {
                            assert(pos_decodes(prev_view, k, iv[k]));
                            assert(seg_extends(prev_view, cur)) by {
                                assert(cur.data.take(prev.len() as int) =~= prev);
                            }
                            lemma_pos_decodes_extend(prev_view, cur, k, iv[k]);
                        }
                    }
                }
            }
            off = off + n as u64;
        }
    }

    /// Opens an engine over the given segments (their ids must be pairwise
    /// distinct; an empty set starts a fresh store). Validates the options,
    /// sorts the segments into id order, makes the one with the largest id
    /// active, and rebuilds the index by replaying every record. A segment
    /// that stops mid-record is fatal, except at the tail of the active
    /// segment, which is truncated to its last whole record.
    #[verifier::rlimit(100)]
    #[verifier::spinoff_prover]
    pub fn open(opts: Options, files: Vec<DataFile>) -> (r: Result<Engine, Errors>)
        requires
            forall|i: int, j: int|
                0 <= i < j < files@.len() ==> files@[i]@.file_id != files@[j]@.file_id,
        ensures
            r is Err ==> (r == Err::<Engine, Errors>(Errors::DirPathEmpty) || r == Err::<
                Engine,
                Errors,
            >(Errors::DataFileSizeIllegal) || r == Err::<Engine, Errors>(Errors::Corrupted)),
            (r == Err::<Engine, Errors>(Errors::DirPathEmpty)) <==> opts.dir_path@.len() == 0,
            (r == Err::<Engine, Errors>(Errors::DataFileSizeIllegal)) <==> (opts.dir_path@.len()
                > 0 && opts.data_file_size == 0),
            (r == Err::<Engine, Errors>(Errors::Corrupted)) <==> (opts.dir_path@.len() > 0
                && opts.data_file_size > 0 && !replayable(files@)),
            (opts.dir_path@.len() > 0 && opts.data_file_size > 0 && replayable(files@)) ==> r
                is Ok,
            r matches Ok(e) ==> ({
                &&& e.wf()
                &&& e.spec_options() == opts
                &&& e.index_view() == replay_all(e.segs())
                &&& e.kv() == kv_of(e.segs(), e.index_view())
                &&& (files@.len() == 0 ==> e.segs() == seq![
                    DataFileView { file_id: 0u32, data: Seq::<u8>::empty() },
                ])
                &&& (files@.len() > 0 ==> ({
                    &&& e.segs().len() == files@.len()
                    &&& (forall|i: int|
                        0 <= i < files@.len() - 1 ==> view_in(#[trigger] e.segs()[i], files@))
                    &&& (exists|j: int|
                        0 <= j < files@.len() && #[trigger] seg_truncation(
                            files@[j]@,
                            e.segs().last(),
                        ))
                    &&& (fids_sorted(files@.map_values(|f: DataFile| f@)) && all_logs_wf(
                        files@.map_values(|f: DataFile| f@),
                    ) ==> e.segs() == files@.map_values(|f: DataFile| f@))
                }))
            }),
    {
        if let Some(e) = check_options(&opts) {
            return Err(e);
        }
        let mut sorted = sort_data_files(files);
        let ghost orig = files@;
        let ghost all_sorted = sorted@.map_values(|f: DataFile| f@);
        let mut index = Keydir::new();
        if sorted.len() == 0 {
            let engine = Engine {
                options: opts,
                active_file: DataFile::new(0, Vec::new()),
                older_files: Vec::new(),
                index,
            };
            proof {
                assert(engine.segs() =~= seq![
                    DataFileView { file_id: 0u32, data: Seq::<u8>::empty() },
                ]);
                assert(wf_log(engine.segs()[0].data, 0));
                assert(engine.segs().drop_last() =~= Seq::<DataFileView>::empty());
                assert(replay_all(engine.segs().drop_last()) == Map::<Seq<u8>, LogRecordPos>::empty());
                assert(replay_seg(Map::<Seq<u8>, LogRecordPos>::empty(), 0u32, Seq::<u8>::empty(), 0)
                    == Map::<Seq<u8>, LogRecordPos>::empty());
                assert(engine.index.index_view() == replay_all(engine.segs()));
            }
            return Ok(engine);
        }
        proof {
            assert forall|i: int| 0 <= i < all_sorted.len() implies view_in(
                #[trigger] all_sorted[i],
                orig,
            ) by {
                assert(all_sorted[i] == sorted@[i]@);
            }
            assert forall|j: int| 0 <= j < orig.len() implies view_among(
                #[trigger] orig[j]@,
                all_sorted,
            ) by {
                assert(view_in(orig[j]@, sorted@));
                let i = choose|i: int| 0 <= i < sorted@.len() && orig[j]@ == #[trigger] sorted@[i]@;
                assert(orig[j]@ == all_sorted[i]);
            }
        }
        let mut older_files: Vec<DataFile> = Vec::new();
        while sorted.len() > 1
            invariant
                index.inv(),
                opts.dir_path@.len() > 0,
                opts.data_file_size > 0,
                orig == files@,
                sorted@.len() >= 1,
                forall|i: int| 0 <= i < all_sorted.len() ==> view_in(#[trigger] all_sorted[i], orig),
                forall|j: int| 0 <= j < orig.len() ==> view_among(#[trigger] orig[j]@, all_sorted),
                older_files@.len() + sorted@.len() == all_sorted.len(),
                forall|j: int|
                    0 <= j < sorted@.len() ==> #[trigger] sorted@[j]@ == all_sorted[j
                        + older_files@.len()],
                older_files@.map_values(|f: DataFile| f@) == all_sorted.take(
                    older_files@.len() as int,
                ),
                fids_sorted(all_sorted),
                all_logs_wf(older_files@.map_values(|f: DataFile| f@)),
                index.index_view() == replay_all(older_files@.map_values(|f: DataFile| f@)),
                positions_valid(
                    older_files@.map_values(|f: DataFile| f@),
                    index.index_view(),
                ),
            decreases sorted@.len(),
        {
            let ghost t = older_files@.len() as int;
            let ghost olds = older_files@.map_values(|f: DataFile| f@);
            let ghost iv0 = index.index_view();
            let f = sorted.remove(0);
            assert(f@ == all_sorted[t]);
            let write_off = f.get_write_off();
            let end = Self::replay_file(&mut index, &f);
            if end < write_off {
                proof {
                    if wf_log(f@.data, 0) {
                        lemma_clean_log_cut(f@.data, end as int);
                        assert(false);
                    }
                    assert(view_in(all_sorted[t], orig));
                    let j = choose|j: int| 0 <= j < orig.len() && all_sorted[t] == #[trigger] orig[j]@;
                    assert(t < all_sorted.len() - 1);
                    assert(view_in(all_sorted[all_sorted.len() - 1], orig));
                    let j2 = choose|j2: int|
                        0 <= j2 < orig.len() && all_sorted[all_sorted.len() - 1]
                            == #[trigger] orig[j2]@;
                    assert(orig[j2]@.file_id > orig[j]@.file_id);
                    assert(has_larger_id(orig, j));
                    assert(!seg_replayable(orig, j));
                    assert(!replayable(orig));
                }
                return Err(Errors::Corrupted);
            }
            proof {
                assert(f@.data.take(end as int) =~= f@.data);
            }
            older_files.push(f);
            proof {
                let olds2 = older_files@.map_values(|g: DataFile| g@);
                assert(olds2 =~= olds.push(f@));
                assert(olds2 =~= all_sorted.take(t + 1));
                assert(olds2.drop_last() =~= olds);
                assert(index.index_view() == replay_all(olds2));
                assert forall|i: int| 0 <= i < olds2.len() implies wf_log(
                    #[trigger] olds2[i].data,
                    0,
                ) by {
                    if i < olds.len() {
                        assert(olds2[i] == olds[i]);
                        assert(wf_log(olds[i].data, 0));
                    }
                }
                assert forall|k: Seq<u8>|
                    #[trigger] index.index_view().contains_key(k) implies pos_valid(
                    olds2,
                    k,
                    index.index_view()[k],
                ) by {
                    let p = index.index_view()[k];
                    if iv0.contains_key(k) && p == iv0[k] {
                        assert(pos_valid(olds, k, p));
                        let iw = choose|iw: int|
                            0 <= iw < olds.len() && #[trigger] olds[iw].file_id == p.file_id;
                        assert(all_sorted[iw].file_id < all_sorted[t].file_id);
                        assert(segs_frame(olds, olds2)) by {
                            assert(forall|i: int|
                                0 <= i < olds.len() ==> seg_extends(
                                    olds[i],
                                    #[trigger] olds2[i],
                                ));
                        }
                        lemma_pos_frame(olds, olds2, k, p);
                    } else {
                        assert(p.file_id == f@.file_id && pos_decodes(
                            DataFileView { file_id: f@.file_id, data: f@.data },
                            k,
                            p,
                        ));
                        assert(olds2.last() == f@);
                        assert forall|i: int|
                            0 <= i < olds2.len() && #[trigger] olds2[i].file_id
                                == p.file_id implies pos_decodes(olds2[i], k, p) by {
                            if i < olds.len() {
                                assert(all_sorted[i].file_id < all_sorted[t].file_id);
                                assert(false);
                            } else {
                                assert(olds2[i] == f@);
                            }
                        }
                    }
                }
            }
        }
        let ghost t = older_files@.len() as int;
        let ghost olds = older_files@.map_values(|f: DataFile| f@);
        let ghost iv0 = index.index_view();
        let mut f = sorted.remove(0);
        assert(f@ == all_sorted[t]);
        let ghost full = f@;
        let write_off = f.get_write_off();
        let end = Self::replay_file(&mut index, &f);
        let ghost jlast = choose|j: int|
            0 <= j < orig.len() && all_sorted[t] == #[trigger] orig[j]@;
        proof {
            assert(t == all_sorted.len() - 1);
            assert(view_in(all_sorted[t], orig));
            assert(0 <= jlast < orig.len() && orig[jlast]@ == all_sorted[t]);
            assert(!has_larger_id(orig, jlast)) by {
                if has_larger_id(orig, jlast) {
                    let j2 = choose|j2: int|
                        0 <= j2 < orig.len() && #[trigger] orig[j2]@.file_id
                            > orig[jlast]@.file_id;
                    assert(view_among(orig[j2]@, all_sorted));
                    let i2 = choose|i2: int|
                        0 <= i2 < all_sorted.len() && orig[j2]@ == #[trigger] all_sorted[i2];
                    assert(orig[j2]@.file_id == all_sorted[i2].file_id);
                    assert(orig[jlast]@.file_id == all_sorted[t].file_id);
                    assert(all_sorted[i2].file_id > all_sorted[t].file_id);
                    assert(i2 <= t);
                    if i2 < t {
                        assert(all_sorted[i2].file_id < all_sorted[t].file_id);
                    } else {
                        assert(all_sorted[i2] == all_sorted[t]);
                    }
                    assert(false);
                }
            }
        }
        if end < write_off {
            // A failure inside the active segment is repaired only where the
            // bytes look cut off by the end of the file; a record that is
            // complete but does not check is corruption and fatal.
            let contents_ref = f.contents();
            let contents_len = contents_ref.len();
            assert(end < contents_len);
            assert(end as usize as int == end as int);
            if !torn_at(contents_ref, end as usize) {
                proof {
                    if tail_recoverable(full.data, 0) {
                        lemma_recoverable_cut_from(full.data, end as int, 0);
                        assert(false);
                    }
                    assert(orig[jlast]@.data == full.data);
                    assert(!seg_replayable(orig, jlast));
                    assert(!replayable(orig));
                }
                return Err(Errors::Corrupted);
            }
            proof {
                assert(spec_torn(full.data.skip(end as int)));
            }
            f.truncate(end);
        }
        proof {
            assert(f@.data =~= full.data.take(end as int));
            assert(seg_truncation(full, f@));
        }
        let engine = Engine { options: opts, active_file: f, older_files, index };
        proof {
            let segs = engine.segs();
            assert(segs.drop_last() =~= olds);
            assert(segs.last() == DataFileView { file_id: full.file_id, data: full.data.take(end as int) });
            assert(t + 1 == all_sorted.len());
            assert forall|i: int, j: int| 0 <= i < j < segs.len() implies segs[i].file_id
                < segs[j].file_id by {
                assert(segs[i].file_id == all_sorted[i].file_id);
                assert(segs[j].file_id == all_sorted[j].file_id);
            }
            assert forall|i: int| 0 <= i < segs.len() implies wf_log(
                #[trigger] segs[i].data,
                0,
            ) by {
                if i < olds.len() {
                    assert(segs[i] == olds[i]);
                    assert(wf_log(olds[i].data, 0));
                }
            }
            assert(index.index_view() == replay_all(segs));
            assert forall|k: Seq<u8>| #[trigger] index.index_view().contains_key(k) implies pos_valid(
                segs,
                k,
                index.index_view()[k],
            ) by {
                let p = index.index_view()[k];
                if iv0.contains_key(k) && p == iv0[k] {
                    assert(pos_valid(olds, k, p));
                    let iw = choose|iw: int|
                        0 <= iw < olds.len() && #[trigger] olds[iw].file_id == p.file_id;
                    assert(all_sorted[iw].file_id < all_sorted[t].file_id);
                    assert(segs_frame(olds, segs)) by {
                        assert(forall|i: int|
                            0 <= i < olds.len() ==> seg_extends(olds[i], #[trigger] segs[i]));
                    }
                    lemma_pos_frame(olds, segs, k, p);
                } else {
                    assert(p.file_id == segs.last().file_id && pos_decodes(segs.last(), k, p));
                    assert forall|i: int|
                        0 <= i < segs.len() && #[trigger] segs[i].file_id == p.file_id implies pos_decodes(
                        segs[i],
                        k,
                        p,
                    ) by {
                        if i < olds.len() {
                            assert(all_sorted[i].file_id < all_sorted[t].file_id);
                            assert(false);
                        }
                    }
                }
            }
            assert forall|i: int| 0 <= i < orig.len() - 1 implies view_in(
                #[trigger] engine.segs()[i],
                orig,
            ) by {
                assert(engine.segs()[i] == all_sorted[i]);
                assert(view_in(all_sorted[i], orig));
            }
            assert(exists|j: int| 0 <= j < orig.len() && #[trigger] seg_truncation(
                orig[j]@,
                engine.segs().last(),
            )) by {
                assert(view_in(all_sorted[t], orig));
                let j = choose|j: int| 0 <= j < orig.len() && all_sorted[t] == orig[j]@;
                assert(seg_truncation(orig[j]@, engine.segs().last()));
            }
            if fids_sorted(orig.map_values(|g: DataFile| g@)) && all_logs_wf(
                orig.map_values(|g: DataFile| g@),
            ) {
                // Sorted, clean segments reopen exactly as they were: the
                // sort leaves them in place and the tail scan reads to the
                // end, so nothing is truncated.
                let ov = orig.map_values(|g: DataFile| g@);
                assert(all_sorted == ov);
                assert(wf_log(full.data, 0)) by {
                    assert(ov[t] == full);
                }
                lemma_clean_log_cut(full.data, end as int);
                assert(f@.data =~= full.data);
                assert(engine.segs() =~= ov);
            }
            assert forall|j: int| 0 <= j < orig.len() implies #[trigger] seg_replayable(
                orig,
                j,
            ) by {
                assert(view_among(orig[j]@, all_sorted));
                let i = choose|i: int|
                    0 <= i < all_sorted.len() && orig[j]@ == #[trigger] all_sorted[i];
                if i < all_sorted.len() - 1 {
                    assert(olds[i] == all_sorted[i]);
                    assert(wf_log(orig[j]@.data, 0));
                    lemma_wf_recoverable(orig[j]@.data, 0);
                } else {
                    assert(i == all_sorted.len() - 1 && t == all_sorted.len() - 1);
                    assert(orig[j]@ == full);
                    assert(!has_larger_id(orig, j)) by {
                        if has_larger_id(orig, j) {
                            let j2 = choose|j2: int|
                                0 <= j2 < orig.len() && #[trigger] orig[j2]@.file_id
                                    > orig[j]@.file_id;
                            assert(view_among(orig[j2]@, all_sorted));
                            let i2 = choose|i2: int|
                                0 <= i2 < all_sorted.len() && orig[j2]@
                                    == #[trigger] all_sorted[i2];
                            assert(all_sorted[i2].file_id <= all_sorted[t].file_id) by {
                                if i2 < t {
                                    assert(all_sorted[i2].file_id < all_sorted[t].file_id);
                                }
                            }
                            assert(false);
                        }
                    }
                    if end == write_off {
                        assert(full.data.take(end as int) =~= full.data);
                        lemma_wf_recoverable(full.data, 0);
                    } else {
                        lemma_recoverable_build_from(full.data, end as int, 0);
                    }
                }
            }
            assert(replayable(orig));
            assert(engine.files_wf());
            assert(engine.wf());
            assert(engine.spec_options() == opts);
            assert(engine.segs().len() == orig.len());
            assert(engine.index_view() == replay_all(engine.segs()));
            assert(engine.kv() == kv_of(engine.segs(), engine.index_view()));
        }
        Ok(engine)
    }
}

/// Round-trip: `put(k, v)` makes the store map `k` to `v`, so `get(k)`
/// returns `v`. `put`'s contract turns the store's mapping `m` into
/// `m.insert(k, v)`, and `get(k)` returns exactly what the mapping holds.
pub proof fn lemma_round_trip(m: Map<Seq<u8>, Seq<u8>>, k: Seq<u8>, v: Seq<u8>)
    ensures
        m.insert(k, v).contains_key(k),
        m.insert(k, v)[k] == v,
{
}

/// Last-writer-wins: two puts to one key leave the second value.
pub proof fn lemma_last_writer_wins(m: Map<Seq<u8>, Seq<u8>>, k: Seq<u8>, v1: Seq<u8>, v2: Seq<u8>)
    ensures
        m.insert(k, v1).insert(k, v2)[k] == v2,
{
}

/// Delete hides: after `put(k, v)` then `delete(k)` the key is absent, so
/// `get(k)` reports `KeyNotFound`.
pub proof fn lemma_delete_hides(m: Map<Seq<u8>, Seq<u8>>, k: Seq<u8>, v: Seq<u8>)
    ensures
        !m.insert(k, v).remove(k).contains_key(k),
{
}

/// Resurrect: a put after a delete stores the new value.
pub proof fn lemma_resurrect(m: Map<Seq<u8>, Seq<u8>>, k: Seq<u8>, v1: Seq<u8>, v2: Seq<u8>)
    ensures
        m.insert(k, v1).remove(k).insert(k, v2).contains_key(k),
        m.insert(k, v1).remove(k).insert(k, v2)[k] == v2,
{
}

/// Rotation invariant: in a well-formed engine the segment ids strictly
/// increase, so exactly one segment — the one with the largest id — is
/// active; every segment is a clean concatenation of records; and every
/// index entry points, in an existing segment, at a live record whose key is
/// the entry's key.
pub proof fn lemma_rotation_invariant(e: Engine)
    requires
        e.wf(),
    ensures
        fids_sorted(e.segs()),
        all_logs_wf(e.segs()),
        positions_valid(e.segs(), e.index_view()),
        forall|i: int|
            0 <= i < e.segs().len() - 1 ==> #[trigger] e.segs()[i].file_id
                < e.segs().last().file_id,
{
}

/// Replay equivalence: a well-formed engine's index is exactly what
/// replaying its segments from scratch produces, so two engines over the
/// same segments — one long-running, one freshly opened — hold identical
/// indexes and identical key/value mappings.
pub proof fn lemma_replay_equivalence(e1: Engine, e2: Engine)
    requires
        e1.wf(),
        e2.wf(),
        e1.segs() == e2.segs(),
    ensures
        e1.index_view() == replay_all(e1.segs()),
        e1.index_view() == e2.index_view(),
        e1.kv() == e2.kv(),
{
    assert(e1.kv() =~= e2.kv());
}

/// A clean log reopens whole: parsing a well-formed segment from the start
/// can stop early only where a record fails to read, and in a well-formed
/// segment no record does. So recovery truncates nothing that a clean close
/// wrote, and `put(k, v)` followed by a flush and a fresh open still finds
/// `k`.
pub proof fn lemma_clean_log_cut(full: Seq<u8>, c: int)
    requires
        wf_log(full, 0),
        0 <= c <= full.len(),
        wf_log(full.take(c), 0),
        c == full.len() || spec_decode(full.skip(c)) is None,
    ensures
        c == full.len(),
{
    lemma_clean_log_cut_from(full, c, 0);
}

proof fn lemma_clean_log_cut_from(full: Seq<u8>, c: int, off: int)
    requires
        0 <= off <= c <= full.len(),
        wf_log(full, off),
        wf_log(full.take(c), off),
        c == full.len() || spec_decode(full.skip(c)) is None,
    ensures
        c == full.len(),
    decreases c - off,
{
    let cut = full.take(c);
    if off == c {
        if c < full.len() {
            assert(wf_log(full, c));
            assert(spec_decode(full.skip(c)) is None);
            assert(false);
        }
    } else {
        let (rv, n) = spec_decode(cut.skip(off))->Some_0;
        lemma_decode_bounds(cut.skip(off), rv, n);
        assert(full.skip(off).take(n) =~= cut.skip(off).take(n));
        lemma_decode_prefix(cut.skip(off), full.skip(off), rv, n);
        lemma_clean_log_cut_from(full, c, off + n);
    }
}

/// Whether `s` from offset `off` on reads as records up to, at worst, a torn
/// tail: the point where parsing stops, if it is not the end, must look like
/// a record cut off by the end of the input. Recovery at `open` repairs
/// exactly such a tail; anything else is corruption.
pub open spec fn tail_recoverable(s: Seq<u8>, off: int) -> bool
    decreases s.len() - off,
    when 0 <= off <= s.len()
    via tail_recoverable_dec
{
    if off == s.len() {
        true
    } else {
        match spec_decode(s.skip(off)) {
            None => spec_torn(s.skip(off)),
            Some((rv, n)) => tail_recoverable(s, off + n),
        }
    }
}

#[via_fn]
proof fn tail_recoverable_dec(s: Seq<u8>, off: int) {
    if 0 <= off < s.len() {
        match spec_decode(s.skip(off)) {
            None => {},
            Some((rv, n)) => {
                lemma_decode_bounds(s.skip(off), rv, n);
            },
        }
    }
}

/// A clean log has, in particular, a recoverable tail.
pub proof fn lemma_wf_recoverable(s: Seq<u8>, off: int)
    requires
        0 <= off <= s.len(),
        wf_log(s, off),
    ensures
        tail_recoverable(s, off),
    decreases s.len() - off,
{
    if off < s.len() {
        let (rv, n) = spec_decode(s.skip(off))->Some_0;
        lemma_decode_bounds(s.skip(off), rv, n);
        lemma_wf_recoverable(s, off + n);
    }
}

/// Where parsing a recoverable log stops short of the end, the remainder is
/// a torn tail.
proof fn lemma_recoverable_cut_from(full: Seq<u8>, c: int, off: int)
    requires
        0 <= off <= c <= full.len(),
        c < full.len(),
        tail_recoverable(full, off),
        wf_log(full.take(c), off),
        spec_decode(full.skip(c)) is None,
    ensures
        spec_torn(full.skip(c)),
    decreases c - off,
{
    let cut = full.take(c);
    if off == c {
    } else {
        let (rv, n) = spec_decode(cut.skip(off))->Some_0;
        lemma_decode_bounds(cut.skip(off), rv, n);
        assert(full.skip(off).take(n) =~= cut.skip(off).take(n));
        lemma_decode_prefix(cut.skip(off), full.skip(off), rv, n);
        lemma_recoverable_cut_from(full, c, off + n);
    }
}

/// A log that parses cleanly up to a torn tail is recoverable.
proof fn lemma_recoverable_build_from(full: Seq<u8>, c: int, off: int)
    requires
        0 <= off <= c <= full.len(),
        wf_log(full.take(c), off),
        c == full.len() || (spec_decode(full.skip(c)) is None && spec_torn(full.skip(c))),
    ensures
        tail_recoverable(full, off),
    decreases c - off,
{
    let cut = full.take(c);
    if off == c {
        if c == full.len() {
        }
    } else {
        let (rv, n) = spec_decode(cut.skip(off))->Some_0;
        lemma_decode_bounds(cut.skip(off), rv, n);
        assert(full.skip(off).take(n) =~= cut.skip(off).take(n));
        lemma_decode_prefix(cut.skip(off), full.skip(off), rv, n);
        lemma_recoverable_build_from(full, c, off + n);
    }
}

/// Whether `v` is one of the views in `views`.
pub open spec fn view_among(v: DataFileView, views: Seq<DataFileView>) -> bool {
    exists|i: int| 0 <= i < views.len() && v == #[trigger] views[i]
}

/// Whether some other file in the set carries a larger segment id.
pub open spec fn has_larger_id(files: Seq<DataFile>, i: int) -> bool {
    exists|j: int| 0 <= j < files.len() && #[trigger] files[j]@.file_id > files[i]@.file_id
}

/// What each segment handed to `open` must satisfy for recovery to succeed:
/// a frozen-to-be segment (one with a larger id elsewhere) must read cleanly
/// to its end; the one with the largest id — the active-to-be segment — may
/// at worst end in a torn tail.
pub open spec fn seg_replayable(files: Seq<DataFile>, i: int) -> bool {
    if has_larger_id(files, i) {
        wf_log(files[i]@.data, 0)
    } else {
        tail_recoverable(files[i]@.data, 0)
    }
}

/// Whether the whole set of segments replays without a fatal error.
pub open spec fn replayable(files: Seq<DataFile>) -> bool {
    forall|i: int| 0 <= i < files.len() ==> #[trigger] seg_replayable(files, i)
}

/// Whether `cut` is `full` truncated at a record boundary: same id, the data
/// a prefix, and nothing readable at the cut.
pub open spec fn seg_truncation(full: DataFileView, cut: DataFileView) -> bool {
    &&& cut.file_id == full.file_id
    &&& cut.data.len() <= full.data.len()
    &&& cut.data == full.data.take(cut.data.len() as int)
    &&& (cut.data.len() == full.data.len() || (spec_decode(full.data.skip(cut.data.len() as int))
        is None && spec_torn(full.data.skip(cut.data.len() as int))))
}

} // verus!
