use vstd::hash_map::StringHashMap;
use vstd::prelude::*;

use crate::errors::RecordHeaderError;

use crate::codec::{
    decode_frame, frame_bytes, is_valid_frame, lemma_codec_round_trip, lemma_header_bytes_len,
    read_record, RecordHeader, HEADER_SIZE, RECORD_TYPE_ACTIVE, RECORD_TYPE_DELETED,
};

verus! {

/// A frame found by scanning a log: where it starts and its header. Its payload is the
/// `header.length - 32` bytes that follow the header.
#[derive(Debug, Clone, Copy, PartialEq, Eq, Structural)]
pub struct FrameRef {
    pub offset: u64,
    pub header: RecordHeader,
}

/// The frames that a scan finds from `offset` on: one after another while each decodes,
/// stopping at the first that does not (a short read, a bad header or a bad checksum).
pub open spec fn scan_from(log: Seq<u8>, offset: int) -> Seq<(int, RecordHeader)>
    decreases log.len() - offset,
{
    match decode_frame(log, offset) {
        Ok((h, payload)) => if 0 <= offset && 0 < h.length && offset + h.length <= log.len() {
            seq![(offset, h)] + scan_from(log, offset + h.length)
        } else {
            Seq::empty()
        },
        Err(_) => Seq::empty(),
    }
}

/// The scan of a whole log, from its first byte.
pub open spec fn scan(log: Seq<u8>) -> Seq<(int, RecordHeader)> {
    scan_from(log, 0)
}

/// What a list of found frames says: each frame's offset and header.
pub open spec fn frame_refs_view(frames: Seq<FrameRef>) -> Seq<(int, RecordHeader)> {
    frames.map_values(|f: FrameRef| (f.offset as int, f.header))
}

/// One step of a scan: a frame that decodes lies inside the log, and the scan goes on
/// right after it; a frame that does not ends the scan.
proof fn lemma_scan_step(log: Seq<u8>, offset: int)
    requires
        0 <= offset,
    ensures
        decode_frame(log, offset) matches Ok((h, p)) ==> {
            &&& HEADER_SIZE <= h.length
            &&& offset + h.length <= log.len()
            &&& scan_from(log, offset) == seq![(offset, h)] + scan_from(log, offset + h.length)
        },
        decode_frame(log, offset) is Err ==> scan_from(log, offset) == Seq::<
            (int, RecordHeader),
        >::empty(),
{
}

/// Scans `log` from its first byte and lists the frames that decode, in order, up to the
/// first that does not. The log is only read.
pub fn scan_log(log: &[u8]) -> (r: Vec<FrameRef>)
    ensures
        frame_refs_view(r@) == scan(log@),
{
    let mut out: Vec<FrameRef> = Vec::new();
    let mut offset: usize = 0;
    let total = log.len();
    loop
        invariant
            total == log@.len(),
            offset <= log@.len(),
            scan(log@) == frame_refs_view(out@) + scan_from(log@, offset as int),
        ensures
            scan(log@) == frame_refs_view(out@),
        decreases log@.len() - offset,
    {
        proof {
            lemma_scan_step(log@, offset as int);
        }
        match read_record(log, offset as u64) {
            Ok((h, payload)) => {
                assert(decode_frame(log@, offset as int) == Ok::<
                    (RecordHeader, Seq<u8>),
                    RecordHeaderError,
                >((h, payload@)));
                assert(offset + h.length <= log@.len());
                let ghost old_out = out@;
                let ghost rest = scan_from(log@, offset + h.length);
                out.push(FrameRef { offset: offset as u64, header: h });
                assert(frame_refs_view(out@) =~= frame_refs_view(old_out) + seq![
                    (offset as int, h),
                ]);
                assert(frame_refs_view(old_out) + (seq![(offset as int, h)] + rest)
                    =~= frame_refs_view(old_out) + seq![(offset as int, h)] + rest);
                offset = offset + h.length as usize;
            },
            Err(_) => {
                assert(frame_refs_view(out@) + scan_from(log@, offset as int) =~= frame_refs_view(
                    out@,
                ));
                break ;
            },
        }
    }
    out
}

/// An index from primary keys to the offset of the latest active frame of each key. The
/// keys are also listed, each once, so that the offsets can be enumerated.
pub struct OffsetIndex {
    slots: StringHashMap<(u64, usize)>,
    keys: Vec<String>,
    map: Ghost<Map<Seq<char>, u64>>,
}

impl View for OffsetIndex {
    type V = Map<Seq<char>, u64>;

    closed spec fn view(&self) -> Map<Seq<char>, u64> {
        self.map@
    }
}

impl OffsetIndex {
    /// Each key held has a slot with its offset and its place in the key list, and the
    /// key list holds exactly the keys that have slots.
    pub closed spec fn wf(&self) -> bool {
        &&& forall|k: Seq<char>| #[trigger]
            self.map@.contains_key(k) <==> self.slots@.contains_key(k)
        &&& forall|k: Seq<char>|
            #[trigger] self.slots@.contains_key(k) ==> {
                &&& self.slots@[k].1 < self.keys@.len()
                &&& self.keys@[self.slots@[k].1 as int]@ == k
                &&& self.map@[k] == self.slots@[k].0
            }
        &&& forall|i: int|
            0 <= i < self.keys@.len() ==> self.slots@.contains_key(#[trigger] self.keys@[i]@)
                && self.slots@[self.keys@[i]@].1 == i
    }

    /// An empty index.
    pub fn new() -> (r: Self)
        ensures
            r.wf(),
            r@ == Map::<Seq<char>, u64>::empty(),
    {
        OffsetIndex { slots: StringHashMap::new(), keys: Vec::new(), map: Ghost(Map::empty()) }
    }

    /// The offset held for `key`.
    pub fn get(&self, key: &String) -> (r: Option<u64>)
        requires
            self.wf(),
        ensures
            r == (if self@.contains_key(key@) {
                Some(self@[key@])
            } else {
                None::<u64>
            }),
    {
        match self.slots.get(key.as_str()) {
            Some(slot) => Some(slot.0),
            None => None,
        }
    }

    /// Points `key` at `offset`, replacing what it pointed at.
    pub fn insert(&mut self, key: String, offset: u64)
        requires
            old(self).wf(),
        ensures
            final(self).wf(),
            final(self)@ == old(self)@.insert(key@, offset),
    {
        let ghost k = key@;
        match self.slots.get(key.as_str()) {
            Some(slot) => {
                let pos = slot.1;
                self.slots.insert(key, (offset, pos));
            },
            None => {
                let pos = self.keys.len();
                self.keys.push(key.clone());
                self.slots.insert(key, (offset, pos));
                assert(self.keys@[pos as int]@ == k);
            },
        }
        self.map = Ghost(self.map@.insert(k, offset));
        assert forall|i: int| 0 <= i < self.keys@.len() implies self.slots@.contains_key(
            #[trigger] self.keys@[i]@,
        ) && self.slots@[self.keys@[i]@].1 == i by {
            if i < old(self).keys@.len() {
                assert(self.keys@[i] == old(self).keys@[i]);
                assert(old(self).slots@.contains_key(old(self).keys@[i]@));
            }
        }
        assert forall|x: Seq<char>| #[trigger] self.slots@.contains_key(x) implies {
            &&& self.slots@[x].1 < self.keys@.len()
            &&& self.keys@[self.slots@[x].1 as int]@ == x
            &&& self.map@[x] == self.slots@[x].0
        } by {
            if x != k {
                assert(old(self).slots@.contains_key(x));
                let p = old(self).slots@[x].1 as int;
                assert(old(self).keys@[p]@ == x);
                assert(self.keys@[p] == old(self).keys@[p]);
            }
        }
    }

    /// Drops `key` from the index; nothing changes where it is absent.
    pub fn remove(&mut self, key: &String)
        requires
            old(self).wf(),
        ensures
            final(self).wf(),
            final(self)@ == old(self)@.remove(key@),
    {
        let ghost k = key@;
        let pos = match self.slots.get(key.as_str()) {
            None => {
                assert(self.map@.remove(k) =~= self.map@);
                return ;
            },
            Some(slot) => slot.1,
        };
        let last = self.keys.len() - 1;
        self.slots.remove(key.as_str());
        if pos < last {
            let moved = self.keys[last].clone();
            let ghost mk = moved@;
            assert(mk != k);
            let moved_offset = match self.slots.get(moved.as_str()) {
                Some(slot) => slot.0,
                None => 0,
            };
            self.keys.swap_remove(pos);
            self.slots.insert(moved, (moved_offset, pos));
        } else {
            self.keys.pop();
        }
        self.map = Ghost(self.map@.remove(k));
        assert forall|i: int| 0 <= i < self.keys@.len() implies self.slots@.contains_key(
            #[trigger] self.keys@[i]@,
        ) && self.slots@[self.keys@[i]@].1 == i by {
            if i != pos {
                assert(self.keys@[i] == old(self).keys@[i]);
                assert(old(self).slots@.contains_key(old(self).keys@[i]@));
                assert(old(self).keys@[i]@ != k);
            }
        }
        assert forall|x: Seq<char>| #[trigger] self.slots@.contains_key(x) implies {
            &&& self.slots@[x].1 < self.keys@.len()
            &&& self.keys@[self.slots@[x].1 as int]@ == x
            &&& self.map@[x] == self.slots@[x].0
        } by {
            assert(old(self).slots@.contains_key(x));
            let p = old(self).slots@[x].1 as int;
            assert(old(self).keys@[p]@ == x);
            if p != last && p != pos {
                assert(self.keys@[p] == old(self).keys@[p]);
            }
        }
    }

    /// The number of keys held.
    pub fn len(&self) -> (r: usize)
        requires
            self.wf(),
        ensures
            r == self@.dom().len(),
    {
        proof {
            self.lemma_len();
        }
        self.keys.len()
    }

    proof fn lemma_len(&self)
        requires
            self.wf(),
        ensures
            self.keys@.len() == self@.dom().len(),
    {
        let names = self.keys@.map_values(|s: String| s@);
        assert(names.no_duplicates()) by {
            assert forall|i: int, j: int|
                0 <= i < names.len() && 0 <= j < names.len() && i != j implies names[i]
                != names[j] by {
                assert(self.slots@.contains_key(self.keys@[i]@));
                assert(self.slots@.contains_key(self.keys@[j]@));
            }
        }
        assert(names.to_set() =~= self@.dom()) by {
            assert forall|k: Seq<char>| names.to_set().contains(k) <==> self@.dom().contains(k) by {
                if self@.dom().contains(k) {
                    assert(names[self.slots@[k].1 as int] == k);
                }
                if names.to_set().contains(k) {
                    let i = choose|i: int| 0 <= i < names.len() && names[i] == k;
                    assert(self.slots@.contains_key(self.keys@[i]@));
                }
            }
        }
        names.unique_seq_to_set();
    }

    /// The offsets held, one per key, in no particular order.
    pub fn offsets(&self) -> (r: Vec<u64>)
        requires
            self.wf(),
        ensures
            r@.len() == self@.dom().len(),
            forall|i: int| 0 <= i < r@.len() ==> self@.values().contains(#[trigger] r@[i]),
            forall|k: Seq<char>| #[trigger] self@.contains_key(k) ==> r@.contains(self@[k]),
    {
        proof {
            self.lemma_len();
        }
        let mut out: Vec<u64> = Vec::new();
        let mut i: usize = 0;
        while i < self.keys.len()
            invariant
                self.wf(),
                i <= self.keys@.len(),
                out@.len() == i,
                forall|j: int|
                    0 <= j < i ==> out@[j] == #[trigger] self@[self.keys@[j]@] && self@.contains_key(
                        self.keys@[j]@,
                    ),
            decreases self.keys@.len() - i,
        {
            let offset = match self.slots.get(self.keys[i].as_str()) {
                Some(slot) => slot.0,
                None => 0,
            };
            out.push(offset);
            i = i + 1;
        }
        assert forall|j: int| 0 <= j < out@.len() implies self@.values().contains(
            #[trigger] out@[j],
        ) by {
            assert(self@.contains_key(self.keys@[j]@));
        }
        assert forall|k: Seq<char>| #[trigger] self@.contains_key(k) implies out@.contains(
            self@[k],
        ) by {
            let j = self.slots@[k].1 as int;
            assert(out@[j] == self@[self.keys@[j]@]);
        }
        out
    }
}

/// One step of replay: an active frame points its key at the frame, a tombstone drops
/// the key, any other record type stops the replay (`None`).
pub open spec fn replay_step(m: Map<Seq<char>, u64>, record_type: u8, key: Seq<char>, offset: u64) -> Option<
    Map<Seq<char>, u64>,
> {
    if record_type == RECORD_TYPE_ACTIVE {
        Some(m.insert(key, offset))
    } else if record_type == RECORD_TYPE_DELETED {
        Some(m.remove(key))
    } else {
        None
    }
}

/// Replays events `(record type, key, offset)` in order on an empty map. The flag says
/// whether an unknown record type stopped the replay; events after it change nothing.
pub open spec fn replay_events(events: Seq<(u8, Seq<char>, u64)>) -> (Map<Seq<char>, u64>, bool)
    decreases events.len(),
{
    if events.len() == 0 {
        (Map::empty(), false)
    } else {
        let (m, stopped) = replay_events(events.drop_last());
        if stopped {
            (m, true)
        } else {
            let e = events.last();
            match replay_step(m, e.0, e.1, e.2) {
                Some(m2) => (m2, false),
                None => (m, true),
            }
        }
    }
}

/// The events of a replay: the frames of a scan paired with the keys read from their
/// payloads. A frame whose model could not be read has no key, and ends the events.
pub open spec fn replay_events_of(frames: Seq<FrameRef>, keys: Seq<String>) -> Seq<
    (u8, Seq<char>, u64),
> {
    let n = if frames.len() < keys.len() {
        frames.len()
    } else {
        keys.len()
    };
    Seq::new(n, |i: int| (frames[i].header.record_type, keys[i]@, frames[i].offset))
}

proof fn lemma_replay_stopped_stays(events: Seq<(u8, Seq<char>, u64)>, i: int, j: int)
    requires
        0 <= i <= j <= events.len(),
        replay_events(events.take(i)).1,
    ensures
        replay_events(events.take(j)) == replay_events(events.take(i)),
    decreases j - i,
{
    if j > i {
        lemma_replay_stopped_stays(events, i, j - 1);
        assert(events.take(j).drop_last() =~= events.take(j - 1));
    }
}

/// The log of one collection as this process sees it: its name and the index of its
/// live records. The frames themselves live in the collection's file.
pub struct CollectionLog {
    name: String,
    index: OffsetIndex,
}

impl View for CollectionLog {
    type V = Map<Seq<char>, u64>;

    closed spec fn view(&self) -> Map<Seq<char>, u64> {
        self.index@
    }
}

impl CollectionLog {
    pub closed spec fn wf(&self) -> bool {
        self.index.wf()
    }

    /// The collection's name.
    pub closed spec fn spec_name(&self) -> Seq<char> {
        self.name@
    }

    /// The collection's name.
    pub fn name(&self) -> (r: &String)
        ensures
            r@ == self.spec_name(),
    {
        &self.name
    }

    /// A collection whose log has nothing to replay.
    pub fn new(name: String) -> (r: Self)
        ensures
            r.wf(),
            r.spec_name() == name@,
            r@ == Map::<Seq<char>, u64>::empty(),
    {
        CollectionLog { name, index: OffsetIndex::new() }
    }

    /// Rebuilds the index of a log from the frames that a scan found and the keys of
    /// the models in their payloads, frame by frame: an active frame points its key at
    /// itself, a tombstone drops its key, and replay stops at the first frame of another
    /// record type or without a key.
    pub fn replay(name: String, frames: &Vec<FrameRef>, keys: &Vec<String>) -> (r: Self)
        ensures
            r.wf(),
            r.spec_name() == name@,
            r@ == replay_events(replay_events_of(frames@, keys@)).0,
    {
        let ghost events = replay_events_of(frames@, keys@);
        let mut index = OffsetIndex::new();
        let n: usize = if frames.len() < keys.len() {
            frames.len()
        } else {
            keys.len()
        };
        let mut i: usize = 0;
        let mut stopped = false;
        while i < n && !stopped
            invariant
                n == events.len(),
                n <= frames@.len(),
                n <= keys@.len(),
                i <= n,
                index.wf(),
                events == replay_events_of(frames@, keys@),
                !stopped ==> index@ == replay_events(events.take(i as int)).0 && !replay_events(
                    events.take(i as int),
                ).1,
                stopped ==> index@ == replay_events(events.take(i as int)).0 && replay_events(
                    events.take(i as int),
                ).1,
            decreases n - i,
        {
            let f = frames[i];
            assert(events.take(i + 1).drop_last() =~= events.take(i as int));
            assert(events.take(i + 1).last() == events[i as int]);
            if f.header.record_type == RECORD_TYPE_ACTIVE {
                index.insert(keys[i].clone(), f.offset);
            } else if f.header.record_type == RECORD_TYPE_DELETED {
                index.remove(&keys[i]);
            } else {
                stopped = true;
            }
            i = i + 1;
        }
        proof {
            assert(events.take(n as int) =~= events);
            if stopped {
                lemma_replay_stopped_stays(events, i as int, n as int);
            }
        }
        CollectionLog { name, index }
    }

    /// Records that an active frame for `key` was appended at `offset`: the key now
    /// points there, whether it was present or not.
    pub fn insert(&mut self, key: String, offset: u64)
        requires
            old(self).wf(),
        ensures
            final(self).wf(),
            final(self).spec_name() == old(self).spec_name(),
            final(self)@ == old(self)@.insert(key@, offset),
    {
        self.index.insert(key, offset);
    }

    /// Records that a new version of the model under `key` was appended at `offset`. A
    /// key that was absent is simply added.
    pub fn update(&mut self, key: String, offset: u64)
        requires
            old(self).wf(),
        ensures
            final(self).wf(),
            final(self).spec_name() == old(self).spec_name(),
            final(self)@ == old(self)@.insert(key@, offset),
    {
        self.index.insert(key, offset);
    }

    /// Records that a tombstone for `key` was appended: the key is no longer live.
    pub fn delete(&mut self, key: &String)
        requires
            old(self).wf(),
        ensures
            final(self).wf(),
            final(self).spec_name() == old(self).spec_name(),
            final(self)@ == old(self)@.remove(key@),
    {
        self.index.remove(key);
    }

    /// The offset of the live frame of `key`, if the key is live.
    pub fn find_by_id(&self, key: &String) -> (r: Option<u64>)
        requires
            self.wf(),
        ensures
            r == (if self@.contains_key(key@) {
                Some(self@[key@])
            } else {
                None::<u64>
            }),
    {
        self.index.get(key)
    }

    /// The offsets of all live frames, one per live key.
    pub fn find_all(&self) -> (r: Vec<u64>)
        requires
            self.wf(),
        ensures
            r@.len() == self@.dom().len(),
            forall|i: int| 0 <= i < r@.len() ==> self@.values().contains(#[trigger] r@[i]),
            forall|k: Seq<char>| #[trigger] self@.contains_key(k) ==> r@.contains(self@[k]),
    {
        self.index.offsets()
    }

    /// The number of live keys.
    pub fn len(&self) -> (r: usize)
        requires
            self.wf(),
        ensures
            r == self@.dom().len(),
    {
        self.index.len()
    }
}

} // verus!

verus! {

/// A write of the write path: record type, key, and the frame's header and payload.
pub type LogWrite = (u8, Seq<char>, RecordHeader, Seq<u8>);

/// A write that the write path can make: an active frame or a tombstone, valid.
pub open spec fn is_log_write(w: LogWrite) -> bool {
    &&& w.0 == RECORD_TYPE_ACTIVE || w.0 == RECORD_TYPE_DELETED
    &&& w.2.record_type == w.0
    &&& is_valid_frame(w.2, w.3)
}

/// The bytes of a log after the writes `ws` on an empty log: their frames, in order.
pub open spec fn log_of(ws: Seq<LogWrite>) -> Seq<u8>
    decreases ws.len(),
{
    if ws.len() == 0 {
        Seq::empty()
    } else {
        log_of(ws.drop_last()) + frame_bytes(ws.last().2, ws.last().3)
    }
}

/// The index that the write path keeps through the writes `ws` on an empty log: each
/// active frame points its key at the offset where it was appended, each tombstone drops
/// its key.
pub open spec fn index_of(ws: Seq<LogWrite>) -> Map<Seq<char>, u64>
    decreases ws.len(),
{
    if ws.len() == 0 {
        Map::empty()
    } else {
        let m = index_of(ws.drop_last());
        let w = ws.last();
        if w.0 == RECORD_TYPE_ACTIVE {
            m.insert(w.1, log_of(ws.drop_last()).len() as u64)
        } else {
            m.remove(w.1)
        }
    }
}

/// Where the frame of the `i`-th write starts.
pub open spec fn write_offset(ws: Seq<LogWrite>, i: int) -> int {
    log_of(ws.take(i)).len() as int
}

/// The frames of the writes `ws`, each with the offset where it starts.
pub open spec fn frames_of(ws: Seq<LogWrite>) -> Seq<(int, RecordHeader)> {
    Seq::new(ws.len(), |i: int| (write_offset(ws, i), ws[i].2))
}

proof fn lemma_log_of_prefix(ws: Seq<LogWrite>, i: int)
    requires
        0 <= i <= ws.len(),
        forall|j: int| 0 <= j < ws.len() ==> is_log_write(#[trigger] ws[j]),
    ensures
        log_of(ws.take(i)).len() <= log_of(ws).len(),
        log_of(ws) =~= log_of(ws.take(i)) + log_of(ws).subrange(
            log_of(ws.take(i)).len() as int,
            log_of(ws).len() as int,
        ),
        i < ws.len() ==> log_of(ws.take(i + 1)) =~= log_of(ws.take(i)) + frame_bytes(
            ws[i].2,
            ws[i].3,
        ),
    decreases ws.len() - i,
{
    if i < ws.len() {
        assert(ws.take(i + 1).drop_last() =~= ws.take(i));
        lemma_log_of_prefix(ws, i + 1);
    } else {
        assert(ws.take(i) =~= ws);
    }
}

proof fn lemma_scan_writes(ws: Seq<LogWrite>, k: int)
    requires
        0 <= k <= ws.len(),
        forall|j: int| 0 <= j < ws.len() ==> is_log_write(#[trigger] ws[j]),
    ensures
        scan_from(log_of(ws), write_offset(ws, k)) =~= frames_of(ws).skip(k),
    decreases ws.len() - k,
{
    let log = log_of(ws);
    lemma_log_of_prefix(ws, k);
    if k == ws.len() {
        assert(ws.take(k) =~= ws);
        lemma_scan_step(log, write_offset(ws, k));
    } else {
        lemma_log_of_prefix(ws, k + 1);
        let pre = log_of(ws.take(k));
        let w = ws[k];
        let post = log.subrange(log_of(ws.take(k + 1)).len() as int, log.len() as int);
        assert(log =~= pre + frame_bytes(w.2, w.3) + post);
        lemma_codec_round_trip(pre, w.2, w.3, post);
        lemma_scan_step(log, write_offset(ws, k));
        lemma_header_bytes_len(w.2);
        assert(write_offset(ws, k) + w.2.length == write_offset(ws, k + 1));
        lemma_scan_writes(ws, k + 1);
        assert(frames_of(ws).skip(k) =~= seq![(write_offset(ws, k), w.2)] + frames_of(ws).skip(
            k + 1,
        ));
    }
}

proof fn lemma_replay_writes(ws: Seq<LogWrite>, events: Seq<(u8, Seq<char>, u64)>, k: int)
    requires
        0 <= k <= ws.len(),
        events.len() == ws.len(),
        forall|j: int| 0 <= j < ws.len() ==> is_log_write(#[trigger] ws[j]),
        forall|j: int|
            0 <= j < ws.len() ==> #[trigger] events[j] == (
                ws[j].0,
                ws[j].1,
                write_offset(ws, j) as u64,
            ),
    ensures
        replay_events(events.take(k)) == (index_of(ws.take(k)), false),
    decreases k,
{
    if k > 0 {
        lemma_replay_writes(ws, events, k - 1);
        assert(events.take(k).drop_last() =~= events.take(k - 1));
        assert(ws.take(k).drop_last() =~= ws.take(k - 1));
        assert(events.take(k).last() == events[k - 1]);
        assert(ws.take(k).last() == ws[k - 1]);
    } else {
        assert(events.take(k) =~= Seq::<(u8, Seq<char>, u64)>::empty());
        assert(ws.take(k) =~= Seq::<LogWrite>::empty());
    }
}

/// Replay fidelity: after any sequence of inserts, updates and deletes written to an
/// empty log, a scan of the log finds exactly the frames written, in order, and replaying
/// them with the keys of their models rebuilds the very index that the write path kept.
pub proof fn lemma_replay_fidelity(ws: Seq<LogWrite>, frames: Seq<FrameRef>, keys: Seq<String>)
    requires
        forall|j: int| 0 <= j < ws.len() ==> is_log_write(#[trigger] ws[j]),
        log_of(ws).len() <= u64::MAX,
        frame_refs_view(frames) == scan(log_of(ws)),
        keys.len() == ws.len(),
        forall|j: int| 0 <= j < ws.len() ==> (#[trigger] keys[j])@ == ws[j].1,
    ensures
        scan(log_of(ws)) == frames_of(ws),
        replay_events(replay_events_of(frames, keys)) == (index_of(ws), false),
{
    assert(ws.take(0) =~= Seq::<LogWrite>::empty());
    lemma_scan_writes(ws, 0);
    assert(frames_of(ws).skip(0) =~= frames_of(ws));
    let events = replay_events_of(frames, keys);
    assert(frames.len() == ws.len()) by {
        assert(frame_refs_view(frames).len() == frames.len());
    }
    assert forall|j: int| 0 <= j < ws.len() implies #[trigger] events[j] == (
        ws[j].0,
        ws[j].1,
        write_offset(ws, j) as u64,
    ) by {
        assert(frame_refs_view(frames)[j] == frames_of(ws)[j]);
        lemma_log_of_prefix(ws, j);
    }
    lemma_replay_writes(ws, events, ws.len() as int);
    assert(events.take(ws.len() as int) =~= events);
    assert(ws.take(ws.len() as int) =~= ws);
}

/// The leading frames of a scan that end at or before byte `n`.
pub open spec fn frames_within(frames: Seq<(int, RecordHeader)>, n: int) -> Seq<
    (int, RecordHeader),
>
    decreases frames.len(),
{
    if frames.len() == 0 || frames[0].0 + frames[0].1.length > n {
        Seq::empty()
    } else {
        seq![frames[0]] + frames_within(frames.drop_first(), n)
    }
}

proof fn lemma_decode_truncated(log: Seq<u8>, n: int, offset: int)
    requires
        0 <= offset,
        0 <= n <= log.len(),
    ensures
        decode_frame(log, offset) matches Ok((h, p)) ==> (offset + h.length <= n
            ==> decode_frame(log.take(n), offset) == decode_frame(log, offset)),
        decode_frame(log, offset) matches Ok((h, p)) ==> (offset + h.length > n
            ==> decode_frame(log.take(n), offset) is Err),
        decode_frame(log, offset) is Err ==> decode_frame(log.take(n), offset) is Err,
{
    let t = log.take(n);
    if offset + HEADER_SIZE <= n {
        assert(t.subrange(offset, offset + 4) =~= log.subrange(offset, offset + 4));
        assert(t.subrange(offset + 6, offset + 8) =~= log.subrange(offset + 6, offset + 8));
        assert(t.subrange(offset + 8, offset + 16) =~= log.subrange(offset + 8, offset + 16));
        assert(t.subrange(offset + 16, offset + 24) =~= log.subrange(offset + 16, offset + 24));
        assert(t.subrange(offset + 24, offset + 28) =~= log.subrange(offset + 24, offset + 28));
        assert(t.subrange(offset + 28, offset + 32) =~= log.subrange(offset + 28, offset + 32));
        assert(parse_header_eq(t, log, offset));
        let h = crate::codec::parse_header(log, offset);
        if HEADER_SIZE <= h.length && offset + h.length <= n {
            assert(t.subrange(offset + HEADER_SIZE, offset + h.length) =~= log.subrange(
                offset + HEADER_SIZE,
                offset + h.length,
            ));
        }
    }
}

spec fn parse_header_eq(a: Seq<u8>, b: Seq<u8>, at: int) -> bool {
    crate::codec::parse_header(a, at) == crate::codec::parse_header(b, at)
}

proof fn lemma_scan_truncated(log: Seq<u8>, n: int, offset: int)
    requires
        0 <= offset,
        0 <= n <= log.len(),
    ensures
        scan_from(log.take(n), offset) == frames_within(scan_from(log, offset), n),
    decreases log.len() - offset,
{
    lemma_decode_truncated(log, n, offset);
    lemma_scan_step(log, offset);
    lemma_scan_step(log.take(n), offset);
    match decode_frame(log, offset) {
        Ok((h, p)) => {
            let s = scan_from(log, offset);
            assert(s[0] == (offset, h));
            assert(s.drop_first() =~= scan_from(log, offset + h.length));
            if offset + h.length <= n {
                lemma_scan_truncated(log, n, offset + h.length);
            }
        },
        Err(_) => {},
    }
}

/// Crash-prefix consistency: cutting a log short at any byte `n` and scanning what is
/// left finds exactly the leading frames of the whole log that end at or before `n`, the
/// longest prefix of whole, checksum-valid frames; each of them is valid.
pub proof fn lemma_crash_prefix(log: Seq<u8>, n: int)
    requires
        0 <= n <= log.len(),
    ensures
        scan(log.take(n)) == frames_within(scan(log), n),
        forall|i: int|
            0 <= i < scan(log.take(n)).len() ==> decode_frame(
                log.take(n),
                (#[trigger] scan(log.take(n))[i]).0,
            ) is Ok,
{
    lemma_scan_truncated(log, n, 0);
    lemma_scan_frames_decode(log.take(n), 0);
}

proof fn lemma_scan_frames_decode(log: Seq<u8>, offset: int)
    requires
        0 <= offset,
    ensures
        forall|i: int|
            0 <= i < scan_from(log, offset).len() ==> decode_frame(
                log,
                (#[trigger] scan_from(log, offset)[i]).0,
            ) is Ok,
    decreases log.len() - offset,
{
    lemma_scan_step(log, offset);
    if let Ok((h, p)) = decode_frame(log, offset) {
        lemma_scan_frames_decode(log, offset + h.length);
        let s = scan_from(log, offset);
        assert forall|i: int| 0 <= i < s.len() implies decode_frame(log, (#[trigger] s[i]).0) is Ok by {
            if i > 0 {
                assert(s[i] == scan_from(log, offset + h.length)[i - 1]);
            }
        }
    }
}

} // verus!
